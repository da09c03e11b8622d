//! Component data read and written by the systems of this crate. Geometry
//! and other real-valued fields are carried as IEEE-754 single-precision bit
//! patterns: the library stores and compares them, and never computes with
//! them.
use vstd::prelude::*;
use crate::ids::ComponentId;

verus! {

/// Bit pattern of `1.0f32`.
pub const F32_ONE_BITS: u32 = 0x3f80_0000;

/// A durable reference to another component.
#[derive(Debug, Clone, PartialEq, Eq)]
pub enum ComponentRef {
    /// The component with this stable identifier.
    Guid(u64),
    /// A scoped selector such as `../#target`.
    Query(String),
}

/// An imported glTF scene root: the transforms of its imported nodes and
/// the joint transforms of its armature, in import order; both empty until
/// the import has run.
#[derive(Debug, Clone, PartialEq, Eq)]
pub struct GltfComponent {
    pub spawned_node_transforms: Vec<ComponentId>,
    pub armature_joint_transforms: Vec<ComponentId>,
}

impl GltfComponent {
    pub fn new() -> (g: Self)
        ensures
            g.spawned_node_transforms@.len() == 0,
            g.armature_joint_transforms@.len() == 0,
    {
        GltfComponent { spawned_node_transforms: Vec::new(), armature_joint_transforms: Vec::new() }
    }
}

/// Declares the retargeting basis of one armature joint by five references
/// resolved among the joints of the owning glTF armature: the target, and
/// the start and end of the forward and up landmark directions.
#[derive(Debug, Clone, PartialEq, Eq)]
pub struct JointRetargetBasisComponent {
    pub target: ComponentRef,
    pub forward_start: ComponentRef,
    pub forward_end: ComponentRef,
    pub up_start: ComponentRef,
    pub up_end: ComponentRef,
}

/// A local transform: translation, rotation quaternion `xyzw`, scale.
#[derive(Debug, Clone, Copy, PartialEq, Eq)]
pub struct TransformComponent {
    pub translation_bits: [u32; 3],
    pub rotation_bits: [u32; 4],
    pub scale_bits: [u32; 3],
}

impl TransformComponent {
    /// The identity transform.
    pub fn new() -> (t: Self)
        ensures
            t.translation_bits@ == seq![0u32, 0u32, 0u32],
            t.rotation_bits@ == seq![0u32, 0u32, 0u32, F32_ONE_BITS],
            t.scale_bits@ == seq![F32_ONE_BITS, F32_ONE_BITS, F32_ONE_BITS],
    {
        let t = TransformComponent {
            translation_bits: [0, 0, 0],
            rotation_bits: [0, 0, 0, F32_ONE_BITS],
            scale_bits: [F32_ONE_BITS, F32_ONE_BITS, F32_ONE_BITS],
        };
        proof {
            assert(t.translation_bits@ =~= seq![0u32, 0u32, 0u32]);
            assert(t.rotation_bits@ =~= seq![0u32, 0u32, 0u32, F32_ONE_BITS]);
            assert(t.scale_bits@ =~= seq![F32_ONE_BITS, F32_ONE_BITS, F32_ONE_BITS]);
        }
        t
    }
}

/// The editor root; `selected` is the editor's current selection.
#[derive(Debug, Clone, Copy, PartialEq, Eq, Structural)]
pub struct EditorComponent {
    pub selected: Option<ComponentId>,
}

impl EditorComponent {
    pub fn new() -> (e: Self)
        ensures
            e.selected is None,
    {
        EditorComponent { selected: None }
    }
}

/// Which coordinate family a grid's visual lines follow.
#[derive(Debug, Clone, Copy, PartialEq, Eq, Structural)]
pub enum GridVisualSpace {
    Local,
    World,
}

/// An authored editor grid. Its owner is the nearest ancestor transform.
#[derive(Debug, Clone, Copy, PartialEq, Eq, Structural)]
pub struct GridComponent {
    pub spacing_bits: u32,
    pub size_x: u32,
    pub size_z: u32,
    pub enabled: bool,
    pub hidden: bool,
    pub selectable: bool,
    pub visual_space: GridVisualSpace,
}

impl GridComponent {
    pub const DEFAULT_SIZE_X: u32 = 32;
    pub const DEFAULT_SIZE_Z: u32 = 32;

    /// An enabled, visible, selectable grid of the default size.
    pub fn new(spacing_bits: u32) -> (g: Self)
        ensures
            g.spacing_bits == spacing_bits,
            g.size_x == Self::DEFAULT_SIZE_X && g.size_z == Self::DEFAULT_SIZE_Z,
            g.enabled && !g.hidden && g.selectable,
            g.visual_space == GridVisualSpace::Local,
    {
        GridComponent {
            spacing_bits,
            size_x: Self::DEFAULT_SIZE_X,
            size_z: Self::DEFAULT_SIZE_Z,
            enabled: true,
            hidden: false,
            selectable: true,
            visual_space: GridVisualSpace::Local,
        }
    }

    pub fn with_enabled(self, enabled: bool) -> (g: Self)
        ensures
            g == (GridComponent { enabled, ..self }),
    {
        GridComponent { enabled, ..self }
    }

    pub fn with_hidden(self, hidden: bool) -> (g: Self)
        ensures
            g == (GridComponent { hidden, ..self }),
    {
        GridComponent { hidden, ..self }
    }

    pub fn with_selectable(self, selectable: bool) -> (g: Self)
        ensures
            g == (GridComponent { selectable, ..self }),
    {
        GridComponent { selectable, ..self }
    }

    pub fn with_size_x(self, size_x: u32) -> (g: Self)
        ensures
            g == (GridComponent { size_x, ..self }),
    {
        GridComponent { size_x, ..self }
    }

    pub fn with_size_z(self, size_z: u32) -> (g: Self)
        ensures
            g == (GridComponent { size_z, ..self }),
    {
        GridComponent { size_z, ..self }
    }
}

/// Binds the transform that owns it to a grid owner transform.
#[derive(Debug, Clone, PartialEq, Eq)]
pub struct GridBindingComponent {
    pub grid: ComponentRef,
}

impl GridBindingComponent {
    pub fn new(grid: ComponentRef) -> (b: Self)
        ensures
            b.grid == grid,
    {
        GridBindingComponent { grid }
    }
}

/// How a drag delta is constrained.
#[derive(Debug, Clone, Copy, PartialEq, Eq)]
pub enum DraggablePlane {
    /// The owner's parent-local XY plane.
    Object,
    /// The plane of the camera that drives the pointer.
    Camera,
    /// The plane spanned by two world axes.
    WorldAxes([[u32; 3]; 2]),
}

/// What a draggable moves.
#[derive(Debug, Clone, PartialEq, Eq)]
pub enum DraggableTarget {
    /// The transform that owns the marker.
    Owner,
    /// The nearest transform above the owner.
    ParentTransform,
    /// The uniquely resolved transform of a reference.
    Explicit(ComponentRef),
}

/// Marks its owner transform as draggable.
#[derive(Debug, Clone, PartialEq, Eq)]
pub struct DraggableComponent {
    pub enabled: bool,
    pub plane: DraggablePlane,
    pub target: DraggableTarget,
    /// The cached resolution of an explicit target.
    pub target_id: Option<ComponentId>,
    /// An explicit target has been resolved at least once.
    pub target_was_bound: bool,
}

impl DraggableComponent {
    /// Drags the owner in its object plane.
    pub fn new() -> (d: Self)
        ensures
            d.enabled && d.plane == DraggablePlane::Object && d.target == DraggableTarget::Owner,
            d.target_id is None && !d.target_was_bound,
    {
        DraggableComponent {
            enabled: true,
            plane: DraggablePlane::Object,
            target: DraggableTarget::Owner,
            target_id: None,
            target_was_bound: false,
        }
    }

    /// A handle that drags the transform above its owner.
    pub fn parent() -> (d: Self)
        ensures
            d.enabled && d.plane == DraggablePlane::Object && d.target == DraggableTarget::ParentTransform,
            d.target_id is None && !d.target_was_bound,
    {
        DraggableComponent {
            enabled: true,
            plane: DraggablePlane::Object,
            target: DraggableTarget::ParentTransform,
            target_id: None,
            target_was_bound: false,
        }
    }

    /// Drags the transform that `reference` names.
    pub fn explicit(reference: ComponentRef) -> (d: Self)
        ensures
            d.enabled && d.plane == DraggablePlane::Object && d.target == DraggableTarget::Explicit(reference),
            d.target_id is None && !d.target_was_bound,
    {
        DraggableComponent {
            enabled: true,
            plane: DraggablePlane::Object,
            target: DraggableTarget::Explicit(reference),
            target_id: None,
            target_was_bound: false,
        }
    }
}

/// Which pointer events a raycast target receives.
#[derive(Debug, Clone, Copy, PartialEq, Eq, Structural)]
pub enum PointerEvents {
    All,
    DragOnly,
}

/// Makes its owner's renderables pickable by pointer rays.
#[derive(Debug, Clone, Copy, PartialEq, Eq, Structural)]
pub struct RaycastableComponent {
    pub enable: bool,
    pub pointer_events: PointerEvents,
}

impl RaycastableComponent {
    pub fn enabled() -> (r: Self)
        ensures
            r.enable && r.pointer_events == PointerEvents::All,
    {
        RaycastableComponent { enable: true, pointer_events: PointerEvents::All }
    }

    pub fn disabled() -> (r: Self)
        ensures
            !r.enable && r.pointer_events == PointerEvents::All,
    {
        RaycastableComponent { enable: false, pointer_events: PointerEvents::All }
    }
}

/// Editor selection eligibility of its owner.
#[derive(Debug, Clone, Copy, PartialEq, Eq, Structural)]
pub struct SelectableComponent {
    pub enabled: bool,
}

impl SelectableComponent {
    pub fn on() -> (s: Self)
        ensures
            s.enabled,
    {
        SelectableComponent { enabled: true }
    }

    pub fn off() -> (s: Self)
        ensures
            !s.enabled,
    {
        SelectableComponent { enabled: false }
    }
}

/// Whether its owner's subtree is saved with the scene.
#[derive(Debug, Clone, Copy, PartialEq, Eq, Structural)]
pub struct SerializeComponent {
    pub enabled: bool,
}

impl SerializeComponent {
    pub fn off() -> (s: Self)
        ensures
            !s.enabled,
    {
        SerializeComponent { enabled: false }
    }
}

/// Lifecycle of an amplitude measurement.
#[derive(Debug, Clone, Copy, PartialEq, Eq, Structural)]
pub enum AmplitudeStatus {
    /// No valid source is bound.
    Invalid,
    /// A source is bound and no measurement for it has been retained yet.
    Pending,
    /// A measurement of the bound source that found silence.
    Neutral,
    /// A measurement of the bound source.
    Live,
}

/// One amplitude measurement. Timing and levels are IEEE-754 bit patterns
/// (`timestamp_sec_bits` a double, the levels singles).
#[derive(Debug, Clone, Copy, PartialEq, Eq, Structural)]
pub struct AmplitudeSample {
    pub generation: u64,
    pub sequence: u64,
    pub timestamp_sec_bits: u64,
    pub valid_frames: u32,
    pub rms_bits: u32,
    pub peak_bits: u32,
    pub status: AmplitudeStatus,
}

/// An empty measurement of `generation` in `status`.
/// A status that carries a measurement of the bound source.
pub open spec fn measured(status: AmplitudeStatus) -> bool {
    status == AmplitudeStatus::Live || status == AmplitudeStatus::Neutral
}

pub open spec fn empty_sample(generation: u64, status: AmplitudeStatus) -> AmplitudeSample {
    AmplitudeSample { generation, sequence: 0, timestamp_sec_bits: 0, valid_frames: 0, rms_bits: 0, peak_bits: 0, status }
}

impl AmplitudeSample {
    /// An empty measurement of `generation` in `status`.
    pub fn empty(generation: u64, status: AmplitudeStatus) -> (s: Self)
        ensures
            s == empty_sample(generation, status),
    {
        AmplitudeSample { generation, sequence: 0, timestamp_sec_bits: 0, valid_frames: 0, rms_bits: 0, peak_bits: 0, status }
    }

    /// Whether the sample is a measurement of a bound source, silent or not.
    pub fn is_live(&self) -> (b: bool)
        ensures
            b == measured(self.status),
    {
        match self.status {
            AmplitudeStatus::Live | AmplitudeStatus::Neutral => true,
            _ => false,
        }
    }
}

/// Observes the amplitude of an audio source over a rolling window
/// (`window_sec_bits`, a single-precision bit pattern).
#[derive(Debug, Clone, PartialEq, Eq)]
pub struct AmplitudeComponent {
    pub enabled: bool,
    pub window_sec_bits: u32,
    pub source: Option<ComponentRef>,
    pub resolved_source: Option<ComponentId>,
    pub generation: u64,
    pub retained: AmplitudeSample,
}

/// `generation + 1`, wrapping.
pub open spec fn next_generation(g: u64) -> u64 {
    if g == u64::MAX {
        0
    } else {
        (g + 1) as u64
    }
}

/// `a` moved to a fresh generation whose retained sample is empty in `status`.
pub open spec fn bumped(a: AmplitudeComponent, status: AmplitudeStatus) -> AmplitudeComponent {
    AmplitudeComponent {
        generation: next_generation(a.generation),
        retained: empty_sample(next_generation(a.generation), status),
        ..a
    }
}

impl AmplitudeComponent {
    /// An enabled observer with no source over a rolling window; none when
    /// the window is not a positive finite number.
    pub fn rolling_window(window_sec_bits: u32) -> (r: Option<Self>)
        ensures
            r is Some <==> 0 < window_sec_bits < 0x7f80_0000,
            r matches Some(a) ==> a.enabled && a.window_sec_bits == window_sec_bits && a.source is None
                && a.resolved_source is None && a.generation == 0 && a.retained == empty_sample(0, AmplitudeStatus::Invalid),
    {
        if window_sec_bits == 0 || window_sec_bits >= 0x7f80_0000 {
            return None;
        }
        Some(AmplitudeComponent {
            enabled: true,
            window_sec_bits,
            source: None,
            resolved_source: None,
            generation: 0,
            retained: AmplitudeSample::empty(0, AmplitudeStatus::Invalid),
        })
    }

    /// The same observer bound to `source`.
    pub fn with_source(self, source: ComponentRef) -> (a: Self)
        ensures
            a == (AmplitudeComponent { source: Some(source), ..self }),
    {
        AmplitudeComponent { source: Some(source), ..self }
    }

    /// Moves to a fresh generation whose retained sample is empty in `status`.
    pub fn bump_generation(&mut self, status: AmplitudeStatus)
        ensures
            *final(self) == bumped(*old(self), status),
    {
        self.generation = self.generation.wrapping_add(1);
        self.retained = AmplitudeSample::empty(self.generation, status);
    }
}

/// Opacity of a renderable, as a single-precision bit pattern.
#[derive(Debug, Clone, Copy, PartialEq, Eq, Structural)]
pub struct OpacityComponent {
    pub opacity_bits: u32,
}

/// A per-material scalar of a renderable, as a single-precision bit pattern.
#[derive(Debug, Clone, Copy, PartialEq, Eq, Structural)]
pub struct LightQuantizationComponent {
    pub quant_steps_bits: u32,
}

/// A colour, as single-precision bit patterns in red, green, blue, alpha order.
#[derive(Debug, Clone, Copy, PartialEq, Eq)]
pub struct ColorComponent {
    pub rgba_bits: [u32; 4],
}

/// Combines the renderables beneath it into one mesh; with
/// `keep_transforms` the sources keep their own transforms instead of being
/// collapsed into the combined mesh.
#[derive(Debug, Clone, Copy, PartialEq, Eq, Structural)]
pub struct CombineMeshComponent {
    pub keep_transforms: bool,
}

/// One component of the scene graph.
#[derive(Debug, Clone, PartialEq, Eq)]
pub enum Component {
    Transform(TransformComponent),
    Editor(EditorComponent),
    Grid(GridComponent),
    GridBinding(GridBindingComponent),
    Draggable(DraggableComponent),
    Raycastable(RaycastableComponent),
    Selectable(SelectableComponent),
    Serialize(SerializeComponent),
    /// A drawable mesh instance.
    Renderable,
    /// A desktop camera.
    Camera3D,
    /// An XR camera.
    CameraXR { enabled: bool },
    /// An imported glTF scene root.
    Gltf(GltfComponent),
    /// A retargeting basis declaration for one armature joint.
    JointRetargetBasis(JointRetargetBasisComponent),
    /// A live audio input.
    AudioInput,
    /// An audio clip source.
    AudioClip,
    /// An audio oscillator source.
    AudioOscillator,
    /// An amplitude observer.
    Amplitude(AmplitudeComponent),
    /// Opacity of the enclosing renderable.
    Opacity(OpacityComponent),
    /// Material scalar of the enclosing renderable.
    LightQuantization(LightQuantizationComponent),
    /// Colour of the enclosing renderable.
    Color(ColorComponent),
    /// A unit cube drawn with the grid material.
    GridMesh,
    /// Combines the renderables beneath it into one mesh.
    CombineMesh(CombineMeshComponent),
    /// An editor transform gizmo attached below a selected transform.
    TransformGizmo,
    /// The root of an implicit surface built from the spheres beneath it.
    ImplicitSurface,
    /// A sphere field of the implicit surface above it.
    ImplicitSphere,
    /// Any other component, by type name.
    Other(String),
}

} // verus!
