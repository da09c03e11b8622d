//! The editor grid registry: which grid components exist, which transform
//! owns each and which editor it belongs to, and the edits that keep grids,
//! their bindings and their live runtime in step.
use vstd::prelude::*;
use crate::components::{
    ColorComponent, Component, ComponentRef, GridBindingComponent, GridComponent, GridVisualSpace, LightQuantizationComponent,
    OpacityComponent, PointerEvents, RaycastableComponent, SelectableComponent, SerializeComponent, TransformComponent, F32_ONE_BITS,
};
use crate::grid::GridSystem;
use crate::ids::ComponentId;
use crate::query::{resolve_component_ref, resolve_ref_spec};
use crate::world::{selector_name, first_where, lemma_first_where_none, lemma_first_where_prefix, lemma_first_where_step, lemma_first_where_unique, World};

verus! {

/// One registered grid: its component, the transform that owns it, the
/// editor it belongs to and its current flags.
#[derive(Debug, Clone, Copy, PartialEq, Eq, Structural)]
pub struct GridEntry {
    pub grid_component: ComponentId,
    pub owner_transform: ComponentId,
    pub editor_root: ComponentId,
    pub enabled: bool,
    pub hidden: bool,
    pub selectable: bool,
}

/// Which kind of ancestor a walk up the graph looks for.
#[derive(Debug, Clone, Copy, PartialEq, Eq, Structural)]
pub enum AncestorKind {
    Transform,
    Editor,
}

pub open spec fn kind_pred(kind: AncestorKind) -> spec_fn(Component) -> bool {
    match kind {
        AncestorKind::Transform => |c: Component| c is Transform,
        AncestorKind::Editor => |c: Component| c is Editor,
    }
}

/// The nearest strict ancestor of `grid` that is a transform.
pub open spec fn owner_transform_spec(w: &World, grid: ComponentId) -> Option<ComponentId> {
    w.first_up(w.parent_spec(grid), w.slots(), kind_pred(AncestorKind::Transform))
}

/// `start` itself or its nearest ancestor that is an editor.
pub open spec fn editor_root_spec(w: &World, start: ComponentId) -> Option<ComponentId> {
    w.first_up(Some(start), w.slots(), kind_pred(AncestorKind::Editor))
}

/// The registry entry of `grid`: a grid component with an owning transform
/// that sits under an editor.
pub open spec fn entry_spec(w: &World, grid: ComponentId) -> Option<GridEntry> {
    match w.component_spec(grid) {
        Some(Component::Grid(g)) => match owner_transform_spec(w, grid) {
            Some(owner) => match editor_root_spec(w, owner) {
                Some(editor) => Some(GridEntry {
                    grid_component: grid,
                    owner_transform: owner,
                    editor_root: editor,
                    enabled: g.enabled,
                    hidden: g.hidden,
                    selectable: g.selectable,
                }),
                None => None,
            },
            None => None,
        },
        _ => None,
    }
}

pub open spec fn has_entry(w: &World) -> spec_fn(ComponentId) -> bool {
    |c: ComponentId| entry_spec(w, c) is Some
}

/// Entries of the first `n` slots that belong to `editor`, in slot order.
pub open spec fn editor_entries_upto(w: &World, n: int, editor: ComponentId) -> Seq<GridEntry>
    decreases n,
{
    if n <= 0 {
        Seq::empty()
    } else {
        let rest = editor_entries_upto(w, n - 1, editor);
        match entry_spec(w, World::id_at(n - 1)) {
            Some(e) => if e.editor_root == editor {
                rest.push(e)
            } else {
                rest
            },
            None => rest,
        }
    }
}

/// Every grid of `editor`, in slot order.
pub open spec fn editor_entries(w: &World, editor: ComponentId) -> Seq<GridEntry> {
    editor_entries_upto(w, w.slots() as int, editor)
}

/// The entry of the first child of `transform` that is a registered grid.
pub open spec fn owned_entry_spec(w: &World, transform: ComponentId) -> Option<GridEntry> {
    match first_where(w.children_spec(transform), has_entry(w)) {
        Some(c) => entry_spec(w, c),
        None => None,
    }
}

/// The grid an editor's selection names: the selected grid itself, or the
/// grid owned by the selected transform, provided it belongs to `editor`.
pub open spec fn selected_entry_spec(w: &World, editor: ComponentId) -> Option<GridEntry> {
    match w.component_spec(editor) {
        Some(Component::Editor(e)) => match e.selected {
            Some(sel) => match entry_spec(w, sel) {
                Some(en) if en.editor_root == editor => Some(en),
                _ => match owned_entry_spec(w, sel) {
                    Some(en) if en.editor_root == editor => Some(en),
                    _ => None,
                },
            },
            None => None,
        },
        _ => None,
    }
}

pub open spec fn is_binding(w: &World) -> spec_fn(ComponentId) -> bool {
    |c: ComponentId| w.component_spec(c) matches Some(Component::GridBinding(_))
}

/// The first child of `target` that is a grid binding.
pub open spec fn direct_binding_spec(w: &World, target: ComponentId) -> Option<ComponentId> {
    first_where(w.children_spec(target), is_binding(w))
}

/// What the binding component `binding` resolves to.
pub open spec fn binding_target_spec(w: &World, binding: ComponentId) -> Option<ComponentId> {
    match w.component_spec(binding) {
        Some(Component::GridBinding(b)) => resolve_ref_spec(w, binding, b.grid@),
        _ => None,
    }
}

/// The grid owner transform that `target`'s binding resolves to.
pub open spec fn bound_transform_spec(w: &World, target: ComponentId) -> Option<ComponentId> {
    match direct_binding_spec(w, target) {
        Some(b) => binding_target_spec(w, b),
        None => None,
    }
}


/// Runtime work that follows a grid edit; the caller carries it out in
/// order. `preview` selects the translucent preview look.
#[derive(Debug, Clone, Copy, PartialEq, Eq, Structural)]
pub enum GridRuntimeStep {
    /// Build the live visual subtree under `owner`, or refresh it when present.
    EnsureLive { owner: ComponentId, preview: bool },
    /// Bring the live visual's opacity and visual parameters up to date.
    SyncVisibility { owner: ComponentId, preview: bool },
    /// Remove the live visual subtree under `owner`.
    RemoveLive { owner: ComponentId },
    /// Initialise the components of a freshly spawned subtree.
    InitTree { root: ComponentId },
    /// Remove `owner` and everything under it, with runtime cleanup.
    RemoveSubtree { owner: ComponentId },
    /// Register a paint raycast target.
    RegisterRaycastable { component: ComponentId },
    /// Unregister a paint raycast target.
    RemoveRaycastable { component: ComponentId },
    /// Register a transform with the transform system.
    RegisterTransform { component: ComponentId },
    /// Register a renderable with the renderer.
    RegisterRenderable { component: ComponentId },
    /// Upload a changed opacity.
    RegisterOpacity { component: ComponentId },
    /// Upload a changed material scalar.
    RegisterLightQuantization { component: ComponentId },
}

/// The grid component owned by `owner`, with its current value.
pub open spec fn owned_grid_spec(w: &World, owner: ComponentId) -> Option<(ComponentId, GridComponent)> {
    match owned_entry_spec(w, owner) {
        Some(e) => match w.component_spec(e.grid_component) {
            Some(Component::Grid(g)) => Some((e.grid_component, g)),
            _ => None,
        },
        None => None,
    }
}

/// `w2` is `w1` with the component of `id` replaced by `c`.
pub open spec fn component_replaced(w1: &World, w2: &World, id: ComponentId, c: Component) -> bool {
    &&& w2.slots() == w1.slots()
    &&& w2.live(id) && w2.component_spec(id) == Some(c)
    &&& w2.parent_spec(id) == w1.parent_spec(id)
    &&& w2.children_spec(id) == w1.children_spec(id)
    &&& w2.name_spec(id) == w1.name_spec(id)
    &&& w2.guid_spec(id) == w1.guid_spec(id)
    &&& forall|x: ComponentId| x != id ==> #[trigger] w2.rec(x) == w1.rec(x)
}

/// Replacing one grid component by another grid keeps every nearest-kind
/// walk up the graph where it was.
proof fn lemma_first_up_frame(w1: &World, w2: &World, id: ComponentId, g1: GridComponent, g2: GridComponent, start: Option<ComponentId>, fuel: nat, kind: AncestorKind)
    requires
        w1.component_spec(id) == Some(Component::Grid(g1)),
        component_replaced(w1, w2, id, Component::Grid(g2)),
    ensures
        w2.first_up(start, fuel, kind_pred(kind)) == w1.first_up(start, fuel, kind_pred(kind)),
    decreases fuel,
{
    match start {
        None => {},
        Some(x) => {
            if fuel > 0 {
                if x != id {
                    assert(w2.rec(x) == w1.rec(x));
                }
                lemma_first_up_frame(w1, w2, id, g1, g2, w1.parent_spec(x), (fuel - 1) as nat, kind);
            }
        },
    }
}

/// After replacing the grid `id` by another grid, the grid `owner` owns is
/// the same component, now with the new value.
proof fn lemma_owned_grid_after_replace(w1: &World, w2: &World, owner: ComponentId, id: ComponentId, g1: GridComponent, g2: GridComponent)
    requires
        owned_grid_spec(w1, owner) == Some((id, g1)),
        component_replaced(w1, w2, id, Component::Grid(g2)),
    ensures
        owned_grid_spec(w2, owner) == Some((id, g2)),
{
    let e1 = owned_entry_spec(w1, owner).unwrap();
    assert(e1.grid_component == id);
    assert(w1.component_spec(id) == Some(Component::Grid(g1)));
    assert forall|c: ComponentId| #[trigger] has_entry(w2)(c) == has_entry(w1)(c) by {
        if c != id {
            assert(w2.rec(c) == w1.rec(c));
        }
        lemma_first_up_frame(w1, w2, id, g1, g2, w1.parent_spec(c), w1.slots(), AncestorKind::Transform);
        match owner_transform_spec(w1, c) {
            Some(o) => lemma_first_up_frame(w1, w2, id, g1, g2, Some(o), w1.slots(), AncestorKind::Editor),
            None => {},
        }
    }
    assert(has_entry(w2) =~= has_entry(w1));
    if owner != id {
        assert(w2.rec(owner) == w1.rec(owner));
    }
    assert(w2.children_spec(owner) == w1.children_spec(owner));
    lemma_first_up_frame(w1, w2, id, g1, g2, w1.parent_spec(id), w1.slots(), AncestorKind::Transform);
    lemma_first_up_frame(w1, w2, id, g1, g2, Some(e1.owner_transform), w1.slots(), AncestorKind::Editor);
}

/// Toggling a grid's hidden flag twice restores it: the first toggle leaves
/// the owner owning the same grid with the flag flipped, so the second
/// toggle finds that grid and flips the flag back.
pub proof fn toggling_hidden_twice_restores_the_grid(w0: &World, w1: &World, w2: &World, owner: ComponentId)
    requires
        owned_grid_spec(w0, owner) is Some,
        ({
            let (id, g) = owned_grid_spec(w0, owner).unwrap();
            component_replaced(w0, w1, id, Component::Grid(GridComponent { hidden: !g.hidden, ..g }))
        }),
        owned_grid_spec(w1, owner) is Some ==> {
            let (id, g) = owned_grid_spec(w1, owner).unwrap();
            component_replaced(w1, w2, id, Component::Grid(GridComponent { hidden: !g.hidden, ..g }))
        },
    ensures
        ({
            let (id, g) = owned_grid_spec(w0, owner).unwrap();
            &&& owned_grid_spec(w1, owner) == Some((id, GridComponent { hidden: !g.hidden, ..g }))
            &&& owned_grid_spec(w2, owner) == Some((id, g))
            &&& w2.component_spec(id) == w0.component_spec(id)
        }),
{
    let (id, g) = owned_grid_spec(w0, owner).unwrap();
    let g1 = GridComponent { hidden: !g.hidden, ..g };
    lemma_owned_grid_after_replace(w0, w1, owner, id, g, g1);
    assert(GridComponent { hidden: !g1.hidden, ..g1 } == g);
    lemma_owned_grid_after_replace(w1, w2, owner, id, g1, g);
}

/// The runtime work that turning `hidden` on or off asks for.
pub open spec fn hidden_steps(owner: ComponentId, g: GridComponent) -> Seq<GridRuntimeStep> {
    if g.enabled {
        seq![GridRuntimeStep::EnsureLive { owner, preview: false }, GridRuntimeStep::SyncVisibility { owner, preview: false }]
    } else {
        Seq::empty()
    }
}

/// The runtime work that enabling or disabling asks for.
pub open spec fn enabled_steps(owner: ComponentId, enabled: bool) -> Seq<GridRuntimeStep> {
    if enabled {
        seq![GridRuntimeStep::EnsureLive { owner, preview: false }, GridRuntimeStep::SyncVisibility { owner, preview: false }]
    } else {
        seq![GridRuntimeStep::RemoveLive { owner }]
    }
}

pub open spec fn flipped(v: GridVisualSpace) -> GridVisualSpace {
    match v {
        GridVisualSpace::Local => GridVisualSpace::World,
        GridVisualSpace::World => GridVisualSpace::Local,
    }
}

/// `b` is a grid binding that resolves to `owner`.
pub open spec fn binds_to(w: &World, b: ComponentId, owner: ComponentId) -> bool {
    w.component_spec(b) matches Some(Component::GridBinding(_)) && binding_target_spec(w, b) == Some(owner)
}

/// Every binding child of `target` but the first has no children of its own.
pub open spec fn extra_bindings_are_leaves(w: &World, target: ComponentId) -> bool {
    forall|x: ComponentId| #[trigger] w.children_spec(target).contains(x) && is_binding(w)(x)
        && direct_binding_spec(w, target) != Some(x) ==> w.children_spec(x).len() == 0
}

/// The binding component that a binding edit of `target` writes to: the
/// existing first binding, or a new one in the next slot.
pub open spec fn binding_slot(w: &World, target: ComponentId) -> ComponentId {
    match direct_binding_spec(w, target) {
        Some(b) => b,
        None => World::id_at(w.slots() as int),
    }
}

/// The component that binds to the grid owned by the component with stable identifier `guid`.
pub open spec fn guid_binding(guid: u64) -> Component {
    Component::GridBinding(GridBindingComponent { grid: ComponentRef::Guid(guid) })
}


/// Name of the root of a grid's live visual subtree.
pub open spec fn live_root_name() -> Seq<char> {
    "grid_live_root"@
}

/// The first component named `name` reached from `start`, `start` included,
/// by following parent links in at most `fuel` steps.
pub open spec fn first_named_up(w: &World, start: Option<ComponentId>, fuel: nat, name: Seq<char>) -> Option<ComponentId>
    decreases fuel,
{
    match start {
        None => None,
        Some(id) => if fuel == 0 || !w.live(id) {
            None
        } else if w.name_spec(id) == name {
            Some(id)
        } else {
            first_named_up(w, w.parent_spec(id), (fuel - 1) as nat, name)
        },
    }
}

/// The grid owner transform of the live visual that `renderable` belongs to.
pub open spec fn owner_from_renderable_spec(w: &World, renderable: ComponentId) -> Option<ComponentId> {
    match first_named_up(w, Some(renderable), w.slots(), live_root_name()) {
        Some(root) => owner_transform_spec(w, root),
        None => None,
    }
}

/// The grid component whose live visual `renderable` belongs to.
pub open spec fn grid_for_renderable_spec(w: &World, renderable: ComponentId) -> Option<ComponentId> {
    match owner_from_renderable_spec(w, renderable) {
        Some(owner) => match owned_entry_spec(w, owner) {
            Some(e) => Some(e.grid_component),
            None => None,
        },
        None => None,
    }
}

/// Grid size of a default editor grid, along each axis.
pub const DEFAULT_EDITOR_GRID_SIZE: u32 = 8192;

/// The grid component of a default editor grid: unit spacing, enabled but hidden.
pub open spec fn default_editor_grid() -> GridComponent {
    GridComponent {
        spacing_bits: F32_ONE_BITS,
        size_x: DEFAULT_EDITOR_GRID_SIZE,
        size_z: DEFAULT_EDITOR_GRID_SIZE,
        enabled: true,
        hidden: true,
        selectable: true,
        visual_space: GridVisualSpace::Local,
    }
}


/// A search over no elements finds nothing; a search that finds an element
/// found one of the sequence's elements, and one the predicate holds of.
pub proof fn lemma_first_where_found(s: Seq<ComponentId>, pred: spec_fn(ComponentId) -> bool)
    ensures
        first_where(s, pred) matches Some(x) ==> s.contains(x) && pred(x),
    decreases s.len(),
{
    if s.len() > 0 {
        lemma_first_where_found(s.drop_last(), pred);
        match first_where(s.drop_last(), pred) {
            Some(x) => {
                let k = choose|k: int| 0 <= k < s.drop_last().len() && #[trigger] s.drop_last()[k] == x;
                assert(s[k] == x);
            },
            None => {
                assert(s[s.len() - 1] == s.last());
            },
        }
    }
}

/// A search that finds something shows the sequence is not empty.
pub proof fn lemma_first_where_none_when_empty(s: Seq<ComponentId>, pred: spec_fn(ComponentId) -> bool)
    ensures
        s.len() == 0 ==> first_where(s, pred) is None,
{
}


/// `e` when it is an enabled grid.
pub open spec fn enabled_only(e: Option<GridEntry>) -> Option<GridEntry> {
    match e {
        Some(x) => if x.enabled {
            Some(x)
        } else {
            None
        },
        None => None,
    }
}

/// How a new editor grid is spawned: its pose, whether that pose is in
/// world space, and the grid's spacing, size and flags.
#[derive(Debug, Clone, Copy, PartialEq, Eq)]
pub struct GridSpawnSpec {
    pub translation_bits: [u32; 3],
    pub rotation_bits: [u32; 4],
    pub world_space_pose: bool,
    pub spacing_bits: u32,
    pub size_x: u32,
    pub size_z: u32,
    pub enabled: bool,
    pub hidden: bool,
    pub preview_mode: bool,
}

impl GridSpawnSpec {
    /// The default editor grid: at the editor's origin, unit spacing, the
    /// default editor size, enabled but hidden.
    pub fn default_hidden_editor_grid() -> (s: Self)
        ensures
            s.translation_bits@ == seq![0u32, 0u32, 0u32],
            s.rotation_bits@ == seq![0u32, 0u32, 0u32, F32_ONE_BITS],
            !s.world_space_pose,
            s.spacing_bits == F32_ONE_BITS,
            s.size_x == DEFAULT_EDITOR_GRID_SIZE && s.size_z == DEFAULT_EDITOR_GRID_SIZE,
            s.enabled && s.hidden && !s.preview_mode,
    {
        let s = GridSpawnSpec {
            translation_bits: [0, 0, 0],
            rotation_bits: [0, 0, 0, F32_ONE_BITS],
            world_space_pose: false,
            spacing_bits: F32_ONE_BITS,
            size_x: DEFAULT_EDITOR_GRID_SIZE,
            size_z: DEFAULT_EDITOR_GRID_SIZE,
            enabled: true,
            hidden: true,
            preview_mode: false,
        };
        assert(s.translation_bits@ =~= seq![0u32, 0u32, 0u32]);
        assert(s.rotation_bits@ =~= seq![0u32, 0u32, 0u32, F32_ONE_BITS]);
        s
    }

    /// A grid at the cursor's world pose (the origin and no rotation when
    /// there is none), unit spacing, the default grid size, enabled, and
    /// hidden exactly while previewed.
    pub fn from_cursor_pose(translation_bits: Option<[u32; 3]>, rotation_bits: Option<[u32; 4]>, preview_mode: bool) -> (s: Self)
        ensures
            s.translation_bits == match translation_bits {
                Some(t) => t,
                None => [0u32, 0u32, 0u32],
            },
            s.rotation_bits == match rotation_bits {
                Some(r) => r,
                None => [0u32, 0u32, 0u32, F32_ONE_BITS],
            },
            s.world_space_pose,
            s.spacing_bits == F32_ONE_BITS,
            s.size_x == GridComponent::DEFAULT_SIZE_X && s.size_z == GridComponent::DEFAULT_SIZE_Z,
            s.enabled,
            s.hidden == preview_mode,
            s.preview_mode == preview_mode,
    {
        GridSpawnSpec {
            translation_bits: match translation_bits {
                Some(t) => t,
                None => [0, 0, 0],
            },
            rotation_bits: match rotation_bits {
                Some(r) => r,
                None => [0, 0, 0, F32_ONE_BITS],
            },
            world_space_pose: true,
            spacing_bits: F32_ONE_BITS,
            size_x: GridComponent::DEFAULT_SIZE_X,
            size_z: GridComponent::DEFAULT_SIZE_Z,
            enabled: true,
            hidden: preview_mode,
            preview_mode,
        }
    }
}

/// The pose a spawned grid's owner gets: the editor-local pose computed
/// from a world-space spec pose when there is one, else the spec's pose.
pub open spec fn spawn_pose(spec: GridSpawnSpec, editor_local_pose: Option<([u32; 3], [u32; 4])>) -> ([u32; 3], [u32; 4]) {
    match editor_local_pose {
        Some(pose) => if spec.world_space_pose {
            pose
        } else {
            (spec.translation_bits, spec.rotation_bits)
        },
        None => (spec.translation_bits, spec.rotation_bits),
    }
}

/// `c` is a unit-scale transform at `pose`.
pub open spec fn posed_transform(c: Component, pose: ([u32; 3], [u32; 4])) -> bool {
    match c {
        Component::Transform(t) => {
            &&& t.translation_bits == pose.0
            &&& t.rotation_bits == pose.1
            &&& t.scale_bits@ == seq![F32_ONE_BITS, F32_ONE_BITS, F32_ONE_BITS]
        },
        _ => false,
    }
}

/// The grid component a spawn creates: the spec's spacing, size and flags,
/// selectable, with local visual lines.
pub open spec fn spawned_grid(spec: GridSpawnSpec) -> GridComponent {
    GridComponent {
        spacing_bits: spec.spacing_bits,
        size_x: spec.size_x,
        size_z: spec.size_z,
        enabled: spec.enabled,
        hidden: spec.hidden,
        selectable: true,
        visual_space: GridVisualSpace::Local,
    }
}

/// The runtime steps of a spawn: initialise the new tree, then build its
/// live visual when it is enabled or previewed.
pub open spec fn spawn_steps(owner: ComponentId, spec: GridSpawnSpec) -> Seq<GridRuntimeStep> {
    if spec.preview_mode || spec.enabled {
        seq![GridRuntimeStep::InitTree { root: owner }, GridRuntimeStep::EnsureLive { owner, preview: spec.preview_mode }]
    } else {
        seq![GridRuntimeStep::InitTree { root: owner }]
    }
}

proof fn lemma_editor_entries_len(w: &World, n: int, editor: ComponentId)
    ensures
        editor_entries_upto(w, n, editor).len() <= if n < 0 { 0 } else { n },
    decreases n,
{
    if n > 0 {
        lemma_editor_entries_len(w, n - 1, editor);
    }
}

/// `c` is a transform component in its identity pose.
pub open spec fn is_identity_transform(c: Component) -> bool {
    match c {
        Component::Transform(t) => {
            &&& t.translation_bits@ == seq![0u32, 0u32, 0u32]
            &&& t.rotation_bits@ == seq![0u32, 0u32, 0u32, F32_ONE_BITS]
            &&& t.scale_bits@ == seq![F32_ONE_BITS, F32_ONE_BITS, F32_ONE_BITS]
        },
        _ => false,
    }
}


/// A binding written by `bind_transform_to_grid` is authoritative: when the
/// grid owner is the only component carrying its stable identifier, the
/// bound target resolves to exactly that owner.
pub proof fn guid_binding_resolves_to_its_owner(w: &World, target: ComponentId, b: ComponentId, owner: ComponentId, g: u64)
    requires
        direct_binding_spec(w, target) == Some(b),
        w.component_spec(b) == Some(guid_binding(g)),
        w.guid_spec(owner) == Some(g),
        forall|x: ComponentId| #[trigger] w.guid_spec(x) == Some(g) ==> x == owner,
    ensures
        bound_transform_spec(w, target) == Some(owner),
{
    assert(exists|x: ComponentId| #[trigger] w.guid_spec(x) == Some(g));
    let c = choose|x: ComponentId| w.guid_spec(x) == Some(g) && forall|j: int|
        0 <= j < x.index ==> #[trigger] w.guid_spec(World::id_at(j)) != Some(g);
    assert(exists|x: ComponentId| w.guid_spec(x) == Some(g) && forall|j: int|
        0 <= j < x.index ==> #[trigger] w.guid_spec(World::id_at(j)) != Some(g)) by {
        assert forall|j: int| 0 <= j < owner.index implies #[trigger] w.guid_spec(World::id_at(j)) != Some(g) by {
            if w.guid_spec(World::id_at(j)) == Some(g) {
                assert(World::id_at(j) == owner);
            }
        }
    }
    assert(c == owner);
}


/// Bit pattern of the single-precision opacity 0.45 of a grid preview.
pub const PREVIEW_OPACITY_BITS: u32 = 0x3ee6_6666;

/// Bit pattern of the single-precision smallest grid spacing, 1e-4.
pub const MIN_SPACING_BITS: u32 = 0x38d1_b717;

/// Opacity of a grid's live visual: translucent in preview, invisible when hidden.
pub open spec fn grid_opacity_spec(hidden: bool, preview: bool) -> u32 {
    if preview {
        PREVIEW_OPACITY_BITS
    } else if hidden {
        0
    } else {
        F32_ONE_BITS
    }
}

/// `f32::max(spacing, 1e-4)` on bit patterns: NaN and anything below the
/// floor give the floor; larger positive values are ordered by their bits.
pub open spec fn spacing_floor_spec(bits: u32) -> u32 {
    if bits > 0x7f80_0000 {
        MIN_SPACING_BITS
    } else if bits > MIN_SPACING_BITS {
        bits
    } else {
        MIN_SPACING_BITS
    }
}

/// The grid material's scalar: the floored spacing, negated for world-space line families.
pub open spec fn visual_parameter_spec(g: GridComponent) -> u32 {
    match g.visual_space {
        GridVisualSpace::Local => spacing_floor_spec(g.spacing_bits),
        GridVisualSpace::World => (spacing_floor_spec(g.spacing_bits) + 0x8000_0000) as u32,
    }
}

/// The first component named `name` under `owner`, `owner` included.
pub open spec fn live_part(w: &World, owner: ComponentId, name: Seq<char>) -> Option<ComponentId> {
    let found = w.find_all_spec(owner, seq!['#'] + name);
    if found.len() > 0 {
        Some(found[0])
    } else {
        None
    }
}

/// The component of `x` after the live visual of a grid `g` is synchronised.
pub open spec fn synced_component(w: &World, owner: ComponentId, g: GridComponent, preview: bool, x: ComponentId) -> Option<Component> {
    match w.component_spec(x) {
        Some(Component::Opacity(_)) if live_part(w, owner, "grid_live_opacity"@) == Some(x) =>
            Some(Component::Opacity(OpacityComponent { opacity_bits: grid_opacity_spec(g.hidden, preview) })),
        Some(Component::LightQuantization(_)) if live_part(w, owner, "grid_live_visual_params"@) == Some(x) =>
            Some(Component::LightQuantization(LightQuantizationComponent { quant_steps_bits: visual_parameter_spec(g) })),
        Some(Component::Selectable(_)) if live_part(w, owner, "grid_live_selectable"@) == Some(x) =>
            Some(Component::Selectable(SelectableComponent { enabled: false })),
        other => other,
    }
}

/// The uploads a synchronisation asks for.
pub open spec fn synced_steps(w: &World, owner: ComponentId) -> Seq<GridRuntimeStep> {
    let o = live_part(w, owner, "grid_live_opacity"@);
    let v = live_part(w, owner, "grid_live_visual_params"@);
    let first = match o {
        Some(id) => if w.component_spec(id) matches Some(Component::Opacity(_)) {
            seq![GridRuntimeStep::RegisterOpacity { component: id }]
        } else {
            Seq::empty()
        },
        None => Seq::empty(),
    };
    let second = match v {
        Some(id) => if w.component_spec(id) matches Some(Component::LightQuantization(_)) {
            seq![GridRuntimeStep::RegisterLightQuantization { component: id }]
        } else {
            Seq::empty()
        },
        None => Seq::empty(),
    };
    first + second
}


/// Number of components in a grid's live visual.
pub const LIVE_NODES: usize = 9;

/// Bit pattern of the single-precision lift 0.005 of the grid's visual plane.
pub const LIVE_SHAPE_LIFT_BITS: u32 = 0x3ba3_d70a;

/// Bit pattern of the single-precision thickness 0.0025 of the grid's visual plane.
pub const LIVE_SHAPE_THICKNESS_BITS: u32 = 0x3b23_d70a;

/// Name of live-visual node `k`.
pub open spec fn live_node_name(k: int) -> Seq<char> {
    if k == 0 {
        "grid_live_root"@
    } else if k == 1 {
        "grid_live_selectable"@
    } else if k == 2 {
        "grid_live_serialize"@
    } else if k == 3 {
        "grid_live_shape"@
    } else if k == 4 {
        "grid_live_renderable"@
    } else if k == 5 {
        "grid_live_color"@
    } else if k == 6 {
        "grid_live_opacity"@
    } else if k == 7 {
        "grid_live_visual_params"@
    } else {
        "grid_live_raycastable"@
    }
}

/// The live-visual node that is the parent of node `k`; none for the root,
/// which hangs under the grid owner.
pub open spec fn live_node_parent(k: int) -> Option<int> {
    if k == 0 {
        None
    } else if k <= 3 {
        Some(0)
    } else if k == 4 {
        Some(3)
    } else {
        Some(4)
    }
}

/// Component of live-visual node `k` for grid `g`, in preview or not; the
/// visual plane is `scale_x` by `scale_z` (bit patterns).
pub open spec fn live_node_component_ok(k: int, c: Component, g: GridComponent, preview: bool, scale_x: u32, scale_z: u32) -> bool {
    if k == 0 {
        c matches Component::Transform(t) && t.translation_bits@ == seq![0u32, 0u32, 0u32]
            && t.rotation_bits@ == seq![0u32, 0u32, 0u32, F32_ONE_BITS]
            && t.scale_bits@ == seq![F32_ONE_BITS, F32_ONE_BITS, F32_ONE_BITS]
    } else if k == 1 {
        c == Component::Selectable(SelectableComponent { enabled: false })
    } else if k == 2 {
        c == Component::Serialize(SerializeComponent { enabled: false })
    } else if k == 3 {
        c matches Component::Transform(t) && t.translation_bits@ == seq![0u32, LIVE_SHAPE_LIFT_BITS, 0u32]
            && t.rotation_bits@ == seq![0u32, 0u32, 0u32, F32_ONE_BITS]
            && t.scale_bits@ == seq![scale_x, LIVE_SHAPE_THICKNESS_BITS, scale_z]
    } else if k == 4 {
        c == Component::GridMesh
    } else if k == 5 {
        c matches Component::Color(col) && col.rgba_bits@ == seq![F32_ONE_BITS, F32_ONE_BITS, F32_ONE_BITS, F32_ONE_BITS]
    } else if k == 6 {
        c == Component::Opacity(OpacityComponent { opacity_bits: grid_opacity_spec(g.hidden, preview) })
    } else if k == 7 {
        c == Component::LightQuantization(LightQuantizationComponent { quant_steps_bits: visual_parameter_spec(g) })
    } else {
        c == Component::Raycastable(RaycastableComponent { enable: false, pointer_events: PointerEvents::DragOnly })
    }
}

/// Live-visual nodes among the first `k` whose parent is node `j`, in order.
pub open spec fn live_kids_upto(ids: Seq<ComponentId>, j: int, k: int) -> Seq<ComponentId>
    decreases k,
{
    if k <= 0 {
        Seq::empty()
    } else if live_node_parent(k - 1) == Some(j) {
        live_kids_upto(ids, j, k - 1).push(ids[k - 1])
    } else {
        live_kids_upto(ids, j, k - 1)
    }
}

/// Every parent link out of the first `lo` slots stays inside them, and
/// every later component's parent comes before it.
pub open spec fn parents_below(w: &World, lo: nat) -> bool {
    forall|y: ComponentId| #[trigger] w.parent_spec(y) is Some ==> w.parent_spec(y).unwrap().index < (if y.index < lo { lo as int } else { y.index as int })
}


/// Identity of live-visual node `k` when the visual is built from slot `base`.
pub open spec fn live_node_id(base: nat, k: int) -> ComponentId {
    World::id_at(base + k)
}

/// The parent of live-visual node `k` built from slot `base` under `owner`.
pub open spec fn live_parent_id(owner: ComponentId, base: nat, k: int) -> ComponentId {
    match live_node_parent(k) {
        None => owner,
        Some(j) => live_node_id(base, j),
    }
}

/// The identities of the live-visual nodes built from slot `base`.
pub open spec fn live_node_ids(base: nat) -> Seq<ComponentId> {
    Seq::new(LIVE_NODES as nat, |k: int| live_node_id(base, k))
}


/// The paint raycast targets of the first `n` slots' grids, in slot order,
/// each with whether it should be active: in paint mode, for an enabled,
/// visible grid.
pub open spec fn paint_pairs_upto(w: &World, n: int, paint: bool) -> Seq<(ComponentId, bool)>
    decreases n,
{
    if n <= 0 {
        Seq::empty()
    } else {
        let rest = paint_pairs_upto(w, n - 1, paint);
        match entry_spec(w, World::id_at(n - 1)) {
            Some(e) => match live_part(w, e.owner_transform, "grid_live_raycastable"@) {
                Some(rc) => rest.push((rc, paint && e.enabled && !e.hidden)),
                None => rest,
            },
            None => rest,
        }
    }
}

/// The last activity `p` asks of `x`.
pub open spec fn last_enable(p: Seq<(ComponentId, bool)>, x: ComponentId) -> Option<bool>
    decreases p.len(),
{
    if p.len() == 0 {
        None
    } else if p.last().0 == x {
        Some(p.last().1)
    } else {
        last_enable(p.drop_last(), x)
    }
}

/// The raycast target `x` after the requests of `p`.
pub open spec fn raycast_state(w: &World, p: Seq<(ComponentId, bool)>, x: ComponentId) -> Option<RaycastableComponent> {
    match w.component_spec(x) {
        Some(Component::Raycastable(r)) => Some(match last_enable(p, x) {
            Some(e) => RaycastableComponent { enable: e, pointer_events: PointerEvents::DragOnly },
            None => r,
        }),
        _ => None,
    }
}

/// The registrations that the requests of `p` cause: one each time a
/// target's activity or pointer filter actually changes.
pub open spec fn paint_steps(w: &World, p: Seq<(ComponentId, bool)>) -> Seq<GridRuntimeStep>
    decreases p.len(),
{
    if p.len() == 0 {
        Seq::empty()
    } else {
        let prev = paint_steps(w, p.drop_last());
        let x = p.last().0;
        let e = p.last().1;
        match raycast_state(w, p.drop_last(), x) {
            Some(r) => if r.enable != e || r.pointer_events != PointerEvents::DragOnly {
                prev.push(if e { GridRuntimeStep::RegisterRaycastable { component: x } } else { GridRuntimeStep::RemoveRaycastable { component: x } })
            } else {
                prev
            },
            None => prev,
        }
    }
}

/// Two worlds with the same places, whose components differ at most in the
/// payload of raycast targets.
pub open spec fn raycast_variant(w1: &World, w2: &World) -> bool {
    &&& w2.slots() == w1.slots()
    &&& forall|x: ComponentId| #[trigger] w2.same_place(w1, x)
    &&& forall|x: ComponentId| #![trigger w2.component_spec(x)]
        w2.component_spec(x) == w1.component_spec(x)
        || (w1.component_spec(x) matches Some(Component::Raycastable(_)) && w2.component_spec(x) matches Some(Component::Raycastable(_)))
}

proof fn lemma_variant_first_up(w1: &World, w2: &World, start: Option<ComponentId>, fuel: nat, kind: AncestorKind)
    requires
        raycast_variant(w1, w2),
    ensures
        w2.first_up(start, fuel, kind_pred(kind)) == w1.first_up(start, fuel, kind_pred(kind)),
    decreases fuel,
{
    if let Some(x) = start {
        assert(w2.same_place(w1, x));
        assert(w2.component_spec(x) == w1.component_spec(x)
            || (w1.component_spec(x) matches Some(Component::Raycastable(_)) && w2.component_spec(x) matches Some(Component::Raycastable(_))));
        if fuel > 0 {
            lemma_variant_first_up(w1, w2, w1.parent_spec(x), (fuel - 1) as nat, kind);
        }
    }
}

proof fn lemma_variant_subtree(w1: &World, w2: &World, id: ComponentId, roots: Seq<ComponentId>, fuel: nat)
    requires
        raycast_variant(w1, w2),
    ensures
        w2.subtree(id, fuel) == w1.subtree(id, fuel),
        w2.forest(roots, fuel) == w1.forest(roots, fuel),
    decreases fuel, roots.len(),
{
    assert(w2.same_place(w1, id));
    if fuel > 0 && w1.live(id) {
        lemma_variant_subtree(w1, w2, id, w1.children_spec(id), (fuel - 1) as nat);
    }
    if roots.len() > 0 {
        lemma_variant_subtree(w1, w2, roots.last(), roots.drop_last(), fuel);
    }
}

proof fn lemma_variant_entries(w1: &World, w2: &World, paint: bool, n: int)
    requires
        raycast_variant(w1, w2),
    ensures
        paint_pairs_upto(w2, n, paint) == paint_pairs_upto(w1, n, paint),
    decreases n,
{
    if n > 0 {
        lemma_variant_entries(w1, w2, paint, n - 1);
        let c = World::id_at(n - 1);
        assert(w2.component_spec(c) == w1.component_spec(c)
            || (w1.component_spec(c) matches Some(Component::Raycastable(_)) && w2.component_spec(c) matches Some(Component::Raycastable(_))));
        lemma_variant_first_up(w1, w2, w1.parent_spec(c), w1.slots(), AncestorKind::Transform);
        assert(w2.same_place(w1, c));
        if let Some(o) = owner_transform_spec(w1, c) {
            lemma_variant_first_up(w1, w2, Some(o), w1.slots(), AncestorKind::Editor);
            lemma_variant_subtree(w1, w2, o, Seq::empty(), w1.slots());
            let name = "grid_live_raycastable"@;
            assert(w2.named(name) =~= w1.named(name)) by {
                assert forall|x: ComponentId| #[trigger] w2.named(name)(x) == w1.named(name)(x) by {
                    assert(w2.same_place(w1, x));
                }
            }
            assert(selector_name(seq!['#'] + name) == Some(name)) by {
                assert((seq!['#'] + name).drop_first() =~= name);
            }
        }
        assert(entry_spec(w2, c) == entry_spec(w1, c));
    }
}

proof fn lemma_last_enable_absent(p: Seq<(ComponentId, bool)>, x: ComponentId)
    requires
        forall|i: int| 0 <= i < p.len() ==> (#[trigger] p[i]).0 != x,
    ensures
        last_enable(p, x) is None,
    decreases p.len(),
{
    if p.len() > 0 {
        assert(p[p.len() - 1].0 != x);
        lemma_last_enable_absent(p.drop_last(), x);
    }
}

proof fn lemma_last_enable_only(p: Seq<(ComponentId, bool)>, k: int)
    requires
        0 <= k < p.len(),
        forall|i: int| 0 <= i < p.len() && i != k ==> (#[trigger] p[i]).0 != p[k].0,
    ensures
        last_enable(p, p[k].0) == Some(p[k].1),
    decreases p.len(),
{
    if k < p.len() - 1 {
        assert(p[p.len() - 1].0 != p[k].0);
        let q = p.drop_last();
        assert(q[k] == p[k]);
        assert forall|i: int| 0 <= i < q.len() && i != k implies (#[trigger] q[i]).0 != q[k].0 by {
            assert(q[i] == p[i]);
        }
        lemma_last_enable_only(q, k);
    }
}

proof fn lemma_no_paint_steps(w0: &World, w1: &World, p: Seq<(ComponentId, bool)>, k: int)
    requires
        0 <= k <= p.len(),
        forall|x: ComponentId| #[trigger] w1.component_spec(x) == match raycast_state(w0, p, x) {
            Some(r) => Some(Component::Raycastable(r)),
            None => w0.component_spec(x),
        },
        forall|i: int, j: int| 0 <= i < j < p.len() ==> (#[trigger] p[i]).0 != (#[trigger] p[j]).0,
    ensures
        paint_steps(w1, p.take(k)) == Seq::<GridRuntimeStep>::empty(),
    decreases k,
{
    if k > 0 {
        lemma_no_paint_steps(w0, w1, p, k - 1);
        let q = p.take(k);
        assert(q.drop_last() =~= p.take(k - 1));
        let x = p[k - 1].0;
        assert(q.last() == p[k - 1]);
        assert forall|i: int| 0 <= i < p.take(k - 1).len() implies (#[trigger] p.take(k - 1)[i]).0 != x by {
            assert(p.take(k - 1)[i] == p[i]);
        }
        lemma_last_enable_absent(p.take(k - 1), x);
        assert forall|i: int| 0 <= i < p.len() && i != k - 1 implies (#[trigger] p[i]).0 != p[k - 1].0 by {
            if i < k - 1 {
                assert(p[i].0 != p[k - 1].0);
            } else {
                assert(p[k - 1].0 != p[i].0);
            }
        }
        lemma_last_enable_only(p, k - 1);
        assert(w1.component_spec(x) == match raycast_state(w0, p, x) {
            Some(r) => Some(Component::Raycastable(r)),
            None => w0.component_spec(x),
        });
    }
}

/// Synchronising the paint raycast targets twice in a row: the second pass
/// finds the same targets, changes no component and asks for no
/// registration. `w1` is the world after the first pass from `w0`. It holds
/// when no two grids share one raycast target.
pub proof fn paint_sync_is_idempotent(w0: &World, w1: &World, paint: bool)
    requires
        w1.slots() == w0.slots(),
        forall|x: ComponentId| #[trigger] w1.same_place(w0, x),
        forall|x: ComponentId| #[trigger] w1.component_spec(x) == match raycast_state(w0, paint_pairs_upto(w0, w0.slots() as int, paint), x) {
            Some(r) => Some(Component::Raycastable(r)),
            None => w0.component_spec(x),
        },
        ({
            let p = paint_pairs_upto(w0, w0.slots() as int, paint);
            forall|i: int, j: int| 0 <= i < j < p.len() ==> (#[trigger] p[i]).0 != (#[trigger] p[j]).0
        }),
    ensures
        ({
            let p = paint_pairs_upto(w0, w0.slots() as int, paint);
            &&& paint_pairs_upto(w1, w1.slots() as int, paint) == p
            &&& forall|x: ComponentId| #[trigger] raycast_state(w1, p, x) is Some ==> Some(Component::Raycastable(raycast_state(w1, p, x).unwrap())) == w1.component_spec(x)
            &&& paint_steps(w1, p) == Seq::<GridRuntimeStep>::empty()
        }),
{
    let p = paint_pairs_upto(w0, w0.slots() as int, paint);
    assert(raycast_variant(w0, w1)) by {
        assert forall|x: ComponentId| #![trigger w1.component_spec(x)]
            w1.component_spec(x) == w0.component_spec(x)
            || (w0.component_spec(x) matches Some(Component::Raycastable(_)) && w1.component_spec(x) matches Some(Component::Raycastable(_))) by {
            assert(w1.component_spec(x) == match raycast_state(w0, p, x) {
                Some(r) => Some(Component::Raycastable(r)),
                None => w0.component_spec(x),
            });
        }
    }
    lemma_variant_entries(w0, w1, paint, w0.slots() as int);
    // Each target carries the activity its one request asks for.
    assert forall|x: ComponentId| #[trigger] raycast_state(w1, p, x) is Some implies
        Some(Component::Raycastable(raycast_state(w1, p, x).unwrap())) == w1.component_spec(x) by {
        assert(w1.component_spec(x) == match raycast_state(w0, p, x) {
            Some(r) => Some(Component::Raycastable(r)),
            None => w0.component_spec(x),
        });
        if last_enable(p, x) is Some {
            assert(raycast_state(w0, p, x) is Some);
        }
    }
    lemma_no_paint_steps(w0, w1, p, p.len() as int);
    assert(p.take(p.len() as int) =~= p);
}

/// Walks up from `start`, `start` included, to the nearest component of `kind`.
pub fn first_ancestor(w: &World, start: Option<ComponentId>, kind: AncestorKind) -> (r: Option<ComponentId>)
    ensures
        r == w.first_up(start, w.slots(), kind_pred(kind)),
{
    let mut current = start;
    let mut fuel = w.slot_count();
    while fuel > 0
        invariant
            w.first_up(current, fuel as nat, kind_pred(kind)) == w.first_up(start, w.slots(), kind_pred(kind)),
        decreases fuel,
    {
        match current {
            None => {
                return None;
            },
            Some(id) => {
                match w.component(id) {
                    None => {
                        return None;
                    },
                    Some(c) => {
                        let hit = match kind {
                            AncestorKind::Transform => matches!(c, Component::Transform(_)),
                            AncestorKind::Editor => matches!(c, Component::Editor(_)),
                        };
                        if hit {
                            return Some(id);
                        }
                    },
                }
                current = w.parent_of(id);
            },
        }
        fuel = fuel - 1;
    }
    None
}


/// Opacity of a grid's live visual.
pub fn grid_opacity(hidden: bool, preview: bool) -> (bits: u32)
    ensures
        bits == grid_opacity_spec(hidden, preview),
{
    if preview {
        PREVIEW_OPACITY_BITS
    } else if hidden {
        0
    } else {
        F32_ONE_BITS
    }
}

/// The grid material's scalar of `g`.
pub fn grid_visual_parameter(g: GridComponent) -> (bits: u32)
    ensures
        bits == visual_parameter_spec(g),
{
    let b = g.spacing_bits;
    let floor = if b > 0x7f80_0000 {
        MIN_SPACING_BITS
    } else if b > MIN_SPACING_BITS {
        b
    } else {
        MIN_SPACING_BITS
    };
    match g.visual_space {
        GridVisualSpace::Local => floor,
        GridVisualSpace::World => floor + 0x8000_0000,
    }
}

fn live_part_exec(w: &World, owner: ComponentId, selector: &str) -> (r: Option<ComponentId>)
    ensures
        selector@.len() > 0 && selector@[0] == '#' ==> r == live_part(w, owner, selector@.drop_first()),
{
    let r = w.find_component(owner, selector);
    proof {
        if selector@.len() > 0 && selector@[0] == '#' {
            assert(seq!['#'] + selector@.drop_first() =~= selector@);
        }
    }
    r
}


fn live_node(k: usize, g: GridComponent, preview: bool, scale_x: u32, scale_z: u32) -> (r: (&'static str, Component))
    requires
        k < LIVE_NODES,
    ensures
        r.0@ == live_node_name(k as int),
        live_node_component_ok(k as int, r.1, g, preview, scale_x, scale_z),
{
    if k == 0 {
        ("grid_live_root", Component::Transform(TransformComponent::new()))
    } else if k == 1 {
        ("grid_live_selectable", Component::Selectable(SelectableComponent { enabled: false }))
    } else if k == 2 {
        ("grid_live_serialize", Component::Serialize(SerializeComponent { enabled: false }))
    } else if k == 3 {
        let t = TransformComponent {
            translation_bits: [0, LIVE_SHAPE_LIFT_BITS, 0],
            rotation_bits: [0, 0, 0, F32_ONE_BITS],
            scale_bits: [scale_x, LIVE_SHAPE_THICKNESS_BITS, scale_z],
        };
        proof {
            assert(t.translation_bits@ =~= seq![0u32, LIVE_SHAPE_LIFT_BITS, 0u32]);
            assert(t.rotation_bits@ =~= seq![0u32, 0u32, 0u32, F32_ONE_BITS]);
            assert(t.scale_bits@ =~= seq![scale_x, LIVE_SHAPE_THICKNESS_BITS, scale_z]);
        }
        ("grid_live_shape", Component::Transform(t))
    } else if k == 4 {
        ("grid_live_renderable", Component::GridMesh)
    } else if k == 5 {
        let c = ColorComponent { rgba_bits: [F32_ONE_BITS, F32_ONE_BITS, F32_ONE_BITS, F32_ONE_BITS] };
        proof {
            assert(c.rgba_bits@ =~= seq![F32_ONE_BITS, F32_ONE_BITS, F32_ONE_BITS, F32_ONE_BITS]);
        }
        ("grid_live_color", Component::Color(c))
    } else if k == 6 {
        ("grid_live_opacity", Component::Opacity(OpacityComponent { opacity_bits: grid_opacity(g.hidden, preview) }))
    } else if k == 7 {
        ("grid_live_visual_params", Component::LightQuantization(LightQuantizationComponent { quant_steps_bits: grid_visual_parameter(g) }))
    } else {
        ("grid_live_raycastable", Component::Raycastable(RaycastableComponent { enable: false, pointer_events: PointerEvents::DragOnly }))
    }
}

/// Makes `child`, which has no parent, the last child of `parent`.
fn attach(world: &mut World, parent: ComponentId, child: ComponentId, Ghost(lo): Ghost<nat>)
    requires
        old(world).links_ok(),
        parents_below(old(world), lo),
        old(world).live(parent),
        old(world).live(child),
        parent.index < child.index,
        child.index >= lo,
        old(world).parent_spec(child) is None,
    ensures
        final(world).links_ok(),
        parents_below(final(world), lo),
        final(world).slots() == old(world).slots(),
        final(world).children_spec(parent) == old(world).children_spec(parent).push(child),
        final(world).parent_spec(child) == Some(parent),
        final(world).parent_spec(parent) == old(world).parent_spec(parent),
        final(world).children_spec(child) == old(world).children_spec(child),
        forall|x: ComponentId| #[trigger] final(world).live(x) == old(world).live(x),
        forall|x: ComponentId| #![trigger final(world).name_spec(x)] final(world).name_spec(x) == old(world).name_spec(x)
            && final(world).guid_spec(x) == old(world).guid_spec(x)
            && final(world).component_spec(x) == old(world).component_spec(x),
        forall|x: ComponentId| x != parent && x != child ==> #[trigger] final(world).rec(x) == old(world).rec(x),
{
    let ghost w0 = *world;
    proof {
        assert forall|y: ComponentId| y.index < child.index && #[trigger] w0.parent_spec(y) is Some
            implies w0.parent_spec(y).unwrap().index < child.index by {
        }
        w0.lemma_not_reaches_outside(parent, child, child.index as nat, w0.slots());
    }
    let r = world.add_child(parent, child);
    proof {
        assert(r is Ok);
        assert(parent != child);
        assert forall|y: ComponentId| #[trigger] world.parent_spec(y) is Some
            implies world.parent_spec(y).unwrap().index < (if y.index < lo { lo as int } else { y.index as int }) by {
            if y != child {
                assert(world.parent_spec(y) == w0.parent_spec(y));
            }
        }
    }
}

impl GridSystem {
    /// A registry with no pending refresh and no handlers installed.
    pub fn new() -> (s: Self)
        ensures
            !s.dirty,
            !s.handlers_installed,
    {
        GridSystem { dirty: false, handlers_installed: false }
    }

    /// Asks for the registry to be rebuilt before its next query.
    pub fn mark_dirty(&mut self)
        ensures
            final(self).dirty,
            final(self).handlers_installed == old(self).handlers_installed,
    {
        self.dirty = true;
    }

    /// Records that the parent-change handler is installed; true exactly on
    /// the first call, when the caller must install it.
    pub fn install_handlers(&mut self) -> (install_now: bool)
        ensures
            install_now == !old(self).handlers_installed,
            final(self).handlers_installed,
            final(self).dirty == old(self).dirty,
    {
        if self.handlers_installed {
            return false;
        }
        self.handlers_installed = true;
        true
    }

    /// The grid component owned by `owner_transform`, with its value.
    fn owned_grid(&self, world: &World, owner_transform: ComponentId) -> (r: Option<(ComponentId, GridComponent)>)
        ensures
            r == owned_grid_spec(world, owner_transform),
    {
        match self.grid_owned_by_transform(world, owner_transform) {
            Some(e) => match world.component(e.grid_component) {
                Some(Component::Grid(g)) => Some((e.grid_component, *g)),
                _ => None,
            },
            None => None,
        }
    }

    /// Hides or shows the grid owned by `owner_transform`; false when there is
    /// none or it already has that state.
    pub fn set_grid_hidden(&mut self, world: &mut World, steps: &mut Vec<GridRuntimeStep>, owner_transform: ComponentId, hidden: bool) -> (changed: bool)
        ensures
            changed == (owned_grid_spec(old(world), owner_transform) matches Some((_, g)) && g.hidden != hidden),
            !changed ==> *final(world) == *old(world) && final(steps)@ == old(steps)@ && *final(self) == *old(self),
            changed ==> {
                let (id, g) = owned_grid_spec(old(world), owner_transform).unwrap();
                &&& component_replaced(old(world), final(world), id, Component::Grid(GridComponent { hidden, ..g }))
                &&& final(steps)@ == old(steps)@ + hidden_steps(owner_transform, g)
                &&& final(self).dirty
                &&& final(self).handlers_installed == old(self).handlers_installed
            },
            old(world).links_ok() ==> final(world).links_ok(),
    {
        let (id, g) = match self.owned_grid(world, owner_transform) {
            Some(found) => found,
            None => {
                return false;
            },
        };
        if g.hidden == hidden {
            return false;
        }
        let _ = world.set_component(id, Component::Grid(g.with_hidden(hidden)));
        if g.enabled {
            steps.push(GridRuntimeStep::EnsureLive { owner: owner_transform, preview: false });
            steps.push(GridRuntimeStep::SyncVisibility { owner: owner_transform, preview: false });
        }
        proof {
            assert(final(steps)@ =~= old(steps)@ + hidden_steps(owner_transform, g));
        }
        self.mark_dirty();
        true
    }

    /// Enables or disables the grid owned by `owner_transform`; false when
    /// there is none or it already has that state.
    pub fn set_grid_enabled(&mut self, world: &mut World, steps: &mut Vec<GridRuntimeStep>, owner_transform: ComponentId, enabled: bool) -> (changed: bool)
        ensures
            changed == (owned_grid_spec(old(world), owner_transform) matches Some((_, g)) && g.enabled != enabled),
            !changed ==> *final(world) == *old(world) && final(steps)@ == old(steps)@ && *final(self) == *old(self),
            changed ==> {
                let (id, g) = owned_grid_spec(old(world), owner_transform).unwrap();
                &&& component_replaced(old(world), final(world), id, Component::Grid(GridComponent { enabled, ..g }))
                &&& final(steps)@ == old(steps)@ + enabled_steps(owner_transform, enabled)
                &&& final(self).dirty
                &&& final(self).handlers_installed == old(self).handlers_installed
            },
            old(world).links_ok() ==> final(world).links_ok(),
    {
        let (id, g) = match self.owned_grid(world, owner_transform) {
            Some(found) => found,
            None => {
                return false;
            },
        };
        if g.enabled == enabled {
            return false;
        }
        let _ = world.set_component(id, Component::Grid(g.with_enabled(enabled)));
        if enabled {
            steps.push(GridRuntimeStep::EnsureLive { owner: owner_transform, preview: false });
            steps.push(GridRuntimeStep::SyncVisibility { owner: owner_transform, preview: false });
        } else {
            steps.push(GridRuntimeStep::RemoveLive { owner: owner_transform });
        }
        proof {
            assert(final(steps)@ =~= old(steps)@ + enabled_steps(owner_transform, enabled));
        }
        self.mark_dirty();
        true
    }

    /// Flips the hidden flag of the grid owned by `owner_transform`; false
    /// when there is none.
    pub fn toggle_grid_hidden(&mut self, world: &mut World, steps: &mut Vec<GridRuntimeStep>, owner_transform: ComponentId) -> (changed: bool)
        ensures
            changed == owned_grid_spec(old(world), owner_transform) is Some,
            !changed ==> *final(world) == *old(world) && final(steps)@ == old(steps)@ && *final(self) == *old(self),
            changed ==> {
                let (id, g) = owned_grid_spec(old(world), owner_transform).unwrap();
                &&& component_replaced(old(world), final(world), id, Component::Grid(GridComponent { hidden: !g.hidden, ..g }))
                &&& final(steps)@ == old(steps)@ + hidden_steps(owner_transform, g)
                &&& final(self).dirty
            },
            old(world).links_ok() ==> final(world).links_ok(),
    {
        match self.owned_grid(world, owner_transform) {
            Some((_, g)) => self.set_grid_hidden(world, steps, owner_transform, !g.hidden),
            None => false,
        }
    }

    /// Flips the enabled flag of the grid owned by `owner_transform`; false
    /// when there is none.
    pub fn toggle_grid_enabled(&mut self, world: &mut World, steps: &mut Vec<GridRuntimeStep>, owner_transform: ComponentId) -> (changed: bool)
        ensures
            changed == owned_grid_spec(old(world), owner_transform) is Some,
            !changed ==> *final(world) == *old(world) && final(steps)@ == old(steps)@ && *final(self) == *old(self),
            changed ==> {
                let (id, g) = owned_grid_spec(old(world), owner_transform).unwrap();
                &&& component_replaced(old(world), final(world), id, Component::Grid(GridComponent { enabled: !g.enabled, ..g }))
                &&& final(steps)@ == old(steps)@ + enabled_steps(owner_transform, !g.enabled)
                &&& final(self).dirty
            },
            old(world).links_ok() ==> final(world).links_ok(),
    {
        match self.owned_grid(world, owner_transform) {
            Some((_, g)) => self.set_grid_enabled(world, steps, owner_transform, !g.enabled),
            None => false,
        }
    }

    /// Switches the grid owned by `owner_transform` between local and world
    /// line families; false when there is none.
    pub fn toggle_grid_visual_space(&mut self, world: &mut World, steps: &mut Vec<GridRuntimeStep>, owner_transform: ComponentId) -> (changed: bool)
        ensures
            changed == owned_grid_spec(old(world), owner_transform) is Some,
            !changed ==> *final(world) == *old(world) && final(steps)@ == old(steps)@,
            changed ==> {
                let (id, g) = owned_grid_spec(old(world), owner_transform).unwrap();
                &&& component_replaced(old(world), final(world), id, Component::Grid(GridComponent { visual_space: flipped(g.visual_space), ..g }))
                &&& final(steps)@ == old(steps)@.push(GridRuntimeStep::SyncVisibility { owner: owner_transform, preview: false })
            },
            *final(self) == *old(self),
            old(world).links_ok() ==> final(world).links_ok(),
    {
        let (id, g) = match self.owned_grid(world, owner_transform) {
            Some(found) => found,
            None => {
                return false;
            },
        };
        let visual_space = match g.visual_space {
            GridVisualSpace::Local => GridVisualSpace::World,
            GridVisualSpace::World => GridVisualSpace::Local,
        };
        let _ = world.set_component(id, Component::Grid(GridComponent { visual_space, ..g }));
        steps.push(GridRuntimeStep::SyncVisibility { owner: owner_transform, preview: false });
        true
    }

    /// The grid owner transform of the live visual that `renderable` belongs to.
    pub fn grid_owner_from_renderable(&self, world: &World, renderable: ComponentId) -> (r: Option<ComponentId>)
        ensures
            r == owner_from_renderable_spec(world, renderable),
    {
        let mut current = Some(renderable);
        let mut fuel = world.slot_count();
        while fuel > 0
            invariant
                first_named_up(world, current, fuel as nat, live_root_name())
                    == first_named_up(world, Some(renderable), world.slots(), live_root_name()),
            decreases fuel,
        {
            match current {
                None => {
                    return None;
                },
                Some(id) => {
                    if !world.contains(id) {
                        return None;
                    }
                    if world.has_name(id, "grid_live_root") {
                        return Self::grid_owner_transform(world, id);
                    }
                    current = world.parent_of(id);
                },
            }
            fuel = fuel - 1;
        }
        None
    }

    /// The grid component whose live visual `renderable` belongs to.
    pub fn grid_component_for_renderable(&self, world: &World, renderable: ComponentId) -> (r: Option<ComponentId>)
        ensures
            r == grid_for_renderable_spec(world, renderable),
    {
        match self.grid_owner_from_renderable(world, renderable) {
            Some(owner) => match self.grid_owned_by_transform(world, owner) {
                Some(e) => Some(e.grid_component),
                None => None,
            },
            None => None,
        }
    }

    /// The binding children of `target`, in child order.
    fn binding_children(world: &World, target: ComponentId) -> (r: Vec<ComponentId>)
        ensures
            forall|x: ComponentId| r@.contains(x) <==> world.children_spec(target).contains(x) && (world.component_spec(x) matches Some(Component::GridBinding(_))),
            r@.len() > 0 <==> direct_binding_spec(world, target) is Some,
    {
        let children = world.children_of(target);
        let ghost pred = is_binding(world);
        let mut out: Vec<ComponentId> = Vec::new();
        let mut i: usize = 0;
        while i < children.len()
            invariant
                i <= children@.len(),
                children@ == world.children_spec(target),
                pred == is_binding(world),
                forall|x: ComponentId| out@.contains(x) <==> children@.take(i as int).contains(x) && pred(x),
                out@.len() > 0 <==> first_where(children@.take(i as int), pred) is Some,
            decreases children@.len() - i,
        {
            let c = children[i];
            proof {
                assert(children@.take(i + 1) =~= children@.take(i as int).push(c));
                if first_where(children@.take(i as int), pred) is None {
                    lemma_first_where_step(children@, i as int, pred);
                } else {
                    assert(children@.take(i + 1).take(i as int) =~= children@.take(i as int));
                    lemma_first_where_prefix(children@.take(i + 1), i as int, pred);
                }
            }
            let is_b = match world.component(c) {
                Some(Component::GridBinding(_)) => true,
                _ => false,
            };
            let ghost before = out@;
            if is_b {
                out.push(c);
            }
            proof {
                assert(is_b == pred(c));
                assert(children@.take(i + 1)[i as int] == c);
                assert forall|x: ComponentId| out@.contains(x) <==> children@.take(i + 1).contains(x) && pred(x) by {
                    if out@.contains(x) {
                        if before.contains(x) {
                            let j = choose|j: int| 0 <= j < i && #[trigger] children@.take(i as int)[j] == x;
                            assert(children@.take(i + 1)[j] == x);
                        } else {
                            let j = choose|j: int| 0 <= j < out@.len() && #[trigger] out@[j] == x;
                            if j < before.len() {
                                assert(before[j] == x);
                            }
                            assert(x == c);
                        }
                    }
                    if children@.take(i + 1).contains(x) && pred(x) {
                        if x == c {
                            assert(out@[out@.len() - 1] == c);
                        } else {
                            let j = choose|j: int| 0 <= j < i + 1 && #[trigger] children@.take(i + 1)[j] == x;
                            assert(j != i);
                            assert(children@.take(i as int)[j] == x);
                            assert(before.contains(x));
                            let k = choose|k: int| 0 <= k < before.len() && #[trigger] before[k] == x;
                            assert(out@[k] == x);
                        }
                    }
                }
            }
            i += 1;
        }
        proof {
            assert(children@.take(children@.len() as int) =~= children@);
        }
        out
    }

    /// Removes every binding child of `target_transform`; true when it had any.
    /// A binding child that has children of its own is left in place.
    pub fn unbind_transform(world: &mut World, target_transform: ComponentId) -> (changed: bool)
        ensures
            changed == direct_binding_spec(old(world), target_transform) is Some,
            final(world).slots() == old(world).slots(),
            old(world).links_ok() ==> final(world).links_ok(),
            forall|x: ComponentId| old(world).children_spec(target_transform).contains(x) && (old(world).component_spec(x) matches Some(Component::GridBinding(_)))
                && old(world).children_spec(x).len() == 0 ==> !#[trigger] final(world).live(x),
            forall|x: ComponentId| !(old(world).children_spec(target_transform).contains(x) && (old(world).component_spec(x) matches Some(Component::GridBinding(_))))
                ==> #[trigger] final(world).same_data(old(world), x),
            (forall|x: ComponentId| old(world).children_spec(target_transform).contains(x)
                && (old(world).component_spec(x) matches Some(Component::GridBinding(_))) ==> #[trigger] old(world).children_spec(x).len() == 0)
                ==> direct_binding_spec(final(world), target_transform) is None,
    {
        let bindings = Self::binding_children(world, target_transform);
        let changed = bindings.len() > 0;
        let ghost before = *world;
        world.remove_leaves(&bindings);
        proof {
            assert(before == *old(world));
            assert forall|x: ComponentId| !(before.children_spec(target_transform).contains(x) && (before.component_spec(x) matches Some(Component::GridBinding(_))))
                implies #[trigger] world.same_data(&before, x) by {
                assert(!bindings@.contains(x));
                assert(world.live(x) == before.live(x));
            }
            if forall|x: ComponentId| before.children_spec(target_transform).contains(x)
                && (before.component_spec(x) matches Some(Component::GridBinding(_))) ==> #[trigger] before.children_spec(x).len() == 0 {
                let ws = *world;
                let kids = ws.children_spec(target_transform);
                assert forall|i: int| 0 <= i < kids.len() implies !is_binding(&ws)(#[trigger] kids[i]) by {
                    let x = kids[i];
                    assert(kids.contains(x));
                    assert(before.children_spec(target_transform).contains(x));
                    if bindings@.contains(x) {
                        assert(before.children_spec(x).len() == 0);
                        assert(!ws.live(x));
                    } else {
                        assert(ws.live(x) == before.live(x));
                        assert(ws.same_data(&before, x));
                    }
                }
                crate::world::lemma_first_where_none(kids, is_binding(&ws));
            }
        }
        changed
    }

    /// Every grid binding in `world`, in slot order, that resolves to `owner`.
    fn bindings_resolving_to(world: &World, owner: ComponentId) -> (r: Vec<ComponentId>)
        ensures
            forall|x: ComponentId| r@.contains(x) <==> binds_to(world, x, owner),
    {
        let n = world.slot_count();
        let mut out: Vec<ComponentId> = Vec::new();
        let mut i: usize = 0;
        while i < n
            invariant
                i <= n,
                n == world.slots(),
                forall|x: ComponentId| out@.contains(x) <==> binds_to(world, x, owner) && x.index < i,
            decreases n - i,
        {
            let id = ComponentId { index: i as u64 };
            let is_b = match world.component(id) {
                Some(Component::GridBinding(_)) => true,
                _ => false,
            };
            let ghost before = out@;
            if is_b {
                match Self::binding_target(world, id) {
                    Some(t) => {
                        if t.index == owner.index {
                            out.push(id);
                        }
                    },
                    None => {},
                }
            }
            proof {
                assert forall|x: ComponentId| out@.contains(x) <==> binds_to(world, x, owner) && x.index < i + 1 by {
                    if out@.contains(x) && !before.contains(x) {
                        let j = choose|j: int| 0 <= j < out@.len() && #[trigger] out@[j] == x;
                        if j < before.len() {
                            assert(before[j] == x);
                        }
                    }
                    if binds_to(world, x, owner) && x.index < i + 1 && x.index == i {
                        assert(x == id);
                        assert(out@[out@.len() - 1] == id);
                    }
                    if before.contains(x) {
                        let k = choose|k: int| 0 <= k < before.len() && #[trigger] before[k] == x;
                        assert(out@[k] == x);
                    }
                }
            }
            i += 1;
        }
        proof {
            assert forall|x: ComponentId| binds_to(world, x, owner) implies x.index < n by {
                assert(world.live(x));
                world.lemma_live_in_range(x);
            }
        }
        out
    }

    /// Deletes the grid owned by `owner_transform`: removes every binding
    /// that resolves to it and asks for the owner's subtree to be removed
    /// with runtime cleanup. False when `owner_transform` is not live.
    pub fn delete_grid(&mut self, world: &mut World, steps: &mut Vec<GridRuntimeStep>, owner_transform: ComponentId) -> (deleted: bool)
        ensures
            deleted == old(world).live(owner_transform),
            !deleted ==> *final(world) == *old(world) && final(steps)@ == old(steps)@ && *final(self) == *old(self),
            deleted ==> {
                &&& final(steps)@ == old(steps)@.push(GridRuntimeStep::RemoveSubtree { owner: owner_transform })
                &&& final(self).dirty
                &&& final(world).slots() == old(world).slots()
                &&& forall|b: ComponentId| binds_to(old(world), b, owner_transform) && old(world).children_spec(b).len() == 0
                    ==> !#[trigger] final(world).live(b)
                &&& forall|x: ComponentId| !binds_to(old(world), x, owner_transform) ==> #[trigger] final(world).same_data(old(world), x)
            },
            old(world).links_ok() ==> final(world).links_ok(),
    {
        if !world.contains(owner_transform) {
            return false;
        }
        let bindings = Self::bindings_resolving_to(world, owner_transform);
        let ghost before = *world;
        world.remove_leaves(&bindings);
        proof {
            assert forall|x: ComponentId| !binds_to(&before, x, owner_transform) implies #[trigger] world.same_data(&before, x) by {
                assert(!bindings@.contains(x));
                assert(world.live(x) == before.live(x));
            }
        }
        steps.push(GridRuntimeStep::RemoveSubtree { owner: owner_transform });
        self.mark_dirty();
        true
    }

    /// Binds `target_transform` to the grid owned by `grid_owner_transform`,
    /// by that owner's stable identifier: the first existing binding child is
    /// rewritten and the other binding children removed, or a binding child
    /// is added. False, with nothing changed, when the target is not a
    /// transform or the owner owns no grid.
    pub fn bind_transform_to_grid(world: &mut World, target_transform: ComponentId, grid_owner_transform: ComponentId) -> (bound: bool)
        requires
            old(world).links_ok(),
            old(world).slots() < u64::MAX,
        ensures
            bound == ((old(world).component_spec(target_transform) matches Some(Component::Transform(_)))
                && owned_entry_spec(old(world), grid_owner_transform) is Some),
            !bound ==> *final(world) == *old(world),
            final(world).links_ok(),
            bound ==> {
                let b = binding_slot(old(world), target_transform);
                let g = old(world).guid_spec(grid_owner_transform).unwrap();
                &&& old(world).guid_spec(grid_owner_transform) is Some
                &&& final(world).component_spec(b) == Some(guid_binding(g))
                &&& final(world).children_spec(target_transform).contains(b)
                &&& extra_bindings_are_leaves(old(world), target_transform) ==> {
                    &&& direct_binding_spec(final(world), target_transform) == Some(b)
                    &&& forall|x: ComponentId| #[trigger] final(world).children_spec(target_transform).contains(x)
                        && (final(world).component_spec(x) matches Some(Component::GridBinding(_))) ==> x == b
                }
            },
    {
        let is_transform = match world.component(target_transform) {
            Some(Component::Transform(_)) => true,
            _ => false,
        };
        if !is_transform {
            return false;
        }
        let registry = GridSystem::new();
        if registry.grid_owned_by_transform(world, grid_owner_transform).is_none() {
            return false;
        }
        proof {
            let kids = world.children_spec(grid_owner_transform);
            lemma_first_where_none_when_empty(kids, has_entry(world));
            world.lemma_live_in_range(grid_owner_transform);
        }
        let guid = match world.guid(grid_owner_transform) {
            Some(g) => g,
            None => {
                return false;
            },
        };
        let ghost w0 = *world;
        let ghost pred = is_binding(world);
        let children = world.children_of(target_transform);
        let mut first: Option<ComponentId> = None;
        let mut dups: Vec<ComponentId> = Vec::new();
        let mut i: usize = 0;
        while i < children.len()
            invariant
                i <= children@.len(),
                children@ == w0.children_spec(target_transform),
                pred == is_binding(&w0),
                *world == w0,
                first == first_where(children@.take(i as int), pred),
                first is None ==> forall|j: int| 0 <= j < i ==> !pred(#[trigger] children@[j]),
                first is None ==> dups@.len() == 0,
                forall|j: int| 0 <= j < i && pred(#[trigger] children@[j]) && Some(children@[j]) != first ==> dups@.contains(children@[j]),
                forall|x: ComponentId| #[trigger] dups@.contains(x) ==> pred(x) && children@.contains(x) && Some(x) != first,
            decreases children@.len() - i,
        {
            let c = children[i];
            let is_b = match world.component(c) {
                Some(Component::GridBinding(_)) => true,
                _ => false,
            };
            proof {
                assert(is_b == pred(c));
                if first is None {
                    lemma_first_where_step(children@, i as int, pred);
                } else {
                    assert(children@.take(i + 1).take(i as int) =~= children@.take(i as int));
                    lemma_first_where_prefix(children@.take(i + 1), i as int, pred);
                }
            }
            let ghost before = dups@;
            if is_b {
                match first {
                    None => {
                        first = Some(c);
                    },
                    Some(f) => {
                        if f.index != c.index {
                            dups.push(c);
                        }
                    },
                }
            }
            proof {
                assert forall|x: ComponentId| #[trigger] dups@.contains(x) implies pred(x) && children@.contains(x) && Some(x) != first by {
                    if before.contains(x) {
                    } else {
                        let k = choose|k: int| 0 <= k < dups@.len() && #[trigger] dups@[k] == x;
                        if k < before.len() {
                            assert(before[k] == x);
                        }
                        assert(x == c);
                        assert(children@[i as int] == c);
                    }
                }
                assert forall|j: int| 0 <= j < i + 1 && pred(#[trigger] children@[j]) && Some(children@[j]) != first implies dups@.contains(children@[j]) by {
                    if j < i {
                        if before.contains(children@[j]) {
                            let k = choose|k: int| 0 <= k < before.len() && #[trigger] before[k] == children@[j];
                            assert(dups@[k] == children@[j]);
                        }
                    } else {
                        assert(dups@[dups@.len() - 1] == c);
                    }
                }
            }
            i += 1;
        }
        proof {
            assert(children@.take(children@.len() as int) =~= children@);
        }
        match first {
            Some(b0) => {
                proof {
                    w0.lemma_live_in_range(target_transform);
                    assert(!dups@.contains(b0));
                    assert(!dups@.contains(target_transform));
                }
                world.remove_leaves(&dups);
                let ghost w1 = *world;
                let _ = world.set_component(b0, Component::GridBinding(GridBindingComponent::new(ComponentRef::Guid(guid))));
                proof {
                    lemma_first_where_found(children@, pred);
                    assert(w1.children_spec(target_transform) == world.children_spec(target_transform)) by {
                        assert(pred(b0));
                        assert(target_transform != b0);
                        assert(world.rec(target_transform) == w1.rec(target_transform));
                    }
                    assert(first_where(children@, pred) == Some(b0));
                    lemma_first_where_found(children@, pred);
                    assert(w0.children_spec(target_transform).contains(b0));
                    assert(w1.children_spec(target_transform).contains(b0));
                    if extra_bindings_are_leaves(&w0, target_transform) {
                        assert forall|x: ComponentId| #[trigger] world.children_spec(target_transform).contains(x)
                            && (world.component_spec(x) matches Some(Component::GridBinding(_))) implies x == b0 by {
                            if x != b0 {
                                assert(world.rec(x) == w1.rec(x));
                                assert(w0.children_spec(target_transform).contains(x));
                                if dups@.contains(x) {
                                    assert(w0.children_spec(x).len() == 0);
                                    assert(!w1.live(x));
                                } else {
                                    assert(w1.live(x) == w0.live(x));
                                    assert(w1.same_data(&w0, x));
                                    assert(pred(x));
                                    let j = choose|j: int| 0 <= j < children@.len() && #[trigger] children@[j] == x;
                                    assert(dups@.contains(children@[j]));
                                }
                            }
                        }
                        let ws = *world;
                        assert forall|j: int| 0 <= j < ws.children_spec(target_transform).len()
                            && is_binding(&ws)(#[trigger] ws.children_spec(target_transform)[j])
                            implies ws.children_spec(target_transform)[j] == b0 by {
                            assert(ws.children_spec(target_transform).contains(ws.children_spec(target_transform)[j]));
                        }
                        lemma_first_where_unique(ws.children_spec(target_transform), is_binding(&ws), b0);
                    }
                }
            },
            None => {
                let n = world.add_component_named("grid_binding", Component::GridBinding(GridBindingComponent::new(ComponentRef::Guid(guid))));
                let ghost w1 = *world;
                proof {
                    w0.lemma_fresh_unlinked(n);
                    w0.lemma_live_in_range(target_transform);
                    assert forall|y: ComponentId| y.index < w0.slots() && #[trigger] w1.parent_spec(y) is Some
                        implies w1.parent_spec(y).unwrap().index < w0.slots() by {
                        assert(y != n);
                        assert(w1.rec(y) == w0.rec(y));
                        assert(w0.parent_spec(y) == w1.parent_spec(y));
                    }
                    w1.lemma_not_reaches_outside(target_transform, n, w0.slots(), w1.slots());
                    assert(w1.rec(target_transform) == w0.rec(target_transform));
                }
                let r = world.add_child(target_transform, n);
                proof {
                    assert(r is Ok);
                    let ws = *world;
                    assert(ws.children_spec(target_transform) == w0.children_spec(target_transform).push(n));
                    assert(ws.name_spec(n) == w1.name_spec(n));
                    assert(ws.component_spec(n) == w1.component_spec(n));
                    assert forall|j: int| 0 <= j < ws.children_spec(target_transform).len()
                        && is_binding(&ws)(#[trigger] ws.children_spec(target_transform)[j])
                        implies ws.children_spec(target_transform)[j] == n by {
                        if j < children@.len() {
                            let x = children@[j];
                            assert(ws.children_spec(target_transform)[j] == x);
                            assert(w0.children_spec(target_transform).contains(x));
                            assert(x != n);
                            assert(w1.rec(x) == w0.rec(x));
                            assert(ws.name_spec(x) == w1.name_spec(x));
                            assert(ws.component_spec(x) == w1.component_spec(x));
                            assert(!pred(children@[j]));
                        }
                    }
                    assert(ws.children_spec(target_transform)[children@.len() as int] == n);
                    lemma_first_where_unique(ws.children_spec(target_transform), is_binding(&ws), n);
                    assert forall|x: ComponentId| #[trigger] ws.children_spec(target_transform).contains(x)
                        && (ws.component_spec(x) matches Some(Component::GridBinding(_))) implies x == n by {
                        let j = choose|j: int| 0 <= j < ws.children_spec(target_transform).len() && #[trigger] ws.children_spec(target_transform)[j] == x;
                    }
                    lemma_first_where_none(children@, pred);
                }
            },
        }
        true
    }

    /// Spawns a new grid under `editor_root`, numbered after the grids it
    /// has: an owner transform posed as `spec` says (in world space the pose
    /// is `editor_local_pose`, the pose in the editor's frame, when it could
    /// be computed) holding a selectable grid component with the spec's
    /// spacing, size and flags. The new tree is initialised, and its live
    /// visual built when it is enabled or previewed.
    pub fn spawn_grid_for_editor(
        &mut self,
        world: &mut World,
        steps: &mut Vec<GridRuntimeStep>,
        editor_root: ComponentId,
        spec: GridSpawnSpec,
        editor_local_pose: Option<([u32; 3], [u32; 4])>,
    ) -> (owner: ComponentId)
        requires
            old(world).links_ok(),
            old(world).slots() + 2 < u64::MAX,
        ensures
            final(world).links_ok(),
            ({
                let index = editor_entries(old(world), editor_root).len() + 1;
                let grid = World::id_at(old(world).slots() + 1int);
                &&& owner == World::id_at(old(world).slots() as int)
                &&& final(world).slots() == old(world).slots() + 2
                &&& final(world).live(owner) && final(world).live(grid)
                &&& posed_transform(final(world).component_spec(owner).unwrap(), spawn_pose(spec, editor_local_pose))
                &&& final(world).component_spec(grid) == Some(Component::Grid(spawned_grid(spec)))
                &&& final(world).name_spec(owner) == "grid_"@ + crate::text::decimal(index)
                &&& final(world).name_spec(grid) == "grid_"@ + crate::text::decimal(index) + "_component"@
                &&& final(world).parent_spec(grid) == Some(owner)
                &&& final(world).children_spec(owner) == seq![grid]
                &&& final(world).children_spec(grid).len() == 0
                &&& final(world).parent_spec(owner) == if old(world).live(editor_root) { Some(editor_root) } else { None::<ComponentId> }
                &&& old(world).live(editor_root) ==> final(world).children_spec(editor_root) == old(world).children_spec(editor_root).push(owner)
                &&& forall|x: ComponentId| x.index < old(world).slots() && x != editor_root ==> #[trigger] final(world).rec(x) == old(world).rec(x)
                &&& final(steps)@ == old(steps)@ + spawn_steps(owner, spec)
                &&& final(self).dirty
                &&& final(self).handlers_installed == old(self).handlers_installed
            }),
    {
        let existing = self.enumerate_grids_for_editor(world, editor_root);
        proof {
            lemma_editor_entries_len(world, world.slots() as int, editor_root);
        }
        let index = existing.len() as u64 + 1;
        let mut name = String::new();
        crate::text::push_chars(&mut name, "grid_");
        crate::text::push_zero_padded(&mut name, index, 0);
        let mut component_name = name.clone();
        crate::text::push_chars(&mut component_name, "_component");
        proof {
            assert(name@ =~= "grid_"@ + crate::text::decimal(index as nat));
        }
        let (translation_bits, rotation_bits) = match editor_local_pose {
            Some(pose) => if spec.world_space_pose {
                pose
            } else {
                (spec.translation_bits, spec.rotation_bits)
            },
            None => (spec.translation_bits, spec.rotation_bits),
        };
        let ghost w0 = *world;
        let owner = world.add_component_named(
            name.as_str(),
            Component::Transform(
                TransformComponent { translation_bits, rotation_bits, scale_bits: [F32_ONE_BITS, F32_ONE_BITS, F32_ONE_BITS] },
            ),
        );
        let ghost w1 = *world;
        proof {
            w0.lemma_live_in_range(editor_root);
            assert forall|y: ComponentId| y.index < w0.slots() && #[trigger] w1.parent_spec(y) is Some
                implies w1.parent_spec(y).unwrap().index < w0.slots() by {
                assert(y != owner);
                assert(w1.rec(y) == w0.rec(y));
                assert(w0.parent_spec(y) == w1.parent_spec(y));
            }
            if w0.live(editor_root) {
                w1.lemma_not_reaches_outside(editor_root, owner, w0.slots(), w1.slots());
                assert(w1.rec(editor_root) == w0.rec(editor_root));
            }
        }
        let linked = world.add_child(editor_root, owner);
        let ghost w2 = *world;
        let grid_component = GridComponent::new(spec.spacing_bits)
            .with_size_x(spec.size_x)
            .with_size_z(spec.size_z)
            .with_enabled(spec.enabled)
            .with_hidden(spec.hidden)
            .with_selectable(true);
        let grid = world.add_component_named(component_name.as_str(), Component::Grid(grid_component));
        let ghost w3 = *world;
        proof {
            assert(linked is Ok <==> w0.live(editor_root));
            assert(w2.name_spec(owner) == w1.name_spec(owner));
            assert(w2.live(owner));
            assert forall|y: ComponentId| y.index < w2.slots() && #[trigger] w3.parent_spec(y) is Some
                implies w3.parent_spec(y).unwrap().index < w2.slots() by {
                assert(y != grid);
                assert(w3.rec(y) == w2.rec(y));
                assert(w2.parent_spec(y) == w3.parent_spec(y));
                w2.lemma_live_in_range(owner);
            }
            w3.lemma_not_reaches_outside(owner, grid, w2.slots(), w3.slots());
            assert(w3.rec(owner) == w2.rec(owner));
        }
        let attached = world.add_child(owner, grid);
        proof {
            assert(attached is Ok);
            let ws = *world;
            assert(ws.name_spec(owner) == w3.name_spec(owner));
            assert(ws.name_spec(grid) == w3.name_spec(grid));
            assert(w3.name_spec(owner) == w2.name_spec(owner));
            assert(w2.name_spec(owner) == w1.name_spec(owner));
            assert(w3.parent_spec(owner) == w2.parent_spec(owner));
            assert(w3.children_spec(owner) == w2.children_spec(owner));
            assert(w2.children_spec(owner) == w1.children_spec(owner));
            assert(ws.children_spec(owner) =~= seq![grid]);
            assert(ws.component_spec(owner) == w1.component_spec(owner));
            assert forall|x: ComponentId| x.index < w0.slots() && x != editor_root implies #[trigger] ws.rec(x) == w0.rec(x) by {
                assert(x != owner && x != grid);
                assert(w1.rec(x) == w0.rec(x));
                assert(w2.rec(x) == w1.rec(x));
                assert(w3.rec(x) == w2.rec(x));
            }
            if w0.live(editor_root) {
                assert(ws.name_spec(editor_root) == w3.name_spec(editor_root));
                assert(w3.rec(editor_root) == w2.rec(editor_root));
                assert(w1.rec(editor_root) == w0.rec(editor_root));
                assert(w1.children_spec(editor_root) == w0.children_spec(editor_root));
                assert(w2.children_spec(editor_root) == w1.children_spec(editor_root).push(owner));
                assert(w3.children_spec(editor_root) == w2.children_spec(editor_root));
                assert(ws.children_spec(editor_root) == w3.children_spec(editor_root));
            }
        }
        steps.push(GridRuntimeStep::InitTree { root: owner });
        if spec.preview_mode || spec.enabled {
            steps.push(GridRuntimeStep::EnsureLive { owner, preview: spec.preview_mode });
        }
        proof {
            assert(final(steps)@ =~= old(steps)@ + spawn_steps(owner, spec));
        }
        self.mark_dirty();
        owner
    }

    /// The owner transform of `editor_root`'s first grid; when it has none,
    /// spawns the default hidden editor grid under it and returns the new owner.
    pub fn ensure_default_grid(&mut self, world: &mut World, steps: &mut Vec<GridRuntimeStep>, editor_root: ComponentId) -> (owner: ComponentId)
        requires
            old(world).links_ok(),
            old(world).slots() + 2 < u64::MAX,
        ensures
            final(world).links_ok(),
            editor_entries(old(world), editor_root).len() > 0 ==> {
                &&& owner == editor_entries(old(world), editor_root)[0].owner_transform
                &&& *final(world) == *old(world)
                &&& final(steps)@ == old(steps)@
                &&& *final(self) == *old(self)
            },
            editor_entries(old(world), editor_root).len() == 0 ==> {
                let grid = World::id_at(old(world).slots() + 1int);
                &&& owner == World::id_at(old(world).slots() as int)
                &&& final(world).slots() == old(world).slots() + 2
                &&& final(world).live(owner) && final(world).live(grid)
                &&& is_identity_transform(final(world).component_spec(owner).unwrap())
                &&& final(world).component_spec(grid) == Some(Component::Grid(default_editor_grid()))
                &&& final(world).name_spec(owner) == "grid_1"@
                &&& final(world).name_spec(grid) == "grid_1_component"@
                &&& final(world).parent_spec(grid) == Some(owner)
                &&& final(world).children_spec(owner) == seq![grid]
                &&& final(world).children_spec(grid).len() == 0
                &&& final(world).parent_spec(owner) == if old(world).live(editor_root) { Some(editor_root) } else { None::<ComponentId> }
                &&& old(world).live(editor_root) ==> final(world).children_spec(editor_root) == old(world).children_spec(editor_root).push(owner)
                &&& forall|x: ComponentId| x.index < old(world).slots() && x != editor_root ==> #[trigger] final(world).rec(x) == old(world).rec(x)
                &&& final(steps)@ == old(steps)@ + seq![GridRuntimeStep::InitTree { root: owner }, GridRuntimeStep::EnsureLive { owner, preview: false }]
                &&& final(self).dirty
                &&& final(self).handlers_installed == old(self).handlers_installed
            },
    {
        let existing = self.enumerate_grids_for_editor(world, editor_root);
        if existing.len() > 0 {
            return existing[0].owner_transform;
        }
        let spec = GridSpawnSpec::default_hidden_editor_grid();
        let owner = self.spawn_grid_for_editor(world, steps, editor_root, spec, None);
        proof {
            reveal_strlit("grid_");
            reveal_strlit("grid_1");
            reveal_strlit("_component");
            reveal_strlit("grid_1_component");
            assert(crate::text::decimal(1) =~= seq!['1']);
            assert("grid_"@ + crate::text::decimal(1) =~= "grid_1"@);
            assert("grid_"@ + crate::text::decimal(1) + "_component"@ =~= "grid_1_component"@);
            assert(spawned_grid(spec) == default_editor_grid());
            assert(spawn_steps(owner, spec) =~= seq![GridRuntimeStep::InitTree { root: owner }, GridRuntimeStep::EnsureLive { owner, preview: false }]);
        }
        owner
    }

    /// The root of the live visual under `owner_transform`.
    pub fn live_runtime_root(&self, world: &World, owner_transform: ComponentId) -> (r: Option<ComponentId>)
        ensures
            r == live_part(world, owner_transform, "grid_live_root"@),
    {
        proof {
            reveal_strlit("#grid_live_root");
            reveal_strlit("grid_live_root");
            assert("#grid_live_root"@.drop_first() =~= "grid_live_root"@);
        }
        live_part_exec(world, owner_transform, "#grid_live_root")
    }

    /// Builds the live visual of the grid owned by `owner_transform`: a root
    /// transform holding a switched-off selectable and serialiser and a
    /// `scale_x_bits` by `scale_z_bits` plane drawn with the grid material,
    /// whose colour, opacity, material scalar and paint raycast target hang
    /// under it. When the visual already exists it is brought up to date
    /// instead; without a grid nothing happens.
    pub fn ensure_live_runtime(&self, world: &mut World, steps: &mut Vec<GridRuntimeStep>, owner_transform: ComponentId, preview_mode: bool, scale_x_bits: u32, scale_z_bits: u32)
        requires
            old(world).links_ok(),
            old(world).slots() + LIVE_NODES < u64::MAX,
        ensures
            final(world).links_ok(),
            live_part(old(world), owner_transform, "grid_live_root"@) is Some ==> match owned_grid_spec(old(world), owner_transform) {
                None => *final(world) == *old(world) && final(steps)@ == old(steps)@,
                Some((_, g)) => {
                    &&& forall|x: ComponentId| #[trigger] final(world).component_spec(x)
                        == synced_component(old(world), owner_transform, g, preview_mode, x)
                    &&& forall|x: ComponentId| #[trigger] final(world).same_place(old(world), x)
                    &&& final(steps)@ == old(steps)@ + synced_steps(old(world), owner_transform)
                },
            },
            live_part(old(world), owner_transform, "grid_live_root"@) is None && owned_grid_spec(old(world), owner_transform) is None
                ==> *final(world) == *old(world) && final(steps)@ == old(steps)@,
            live_part(old(world), owner_transform, "grid_live_root"@) is None && owned_grid_spec(old(world), owner_transform) is Some ==> {
                let g = owned_grid_spec(old(world), owner_transform).unwrap().1;
                let base = old(world).slots();
                &&& final(world).slots() == base + LIVE_NODES
                &&& forall|k: int| 0 <= k < LIVE_NODES ==> {
                    let id = #[trigger] live_node_id(base, k);
                    &&& final(world).live(id)
                    &&& final(world).name_spec(id) == live_node_name(k)
                    &&& live_node_component_ok(k, final(world).component_spec(id).unwrap(), g, preview_mode, scale_x_bits, scale_z_bits)
                    &&& final(world).parent_spec(id) == Some(live_parent_id(owner_transform, base, k))
                    &&& final(world).children_spec(id) == live_kids_upto(live_node_ids(base), k, LIVE_NODES as int)
                }
                &&& final(world).children_spec(owner_transform) == old(world).children_spec(owner_transform).push(live_node_id(base, 0))
                &&& forall|x: ComponentId| x.index < base && x != owner_transform ==> #[trigger] final(world).rec(x) == old(world).rec(x)
                &&& final(steps)@ == old(steps)@ + seq![
                    GridRuntimeStep::InitTree { root: live_node_id(base, 0) },
                    GridRuntimeStep::RegisterTransform { component: live_node_id(base, 0) },
                    GridRuntimeStep::RegisterTransform { component: live_node_id(base, 3) },
                    GridRuntimeStep::RegisterRenderable { component: live_node_id(base, 4) },
                ]
            },
    {
        if self.live_runtime_root(world, owner_transform).is_some() {
            self.sync_live_runtime_visibility(world, steps, owner_transform, preview_mode);
            return;
        }
        let g = match self.owned_grid(world, owner_transform) {
            Some((_, g)) => g,
            None => {
                return;
            },
        };
        let ghost w0 = *world;
        let ghost s0 = steps@;
        let base = world.slot_count();
        proof {
            assert(w0.children_spec(owner_transform).len() > 0);
            assert(w0.live(owner_transform));
            w0.lemma_live_in_range(owner_transform);
            assert forall|y: ComponentId| #[trigger] w0.parent_spec(y) is Some
                implies w0.parent_spec(y).unwrap().index < (if y.index < base { base as int } else { y.index as int }) by {
                w0.lemma_live_in_range(y);
            }
        }
        let mut ids: Vec<ComponentId> = Vec::new();
        let mut k: usize = 0;
        while k < LIVE_NODES
            invariant
                k <= LIVE_NODES,
                base == w0.slots(),
                base + LIVE_NODES < u64::MAX,
                world.slots() == base + k,
                world.links_ok(),
                parents_below(world, base as nat),
                ids@.len() == k,
                forall|j: int| 0 <= j < k ==> #[trigger] ids@[j] == live_node_id(base as nat, j),
                forall|j: int| 0 <= j < k ==> {
                    let id = #[trigger] live_node_id(base as nat, j);
                    &&& world.live(id)
                    &&& world.name_spec(id) == live_node_name(j)
                    &&& live_node_component_ok(j, world.component_spec(id).unwrap(), g, preview_mode, scale_x_bits, scale_z_bits)
                    &&& world.parent_spec(id) is None
                    &&& world.children_spec(id).len() == 0
                },
                forall|x: ComponentId| x.index < base ==> #[trigger] world.rec(x) == w0.rec(x),
            decreases LIVE_NODES - k,
        {
            let (name, c) = live_node(k, g, preview_mode, scale_x_bits, scale_z_bits);
            let ghost prev = *world;
            let id = world.add_component_named(name, c);
            ids.push(id);
            proof {
                assert(id == live_node_id(base as nat, k as int));
                assert forall|y: ComponentId| #[trigger] world.parent_spec(y) is Some
                    implies world.parent_spec(y).unwrap().index < (if y.index < base { base as int } else { y.index as int }) by {
                    if y != id {
                        assert(world.rec(y) == prev.rec(y));
                        assert(prev.parent_spec(y) == world.parent_spec(y));
                    }
                }
                assert forall|j: int| 0 <= j < k + 1 implies {
                    let nid = #[trigger] live_node_id(base as nat, j);
                    &&& world.live(nid)
                    &&& world.name_spec(nid) == live_node_name(j)
                    &&& live_node_component_ok(j, world.component_spec(nid).unwrap(), g, preview_mode, scale_x_bits, scale_z_bits)
                    &&& world.parent_spec(nid) is None
                    &&& world.children_spec(nid).len() == 0
                } by {
                    if j < k {
                        assert(live_node_id(base as nat, j) != id);
                        assert(world.rec(live_node_id(base as nat, j)) == prev.rec(live_node_id(base as nat, j)));
                    }
                }
                assert forall|x: ComponentId| x.index < base implies #[trigger] world.rec(x) == w0.rec(x) by {
                    assert(x != id);
                    assert(world.rec(x) == prev.rec(x));
                }
            }
            k += 1;
        }
        let ghost w1 = *world;
        let mut q: usize = 0;
        while q < LIVE_NODES
            invariant
                q <= LIVE_NODES,
                base == w0.slots(),
                base + LIVE_NODES < u64::MAX,
                w1.slots() == base + LIVE_NODES,
                world.slots() == w1.slots(),
                world.links_ok(),
                parents_below(world, base as nat),
                ids@.len() == LIVE_NODES,
                w0.live(owner_transform),
                owner_transform.index < base,
                forall|j: int| 0 <= j < LIVE_NODES ==> #[trigger] ids@[j] == live_node_id(base as nat, j),
                forall|j: int| 0 <= j < LIVE_NODES ==> {
                    let id = #[trigger] live_node_id(base as nat, j);
                    &&& world.live(id)
                    &&& world.name_spec(id) == w1.name_spec(id)
                    &&& world.component_spec(id) == w1.component_spec(id)
                    &&& world.parent_spec(id) == if j < q { Some(live_parent_id(owner_transform, base as nat, j)) } else { None }
                    &&& world.children_spec(id) == live_kids_upto(ids@, j, q as int)
                },
                world.children_spec(owner_transform) == if q > 0 {
                    w0.children_spec(owner_transform).push(live_node_id(base as nat, 0))
                } else {
                    w0.children_spec(owner_transform)
                },
                world.live(owner_transform),
                forall|x: ComponentId| x.index < base && x != owner_transform ==> #[trigger] world.rec(x) == w0.rec(x),
            decreases LIVE_NODES - q,
        {
            let parent = if q == 0 {
                owner_transform
            } else if q <= 3 {
                ids[0]
            } else if q == 4 {
                ids[3]
            } else {
                ids[4]
            };
            let child = ids[q];
            let ghost prev = *world;
            proof {
                assert(parent == live_parent_id(owner_transform, base as nat, q as int));
                assert(child == live_node_id(base as nat, q as int));
                assert(prev.live(child));
                assert(prev.parent_spec(child) is None);
                if q > 0 {
                    let pj = live_node_parent(q as int).unwrap();
                    assert(prev.live(live_node_id(base as nat, pj)));
                }
            }
            attach(world, parent, child, Ghost(base as nat));
            proof {
                assert forall|j: int| 0 <= j < LIVE_NODES implies {
                    let id = #[trigger] live_node_id(base as nat, j);
                    &&& world.live(id)
                    &&& world.name_spec(id) == w1.name_spec(id)
                    &&& world.component_spec(id) == w1.component_spec(id)
                    &&& world.parent_spec(id) == if j < q + 1 { Some(live_parent_id(owner_transform, base as nat, j)) } else { None }
                    &&& world.children_spec(id) == live_kids_upto(ids@, j, q + 1)
                } by {
                    let id = live_node_id(base as nat, j);
                    assert(id.index == base + j);
                    assert(prev.live(id));
                    assert(world.live(id));
                    assert(world.name_spec(id) == prev.name_spec(id));
                    assert(ids@[q as int] == child);
                    if id == child {
                        assert(j == q);
                        assert(live_node_parent(q as int) != Some(q as int));
                    } else if id == parent {
                        assert(q > 0);
                        assert(j == live_node_parent(q as int).unwrap());
                    } else {
                        assert(world.rec(id) == prev.rec(id));
                        if q > 0 {
                            assert(live_node_parent(q as int) != Some(j));
                        }
                    }
                }
                if q > 0 {
                    assert(owner_transform != parent);
                    assert(owner_transform != child);
                    assert(world.rec(owner_transform) == prev.rec(owner_transform));
                }
                assert forall|x: ComponentId| x.index < base && x != owner_transform implies #[trigger] world.rec(x) == w0.rec(x) by {
                    assert(x != parent && x != child);
                    assert(world.rec(x) == prev.rec(x));
                }
            }
            q += 1;
        }
        let root = ids[0];
        let shape = ids[3];
        let renderable = ids[4];
        steps.push(GridRuntimeStep::InitTree { root });
        steps.push(GridRuntimeStep::RegisterTransform { component: root });
        steps.push(GridRuntimeStep::RegisterTransform { component: shape });
        steps.push(GridRuntimeStep::RegisterRenderable { component: renderable });
        proof {
            assert(ids@ =~= live_node_ids(base as nat));
            assert(steps@ =~= s0 + seq![
                GridRuntimeStep::InitTree { root: live_node_id(base as nat, 0) },
                GridRuntimeStep::RegisterTransform { component: live_node_id(base as nat, 0) },
                GridRuntimeStep::RegisterTransform { component: live_node_id(base as nat, 3) },
                GridRuntimeStep::RegisterRenderable { component: live_node_id(base as nat, 4) },
            ]);
        }
    }

    /// Points every grid's paint raycast target at the current mode: active
    /// only in paint mode for an enabled, visible grid, always drag-only,
    /// registered or unregistered when that changes it.
    pub fn sync_paint_raycast_targets(&self, world: &mut World, steps: &mut Vec<GridRuntimeStep>, paint_mode: bool)
        ensures
            old(world).links_ok() ==> final(world).links_ok(),
            final(world).slots() == old(world).slots(),
            forall|x: ComponentId| #[trigger] final(world).same_place(old(world), x),
            ({
                let p = paint_pairs_upto(old(world), old(world).slots() as int, paint_mode);
                &&& forall|x: ComponentId| #[trigger] final(world).component_spec(x) == match raycast_state(old(world), p, x) {
                    Some(r) => Some(Component::Raycastable(r)),
                    None => old(world).component_spec(x),
                }
                &&& final(steps)@ == old(steps)@ + paint_steps(old(world), p)
            }),
    {
        proof {
            reveal_strlit("#grid_live_raycastable");
            reveal_strlit("grid_live_raycastable");
            assert("#grid_live_raycastable"@.drop_first() =~= "grid_live_raycastable"@);
        }
        let ghost w0 = *world;
        let ghost s0 = steps@;
        let n = world.slot_count();
        let mut pairs: Vec<(ComponentId, bool)> = Vec::new();
        let mut k: usize = 0;
        while k < n
            invariant
                k <= n,
                n == w0.slots(),
                *world == w0,
                pairs@ == paint_pairs_upto(&w0, k as int, paint_mode),
            decreases n - k,
        {
            let id = ComponentId { index: k as u64 };
            proof {
                assert(id == World::id_at(k as int));
                reveal_strlit("#grid_live_raycastable");
                reveal_strlit("grid_live_raycastable");
                assert("#grid_live_raycastable"@.drop_first() =~= "grid_live_raycastable"@);
            }
            match self.grid_entry(world, id) {
                Some(e) => {
                    match live_part_exec(world, e.owner_transform, "#grid_live_raycastable") {
                        Some(rc) => {
                            pairs.push((rc, paint_mode && e.enabled && !e.hidden));
                        },
                        None => {},
                    }
                },
                None => {},
            }
            k += 1;
        }
        let ghost p = pairs@;
        let mut i: usize = 0;
        proof {
            assert(p.take(0) =~= Seq::<(ComponentId, bool)>::empty());
        }
        while i < pairs.len()
            invariant
                i <= p.len(),
                pairs@ == p,
                p == paint_pairs_upto(&w0, w0.slots() as int, paint_mode),
                w0.links_ok() ==> world.links_ok(),
                world.slots() == w0.slots(),
                forall|x: ComponentId| #[trigger] world.same_place(&w0, x),
                forall|x: ComponentId| #[trigger] world.component_spec(x) == match raycast_state(&w0, p.take(i as int), x) {
                    Some(r) => Some(Component::Raycastable(r)),
                    None => w0.component_spec(x),
                },
                steps@ == s0 + paint_steps(&w0, p.take(i as int)),
            decreases p.len() - i,
        {
            let (x, e) = pairs[i];
            let ghost prev = *world;
            proof {
                assert(p.take(i + 1).drop_last() =~= p.take(i as int));
                assert(p.take(i + 1).last() == (x, e));
            }
            let current = match world.component(x) {
                Some(Component::Raycastable(r)) => Some(*r),
                _ => None,
            };
            match current {
                Some(r) => {
                    let changed = r.enable != e || !matches!(r.pointer_events, PointerEvents::DragOnly);
                    let _ = world.set_component(x, Component::Raycastable(RaycastableComponent { enable: e, pointer_events: PointerEvents::DragOnly }));
                    if changed {
                        if e {
                            steps.push(GridRuntimeStep::RegisterRaycastable { component: x });
                        } else {
                            steps.push(GridRuntimeStep::RemoveRaycastable { component: x });
                        }
                    }
                },
                None => {},
            }
            proof {
                assert forall|y: ComponentId| #[trigger] world.same_place(&w0, y) by {
                    assert(prev.same_place(&w0, y));
                    if y != x {
                        assert(world.rec(y) == prev.rec(y));
                    }
                }
                assert forall|y: ComponentId| #[trigger] world.component_spec(y) == match raycast_state(&w0, p.take(i + 1), y) {
                    Some(r) => Some(Component::Raycastable(r)),
                    None => w0.component_spec(y),
                } by {
                    assert(prev.component_spec(y) == match raycast_state(&w0, p.take(i as int), y) {
                        Some(r) => Some(Component::Raycastable(r)),
                        None => w0.component_spec(y),
                    });
                    if y != x {
                        assert(world.rec(y) == prev.rec(y));
                    }
                }
            }
            i += 1;
        }
        proof {
            assert(p.take(p.len() as int) =~= p);
        }
    }

    /// Removes the live visual under `owner_transform`, if there is one.
    pub fn remove_live_runtime(&self, world: &mut World, owner_transform: ComponentId)
        ensures
            old(world).links_ok() ==> final(world).links_ok(),
            final(world).slots() == old(world).slots(),
            match live_part(old(world), owner_transform, "grid_live_root"@) {
                Some(root) => forall|x: ComponentId| old(world).descendants_or_self(root).contains(x)
                    ==> !#[trigger] final(world).live(x),
                None => *final(world) == *old(world),
            },
    {
        match self.live_runtime_root(world, owner_transform) {
            Some(root) => {
                let _ = world.remove_component_subtree(root);
            },
            None => {},
        }
    }

    /// Brings the live visual of the grid owned by `owner_transform` up to
    /// date: its opacity, its material scalar, and a switched-off selectable.
    pub fn sync_live_runtime_visibility(&self, world: &mut World, steps: &mut Vec<GridRuntimeStep>, owner_transform: ComponentId, preview_mode: bool)
        ensures
            old(world).links_ok() ==> final(world).links_ok(),
            final(world).slots() == old(world).slots(),
            forall|x: ComponentId| #[trigger] final(world).same_place(old(world), x),
            match owned_grid_spec(old(world), owner_transform) {
                None => *final(world) == *old(world) && final(steps)@ == old(steps)@,
                Some((_, g)) => {
                    &&& forall|x: ComponentId| #[trigger] final(world).component_spec(x)
                        == synced_component(old(world), owner_transform, g, preview_mode, x)
                    &&& final(steps)@ == old(steps)@ + synced_steps(old(world), owner_transform)
                },
            },
    {
        let g = match self.owned_grid(world, owner_transform) {
            Some((_, g)) => g,
            None => {
                return;
            },
        };
        proof {
            reveal_strlit("#grid_live_opacity");
            reveal_strlit("grid_live_opacity");
            reveal_strlit("#grid_live_visual_params");
            reveal_strlit("grid_live_visual_params");
            reveal_strlit("#grid_live_selectable");
            reveal_strlit("grid_live_selectable");
            assert("#grid_live_opacity"@.drop_first() =~= "grid_live_opacity"@);
            assert("#grid_live_visual_params"@.drop_first() =~= "grid_live_visual_params"@);
            assert("#grid_live_selectable"@.drop_first() =~= "grid_live_selectable"@);
        }
        let ghost w0 = *world;
        let ghost s0 = steps@;
        let opacity = live_part_exec(world, owner_transform, "#grid_live_opacity");
        let params = live_part_exec(world, owner_transform, "#grid_live_visual_params");
        let selectable = live_part_exec(world, owner_transform, "#grid_live_selectable");
        let ghost mut first: Seq<GridRuntimeStep> = Seq::empty();
        match opacity {
            Some(id) => {
                if matches!(world.component(id), Some(Component::Opacity(_))) {
                    let _ = world.set_component(id, Component::Opacity(OpacityComponent { opacity_bits: grid_opacity(g.hidden, preview_mode) }));
                    steps.push(GridRuntimeStep::RegisterOpacity { component: id });
                }
            },
            None => {},
        }
        let ghost w1 = *world;
        match params {
            Some(id) => {
                if matches!(world.component(id), Some(Component::LightQuantization(_))) {
                    let _ = world.set_component(id, Component::LightQuantization(LightQuantizationComponent { quant_steps_bits: grid_visual_parameter(g) }));
                    steps.push(GridRuntimeStep::RegisterLightQuantization { component: id });
                }
            },
            None => {},
        }
        let ghost w2 = *world;
        match selectable {
            Some(id) => {
                if matches!(world.component(id), Some(Component::Selectable(_))) {
                    let _ = world.set_component(id, Component::Selectable(SelectableComponent { enabled: false }));
                }
            },
            None => {},
        }
        proof {
            let ws = *world;
            assert(steps@ =~= s0 + synced_steps(&w0, owner_transform)) by {
                if let Some(pid) = params {
                    if let Some(oid) = opacity {
                        if pid == oid {
                            assert(w1.component_spec(pid) == w0.component_spec(pid) || (w0.component_spec(oid) matches Some(Component::Opacity(_))));
                        } else {
                            assert(w1.rec(pid) == w0.rec(pid));
                        }
                    }
                }
            }
            assert forall|x: ComponentId| #[trigger] ws.same_place(&w0, x) by {
                assert(w1.same_place(&w0, x) || true);
            }
            assert forall|x: ComponentId| #[trigger] ws.component_spec(x)
                == synced_component(&w0, owner_transform, g, preview_mode, x) by {
            }
        }
    }

    /// The nearest strict ancestor of `grid_component` that is a transform.
    pub fn grid_owner_transform(world: &World, grid_component: ComponentId) -> (r: Option<ComponentId>)
        ensures
            r == owner_transform_spec(world, grid_component),
    {
        first_ancestor(world, world.parent_of(grid_component), AncestorKind::Transform)
    }

    /// The registry entry of `grid_component`, with its flags as they are now.
    pub fn grid_entry(&self, world: &World, grid_component: ComponentId) -> (r: Option<GridEntry>)
        ensures
            r == entry_spec(world, grid_component),
    {
        let grid = match world.component(grid_component) {
            Some(Component::Grid(g)) => *g,
            _ => {
                return None;
            },
        };
        let owner = match Self::grid_owner_transform(world, grid_component) {
            Some(o) => o,
            None => {
                return None;
            },
        };
        let editor = match first_ancestor(world, Some(owner), AncestorKind::Editor) {
            Some(e) => e,
            None => {
                return None;
            },
        };
        Some(GridEntry {
            grid_component,
            owner_transform: owner,
            editor_root: editor,
            enabled: grid.enabled,
            hidden: grid.hidden,
            selectable: grid.selectable,
        })
    }

    /// Every grid that belongs to `editor_root`, in slot order.
    pub fn enumerate_grids_for_editor(&self, world: &World, editor_root: ComponentId) -> (r: Vec<GridEntry>)
        ensures
            r@ == editor_entries(world, editor_root),
    {
        let n = world.slot_count();
        let mut out: Vec<GridEntry> = Vec::new();
        let mut i: usize = 0;
        while i < n
            invariant
                i <= n,
                n == world.slots(),
                out@ == editor_entries_upto(world, i as int, editor_root),
            decreases n - i,
        {
            let id = ComponentId { index: i as u64 };
            proof {
                assert(id == World::id_at(i as int));
            }
            match self.grid_entry(world, id) {
                Some(e) => {
                    if e.editor_root.index == editor_root.index {
                        out.push(e);
                    }
                },
                None => {},
            }
            i += 1;
        }
        out
    }

    /// The entry of the first child of `transform` that is a registered grid.
    pub fn grid_owned_by_transform(&self, world: &World, transform: ComponentId) -> (r: Option<GridEntry>)
        ensures
            r == owned_entry_spec(world, transform),
    {
        let children = world.children_of(transform);
        let ghost pred = has_entry(world);
        let mut i: usize = 0;
        while i < children.len()
            invariant
                i <= children@.len(),
                children@ == world.children_spec(transform),
                pred == has_entry(world),
                first_where(children@.take(i as int), pred) is None,
            decreases children@.len() - i,
        {
            proof {
                lemma_first_where_step(children@, i as int, pred);
            }
            match self.grid_entry(world, children[i]) {
                Some(e) => {
                    proof {
                        lemma_first_where_prefix(children@, i + 1, pred);
                    }
                    return Some(e);
                },
                None => {},
            }
            i += 1;
        }
        proof {
            assert(children@.take(children@.len() as int) =~= children@);
        }
        None
    }

    /// The selected grid of `editor_root` when it is enabled: the grid an
    /// editor gesture works on.
    pub fn active_entry_for_editor(&self, world: &World, editor_root: ComponentId) -> (r: Option<GridEntry>)
        ensures
            r == enabled_only(selected_entry_spec(world, editor_root)),
    {
        match self.selected_grid_for_editor(world, editor_root) {
            Some(e) => if e.enabled {
                Some(e)
            } else {
                None
            },
            None => None,
        }
    }

    /// The grid owned by `owner_transform` when it is enabled.
    pub fn active_entry_for_owner_transform(&self, world: &World, owner_transform: ComponentId) -> (r: Option<GridEntry>)
        ensures
            r == enabled_only(owned_entry_spec(world, owner_transform)),
    {
        match self.grid_owned_by_transform(world, owner_transform) {
            Some(e) => if e.enabled {
                Some(e)
            } else {
                None
            },
            None => None,
        }
    }

    /// For a transform with a grid binding, the enabled grid it is bound
    /// to, or `Some(None)` when the binding does not lead to one: a binding
    /// is authoritative. `None` when the transform has no binding.
    pub fn active_entry_for_binding(&self, world: &World, target_transform: ComponentId) -> (r: Option<Option<GridEntry>>)
        ensures
            r == match direct_binding_spec(world, target_transform) {
                None => None,
                Some(_) => Some(
                    match bound_transform_spec(world, target_transform) {
                        Some(owner) => enabled_only(owned_entry_spec(world, owner)),
                        None => None,
                    },
                ),
            },
    {
        if Self::direct_binding_component(world, target_transform).is_none() {
            return None;
        }
        match Self::bound_grid_transform(world, target_transform) {
            Some(owner) => Some(self.active_entry_for_owner_transform(world, owner)),
            None => Some(None),
        }
    }

    /// The grid that renderable `renderable` belongs to, when it is enabled
    /// and visible: the grid a pointer hit on it lands on.
    pub fn hit_context_entry_for_renderable(&self, world: &World, renderable: ComponentId) -> (r: Option<GridEntry>)
        ensures
            r == match grid_for_renderable_spec(world, renderable) {
                Some(g) => match entry_spec(world, g) {
                    Some(e) => if e.enabled && !e.hidden {
                        Some(e)
                    } else {
                        None
                    },
                    None => None,
                },
                None => None,
            },
    {
        let g = match self.grid_component_for_renderable(world, renderable) {
            Some(g) => g,
            None => {
                return None;
            },
        };
        match self.grid_entry(world, g) {
            Some(e) => if e.enabled && !e.hidden {
                Some(e)
            } else {
                None
            },
            None => None,
        }
    }

    /// The grid selected in `editor_root`: the selected grid component, or
    /// the grid owned by the selected transform, when it belongs to this editor.
    pub fn selected_grid_for_editor(&self, world: &World, editor_root: ComponentId) -> (r: Option<GridEntry>)
        ensures
            r == selected_entry_spec(world, editor_root),
    {
        let selected = match world.component(editor_root) {
            Some(Component::Editor(e)) => e.selected,
            _ => {
                return None;
            },
        };
        let sel = match selected {
            Some(s) => s,
            None => {
                return None;
            },
        };
        match self.grid_entry(world, sel) {
            Some(e) => {
                if e.editor_root.index == editor_root.index {
                    return Some(e);
                }
            },
            None => {},
        }
        match self.grid_owned_by_transform(world, sel) {
            Some(e) => {
                if e.editor_root.index == editor_root.index {
                    Some(e)
                } else {
                    None
                }
            },
            None => None,
        }
    }

    /// The first child of `target_transform` that is a grid binding.
    pub fn direct_binding_component(world: &World, target_transform: ComponentId) -> (r: Option<ComponentId>)
        ensures
            r == direct_binding_spec(world, target_transform),
    {
        let children = world.children_of(target_transform);
        let ghost pred = is_binding(world);
        let mut i: usize = 0;
        while i < children.len()
            invariant
                i <= children@.len(),
                children@ == world.children_spec(target_transform),
                pred == is_binding(world),
                first_where(children@.take(i as int), pred) is None,
            decreases children@.len() - i,
        {
            proof {
                lemma_first_where_step(children@, i as int, pred);
            }
            let c = children[i];
            match world.component(c) {
                Some(Component::GridBinding(_)) => {
                    proof {
                        lemma_first_where_prefix(children@, i + 1, pred);
                    }
                    return Some(c);
                },
                _ => {},
            }
            i += 1;
        }
        proof {
            assert(children@.take(children@.len() as int) =~= children@);
        }
        None
    }

    /// What the binding component `binding` resolves to, relative to itself.
    pub fn binding_target(world: &World, binding: ComponentId) -> (r: Option<ComponentId>)
        ensures
            r == binding_target_spec(world, binding),
    {
        match world.component(binding) {
            Some(Component::GridBinding(b)) => resolve_component_ref(world, binding, &b.grid),
            _ => None,
        }
    }

    /// The grid owner transform that `target_transform`'s binding resolves to.
    pub fn bound_grid_transform(world: &World, target_transform: ComponentId) -> (r: Option<ComponentId>)
        ensures
            r == bound_transform_spec(world, target_transform),
    {
        match Self::direct_binding_component(world, target_transform) {
            Some(b) => Self::binding_target(world, b),
            None => None,
        }
    }
}

} // verus!
