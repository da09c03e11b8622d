//! Draggable markers: which transform a pointer hit drags, how an explicit
//! drag target is resolved and cached, and the raycast target a draggable
//! owner gets when it has none.
use vstd::prelude::*;
use crate::components::{Component, ComponentRef, DraggableComponent, DraggablePlane, DraggableTarget, RaycastableComponent, SerializeComponent};
use crate::grid_system::{first_ancestor, owner_transform_spec, AncestorKind};
use crate::ids::ComponentId;
use crate::query::{resolve_component_ref, resolve_ref_spec};
use crate::world::{first_where, lemma_first_where_prefix, lemma_first_where_step, World};

verus! {

/// Which pointer control started a gesture.
#[derive(Debug, Clone, Copy, PartialEq, Eq, Structural)]
pub enum PointerActivationSource {
    Trigger,
    Grip,
}

/// The draggable marker a hit resolved to: the marker component, the
/// transform that owns it, and its drag plane.
#[derive(Debug, Clone, Copy, PartialEq, Eq)]
pub struct DraggableMarker {
    pub marker: ComponentId,
    pub owner: ComponentId,
    pub plane: DraggablePlane,
}

/// The transform a drag gesture moves, and the plane it moves in.
#[derive(Debug, Clone, Copy, PartialEq, Eq)]
pub struct ResolvedDraggable {
    pub target: ComponentId,
    pub plane: DraggablePlane,
}

/// The target a gesture captured when it started; `None` when the hit had
/// nothing to drag.
#[derive(Debug, Clone, Copy, PartialEq, Eq)]
pub struct ActiveGesture {
    pub key: (u8, ComponentId, ComponentId),
    pub resolved: Option<ResolvedDraggable>,
}

/// Draggable registration and gesture bookkeeping.
#[derive(Debug)]
pub struct DraggableSystem {
    pub handlers_installed: bool,
    /// The gestures in progress, each under its gesture key.
    pub active: Vec<ActiveGesture>,
}

/// What gesture `key` captured at its start, the latest entry winning.
pub open spec fn captured_lookup(s: Seq<ActiveGesture>, key: (u8, ComponentId, ComponentId)) -> Option<Option<ResolvedDraggable>>
    decreases s.len(),
{
    if s.len() == 0 {
        None
    } else if s.last().key == key {
        Some(s.last().resolved)
    } else {
        captured_lookup(s.drop_last(), key)
    }
}

/// `s` without the gestures under `key`, in order.
pub open spec fn without_gesture(s: Seq<ActiveGesture>, key: (u8, ComponentId, ComponentId)) -> Seq<ActiveGesture>
    decreases s.len(),
{
    if s.len() == 0 {
        s
    } else {
        let rest = without_gesture(s.drop_last(), key);
        if s.last().key == key {
            rest
        } else {
            rest.push(s.last())
        }
    }
}

proof fn lemma_without_gesture_lookup(s: Seq<ActiveGesture>, key: (u8, ComponentId, ComponentId), other: (u8, ComponentId, ComponentId))
    ensures
        captured_lookup(without_gesture(s, key), key) is None,
        other != key ==> captured_lookup(without_gesture(s, key), other) == captured_lookup(s, other),
    decreases s.len(),
{
    if s.len() > 0 {
        lemma_without_gesture_lookup(s.drop_last(), key, other);
        let rest = without_gesture(s.drop_last(), key);
        if s.last().key != key {
            assert(rest.push(s.last()).drop_last() =~= rest);
        }
    }
}

/// What a hit on `renderable` drags: the marker's motion target in the
/// marker's plane.
pub open spec fn hit_spec(w: &World, renderable: ComponentId) -> Option<ResolvedDraggable> {
    match marker_spec(w, Some(renderable), w.slots()) {
        Some(m) => match motion_target_spec(w, m.marker, m.owner) {
            Some(t) => Some(ResolvedDraggable { target: t, plane: m.plane }),
            None => None,
        },
        None => None,
    }
}

/// How resolving a hit on `renderable` leaves the world `w1` as `w2`: only
/// the marker's cached target changes.
pub open spec fn hit_effect(w1: &World, w2: &World, renderable: ComponentId) -> bool {
    match marker_spec(w1, Some(renderable), w1.slots()) {
        Some(m) => match marker_after_spec(w1, m.marker, m.owner) {
            Some(d) => crate::grid_system::component_replaced(w1, w2, m.marker, Component::Draggable(d)),
            None => *w2 == *w1,
        },
        None => *w2 == *w1,
    }
}

pub open spec fn is_transform_spec(w: &World, id: ComponentId) -> bool {
    w.component_spec(id) matches Some(Component::Transform(_))
}

pub open spec fn selectable_on(w: &World) -> spec_fn(ComponentId) -> bool {
    |c: ComponentId| w.component_spec(c) matches Some(Component::Selectable(s)) && s.enabled
}

pub open spec fn is_draggable(w: &World) -> spec_fn(ComponentId) -> bool {
    |c: ComponentId| w.component_spec(c) matches Some(Component::Draggable(_))
}

pub open spec fn is_raycastable(w: &World) -> spec_fn(ComponentId) -> bool {
    |c: ComponentId| w.component_spec(c) matches Some(Component::Raycastable(_))
}

/// The marker that a hit on `start` drags: walking up from `start`, the
/// first transform with an enabled selectable child stops the walk, and the
/// first transform with a draggable child answers with it when enabled.
pub open spec fn marker_spec(w: &World, start: Option<ComponentId>, fuel: nat) -> Option<DraggableMarker>
    decreases fuel,
{
    match start {
        None => None,
        Some(id) => if fuel == 0 || !w.live(id) {
            None
        } else if is_transform_spec(w, id) {
            if first_where(w.children_spec(id), selectable_on(w)) is Some {
                None
            } else {
                match first_where(w.children_spec(id), is_draggable(w)) {
                    Some(m) => match w.component_spec(m) {
                        Some(Component::Draggable(d)) => if d.enabled {
                            Some(DraggableMarker { marker: m, owner: id, plane: d.plane })
                        } else {
                            None
                        },
                        _ => None,
                    },
                    None => marker_spec(w, w.parent_spec(id), (fuel - 1) as nat),
                }
            }
        } else {
            marker_spec(w, w.parent_spec(id), (fuel - 1) as nat)
        },
    }
}

/// The transform that a reference resolves to from `owner`, if it is one.
pub open spec fn resolved_transform(w: &World, owner: ComponentId, r: ComponentRef) -> Option<ComponentId> {
    match resolve_ref_spec(w, owner, r@) {
        Some(t) => if is_transform_spec(w, t) {
            Some(t)
        } else {
            None
        },
        None => None,
    }
}

/// The cached explicit target is still a live transform.
pub open spec fn cache_valid(w: &World, d: DraggableComponent) -> bool {
    d.target_id matches Some(t) && is_transform_spec(w, t)
}

/// What `draggable_owner_for_hit` answers.
pub open spec fn owner_for_hit_spec(w: &World, renderable: ComponentId) -> Option<ComponentId> {
    match marker_spec(w, Some(renderable), w.slots()) {
        Some(m) => match w.component_spec(m.marker) {
            Some(Component::Draggable(d)) => match d.target {
                DraggableTarget::Owner => Some(m.owner),
                DraggableTarget::ParentTransform => owner_transform_spec(w, m.owner),
                DraggableTarget::Explicit(r) => if cache_valid(w, d) {
                    d.target_id
                } else {
                    resolve_ref_spec(w, m.owner, r@)
                },
            },
            _ => None,
        },
        None => None,
    }
}

/// The transform a marker moves, resolving and caching an explicit target.
pub open spec fn motion_target_spec(w: &World, marker: ComponentId, owner: ComponentId) -> Option<ComponentId> {
    match w.component_spec(marker) {
        Some(Component::Draggable(d)) => match d.target {
            DraggableTarget::Owner => Some(owner),
            DraggableTarget::ParentTransform => owner_transform_spec(w, owner),
            DraggableTarget::Explicit(r) => if cache_valid(w, d) {
                d.target_id
            } else if (r matches ComponentRef::Guid(_)) && d.target_was_bound {
                None
            } else {
                resolved_transform(w, owner, r)
            },
        },
        _ => None,
    }
}

/// The marker component after resolution, when resolution changes it.
pub open spec fn marker_after_spec(w: &World, marker: ComponentId, owner: ComponentId) -> Option<DraggableComponent> {
    match w.component_spec(marker) {
        Some(Component::Draggable(d)) => match d.target {
            DraggableTarget::Explicit(r) => if cache_valid(w, d) {
                None
            } else if (r matches ComponentRef::Guid(_)) && d.target_was_bound {
                if d.target_id is Some {
                    Some(DraggableComponent { target_id: None, ..d })
                } else {
                    None
                }
            } else {
                let t = resolved_transform(w, owner, r);
                Some(DraggableComponent { target_id: t, target_was_bound: d.target_was_bound || t is Some, ..d })
            },
            _ => None,
        },
        _ => None,
    }
}


/// The marker is a disabled draggable, which registration leaves alone.
pub open spec fn disabled_marker(w: &World, marker: ComponentId) -> bool {
    w.component_spec(marker) matches Some(Component::Draggable(d)) && !d.enabled
}

/// The owner transform registration works on: the marker's parent, when it
/// is a transform.
pub open spec fn register_owner(w: &World, marker: ComponentId) -> Option<ComponentId> {
    match w.parent_spec(marker) {
        Some(p) => if is_transform_spec(w, p) {
            Some(p)
        } else {
            None
        },
        None => None,
    }
}

/// Agreeing predicates find the same first element.
pub proof fn lemma_first_where_agree(s: Seq<ComponentId>, p1: spec_fn(ComponentId) -> bool, p2: spec_fn(ComponentId) -> bool)
    requires
        forall|i: int| 0 <= i < s.len() ==> p1(#[trigger] s[i]) == p2(s[i]),
    ensures
        first_where(s, p1) == first_where(s, p2),
    decreases s.len(),
{
    if s.len() > 0 {
        let sd = s.drop_last();
        assert forall|i: int| 0 <= i < sd.len() implies p1(#[trigger] sd[i]) == p2(sd[i]) by {
            assert(sd[i] == s[i]);
        }
        lemma_first_where_agree(sd, p1, p2);
        assert(s.last() == s[s.len() - 1]);
    }
}


/// Once an explicit target has been resolved, the marker keeps it: while
/// that transform stays live, resolving again returns it and changes
/// nothing, whatever else has come to match the reference.
pub proof fn resolved_explicit_target_is_sticky(w1: &World, w2: &World, marker: ComponentId, owner: ComponentId)
    requires
        w1.component_spec(marker) matches Some(Component::Draggable(d)) && d.target is Explicit,
        motion_target_spec(w1, marker, owner) is Some,
        marker_after_spec(w1, marker, owner) matches Some(nd) ==> w2.component_spec(marker) == Some(Component::Draggable(nd)),
        marker_after_spec(w1, marker, owner) is None ==> w2.component_spec(marker) == w1.component_spec(marker),
        is_transform_spec(w2, motion_target_spec(w1, marker, owner).unwrap()),
    ensures
        motion_target_spec(w2, marker, owner) == motion_target_spec(w1, marker, owner),
        marker_after_spec(w2, marker, owner) is None,
{
}

/// A stable-identifier target that has been bound never rebinds: once its
/// cached target is no longer a live transform, resolution answers nothing,
/// whatever component now carries the identifier.
pub proof fn bound_guid_target_never_rebinds(w: &World, marker: ComponentId, owner: ComponentId)
    requires
        w.component_spec(marker) matches Some(Component::Draggable(d))
            && (d.target matches DraggableTarget::Explicit(ComponentRef::Guid(_)))
            && d.target_was_bound && !cache_valid(w, d),
    ensures
        motion_target_spec(w, marker, owner) is None,
{
}

/// The gesture key of a pointer gesture: its source (trigger 0, grip 1),
/// raycaster and hit.
pub open spec fn gesture_key_spec(activation_source: PointerActivationSource, raycaster: ComponentId, renderable: ComponentId) -> (u8, ComponentId, ComponentId) {
    (match activation_source {
        PointerActivationSource::Trigger => 0u8,
        PointerActivationSource::Grip => 1u8,
    }, raycaster, renderable)
}

/// The gesture key of a pointer gesture: its source, raycaster and hit.
pub fn gesture_key(activation_source: PointerActivationSource, raycaster: ComponentId, renderable: ComponentId) -> (key: (u8, ComponentId, ComponentId))
    ensures
        key == gesture_key_spec(activation_source, raycaster, renderable),
{
    let source: u8 = match activation_source {
        PointerActivationSource::Trigger => 0,
        PointerActivationSource::Grip => 1,
    };
    (source, raycaster, renderable)
}

/// Whether `id` is a live transform.
pub fn is_transform(w: &World, id: ComponentId) -> (b: bool)
    ensures
        b == is_transform_spec(w, id),
{
    match w.component(id) {
        Some(Component::Transform(_)) => true,
        _ => false,
    }
}

/// The nearest transform strictly above `owner`.
pub fn nearest_parent_transform(w: &World, owner: ComponentId) -> (r: Option<ComponentId>)
    ensures
        r == owner_transform_spec(w, owner),
{
    first_ancestor(w, w.parent_of(owner), AncestorKind::Transform)
}

fn has_selectable_on_child(w: &World, id: ComponentId) -> (b: bool)
    ensures
        b == first_where(w.children_spec(id), selectable_on(w)) is Some,
{
    let children = w.children_of(id);
    let ghost pred = selectable_on(w);
    let mut i: usize = 0;
    while i < children.len()
        invariant
            i <= children@.len(),
            children@ == w.children_spec(id),
            pred == selectable_on(w),
            first_where(children@.take(i as int), pred) is None,
        decreases children@.len() - i,
    {
        proof {
            lemma_first_where_step(children@, i as int, pred);
        }
        let hit = match w.component(children[i]) {
            Some(Component::Selectable(s)) => s.enabled,
            _ => false,
        };
        if hit {
            proof {
                lemma_first_where_prefix(children@, i + 1, pred);
            }
            return true;
        }
        i += 1;
    }
    proof {
        assert(children@.take(children@.len() as int) =~= children@);
    }
    false
}

fn first_draggable_child(w: &World, id: ComponentId) -> (r: Option<ComponentId>)
    ensures
        r == first_where(w.children_spec(id), is_draggable(w)),
{
    let children = w.children_of(id);
    let ghost pred = is_draggable(w);
    let mut i: usize = 0;
    while i < children.len()
        invariant
            i <= children@.len(),
            children@ == w.children_spec(id),
            pred == is_draggable(w),
            first_where(children@.take(i as int), pred) is None,
        decreases children@.len() - i,
    {
        proof {
            lemma_first_where_step(children@, i as int, pred);
        }
        let hit = match w.component(children[i]) {
            Some(Component::Draggable(_)) => true,
            _ => false,
        };
        if hit {
            proof {
                lemma_first_where_prefix(children@, i + 1, pred);
            }
            return Some(children[i]);
        }
        i += 1;
    }
    proof {
        assert(children@.take(children@.len() as int) =~= children@);
    }
    None
}

fn has_raycastable_child(w: &World, id: ComponentId) -> (b: bool)
    ensures
        b == first_where(w.children_spec(id), is_raycastable(w)) is Some,
{
    let children = w.children_of(id);
    let ghost pred = is_raycastable(w);
    let mut i: usize = 0;
    while i < children.len()
        invariant
            i <= children@.len(),
            children@ == w.children_spec(id),
            pred == is_raycastable(w),
            first_where(children@.take(i as int), pred) is None,
        decreases children@.len() - i,
    {
        proof {
            lemma_first_where_step(children@, i as int, pred);
        }
        let hit = match w.component(children[i]) {
            Some(Component::Raycastable(_)) => true,
            _ => false,
        };
        if hit {
            proof {
                lemma_first_where_prefix(children@, i + 1, pred);
            }
            return true;
        }
        i += 1;
    }
    proof {
        assert(children@.take(children@.len() as int) =~= children@);
    }
    false
}

/// The draggable marker that a hit on `renderable` drags.
pub fn find_draggable_marker(w: &World, renderable: ComponentId) -> (r: Option<DraggableMarker>)
    ensures
        r == marker_spec(w, Some(renderable), w.slots()),
{
    let mut current = Some(renderable);
    let mut fuel = w.slot_count();
    while fuel > 0
        invariant
            marker_spec(w, current, fuel as nat) == marker_spec(w, Some(renderable), w.slots()),
        decreases fuel,
    {
        let id = match current {
            None => {
                return None;
            },
            Some(id) => id,
        };
        if !w.contains(id) {
            return None;
        }
        if is_transform(w, id) {
            if has_selectable_on_child(w, id) {
                return None;
            }
            match first_draggable_child(w, id) {
                Some(m) => {
                    return match w.component(m) {
                        Some(Component::Draggable(d)) => {
                            if d.enabled {
                                Some(DraggableMarker { marker: m, owner: id, plane: d.plane })
                            } else {
                                None
                            }
                        },
                        _ => None,
                    };
                },
                None => {},
            }
        }
        current = w.parent_of(id);
        fuel = fuel - 1;
    }
    None
}

/// The transform a hit on `renderable` drags: the marker's owner, the
/// transform above it for a parent handle, or the explicit target (cached
/// while it is a live transform, else resolved afresh). An enabled
/// selectable beside the marker wins over it.
pub fn draggable_owner_for_hit(w: &World, renderable: ComponentId) -> (r: Option<ComponentId>)
    ensures
        r == owner_for_hit_spec(w, renderable),
{
    let m = match find_draggable_marker(w, renderable) {
        Some(m) => m,
        None => {
            return None;
        },
    };
    match w.component(m.marker) {
        Some(Component::Draggable(d)) => match &d.target {
            DraggableTarget::Owner => Some(m.owner),
            DraggableTarget::ParentTransform => nearest_parent_transform(w, m.owner),
            DraggableTarget::Explicit(reference) => {
                match d.target_id {
                    Some(t) => {
                        if is_transform(w, t) {
                            return Some(t);
                        }
                    },
                    None => {},
                }
                resolve_component_ref(w, m.owner, reference)
            },
        },
        _ => None,
    }
}

/// Resolves the transform a marker moves. An explicit target is cached on
/// the marker while it stays a live transform; a stale cache is dropped, a
/// bound stable-identifier target never rebinds, and a query target binds
/// to its replacement.
pub fn resolve_marker_motion_target(world: &mut World, marker: ComponentId, owner: ComponentId) -> (r: Option<ComponentId>)
    ensures
        r == motion_target_spec(old(world), marker, owner),
        match marker_after_spec(old(world), marker, owner) {
            Some(d) => crate::grid_system::component_replaced(old(world), final(world), marker, Component::Draggable(d)),
            None => *final(world) == *old(world),
        },
        old(world).links_ok() ==> final(world).links_ok(),
{
    let (kind, cached, was_bound) = match world.component(marker) {
        Some(Component::Draggable(d)) => {
            let kind: u8 = match &d.target {
                DraggableTarget::Owner => 0,
                DraggableTarget::ParentTransform => 1,
                DraggableTarget::Explicit(ComponentRef::Guid(_)) => 2,
                DraggableTarget::Explicit(ComponentRef::Query(_)) => 3,
            };
            (kind, d.target_id, d.target_was_bound)
        },
        _ => {
            return None;
        },
    };
    if kind == 0 {
        return Some(owner);
    }
    if kind == 1 {
        return nearest_parent_transform(world, owner);
    }
    match cached {
        Some(t) => {
            if is_transform(world, t) {
                return Some(t);
            }
        },
        None => {},
    }
    let resolved = if kind == 2 && was_bound {
        None
    } else {
        let found = match world.component(marker) {
            Some(Component::Draggable(d)) => match &d.target {
                DraggableTarget::Explicit(reference) => resolve_component_ref(world, owner, reference),
                _ => None,
            },
            _ => None,
        };
        match found {
            Some(t) => {
                if is_transform(world, t) {
                    Some(t)
                } else {
                    None
                }
            },
            None => None,
        }
    };
    if kind == 2 && was_bound && cached.is_none() {
        return None;
    }
    let keep_bound = kind == 2 && was_bound;
    let previous = world.replace_component(marker, Component::Renderable);
    match previous {
        Some(Component::Draggable(mut d)) => {
            d.target_id = resolved;
            if !keep_bound {
                d.target_was_bound = was_bound || resolved.is_some();
            }
            let _ = world.replace_component(marker, Component::Draggable(d));
        },
        _ => {},
    }
    resolved
}

/// Resolves what a hit on `renderable` drags, caching an explicit target on
/// the marker.
pub fn resolve_draggable_for_hit(world: &mut World, renderable: ComponentId) -> (r: Option<ResolvedDraggable>)
    ensures
        r == hit_spec(old(world), renderable),
        hit_effect(old(world), final(world), renderable),
        old(world).links_ok() ==> final(world).links_ok(),
{
    let m = match find_draggable_marker(world, renderable) {
        Some(m) => m,
        None => {
            return None;
        },
    };
    match resolve_marker_motion_target(world, m.marker, m.owner) {
        Some(t) => Some(ResolvedDraggable { target: t, plane: m.plane }),
        None => None,
    }
}

impl DraggableSystem {
    pub fn new() -> (s: Self)
        ensures
            !s.handlers_installed,
            s.active@.len() == 0,
    {
        DraggableSystem { handlers_installed: false, active: Vec::new() }
    }

    /// What gesture `key` captured at its start, if it is in progress.
    pub open spec fn captured(&self, key: (u8, ComponentId, ComponentId)) -> Option<Option<ResolvedDraggable>> {
        captured_lookup(self.active@, key)
    }

    /// What a trigger drag move answers in world `w`: the target captured at
    /// the gesture's start, else the hit resolved afresh.
    pub open spec fn move_outcome(
        &self,
        w: &World,
        source: PointerActivationSource,
        raycaster: ComponentId,
        renderable: ComponentId,
    ) -> Option<ResolvedDraggable> {
        if source != PointerActivationSource::Trigger {
            None
        } else {
            match self.captured(gesture_key_spec(source, raycaster, renderable)) {
                Some(c) => c,
                None => hit_spec(w, renderable),
            }
        }
    }

    fn forget_gesture(&mut self, key: (u8, ComponentId, ComponentId))
        ensures
            final(self).active@ == without_gesture(old(self).active@, key),
            final(self).handlers_installed == old(self).handlers_installed,
    {
        let mut kept: Vec<ActiveGesture> = Vec::new();
        let n = self.active.len();
        let mut i: usize = 0;
        while i < n
            invariant
                n == self.active@.len(),
                i <= n,
                kept@ == without_gesture(self.active@.take(i as int), key),
            decreases n - i,
        {
            let g = self.active[i];
            proof {
                assert(self.active@.take(i + 1).drop_last() =~= self.active@.take(i as int));
            }
            if !(g.key.0 == key.0 && g.key.1 == key.1 && g.key.2 == key.2) {
                kept.push(g);
            }
            i += 1;
        }
        proof {
            assert(self.active@.take(n as int) =~= self.active@);
        }
        self.active = kept;
    }

    /// Starts a trigger drag gesture: resolves what the hit drags (caching an
    /// explicit target on its marker) and captures it for the gesture. Other
    /// activation sources start nothing.
    pub fn drag_start(&mut self, world: &mut World, source: PointerActivationSource, raycaster: ComponentId, renderable: ComponentId)
        ensures
            source != PointerActivationSource::Trigger ==> *final(world) == *old(world) && final(self).active@ == old(
                self,
            ).active@,
            source == PointerActivationSource::Trigger ==> {
                let key = gesture_key_spec(source, raycaster, renderable);
                &&& hit_effect(old(world), final(world), renderable)
                &&& final(self).captured(key) == Some(hit_spec(old(world), renderable))
                &&& forall|k: (u8, ComponentId, ComponentId)| k != key ==> #[trigger] final(self).captured(k) == old(
                    self,
                ).captured(k)
            },
            old(world).links_ok() ==> final(world).links_ok(),
            final(self).handlers_installed == old(self).handlers_installed,
    {
        if source != PointerActivationSource::Trigger {
            return;
        }
        let key = gesture_key(source, raycaster, renderable);
        let resolved = resolve_draggable_for_hit(world, renderable);
        let ghost before = self.active@;
        self.forget_gesture(key);
        self.active.push(ActiveGesture { key, resolved });
        proof {
            assert(self.active@.drop_last() == without_gesture(before, key));
            assert forall|k: (u8, ComponentId, ComponentId)| k != key implies #[trigger] captured_lookup(self.active@, k)
                == captured_lookup(before, k) by {
                lemma_without_gesture_lookup(before, key, k);
            }
        }
    }

    /// What a drag move of a gesture drags: for a trigger gesture, the target
    /// captured at its start, even when that transform has since been
    /// removed or another has come to match its reference; a move of a
    /// gesture that was never started resolves the hit afresh.
    pub fn drag_move_target(&self, world: &mut World, source: PointerActivationSource, raycaster: ComponentId, renderable: ComponentId) -> (r: Option<ResolvedDraggable>)
        ensures
            r == self.move_outcome(old(world), source, raycaster, renderable),
            (source == PointerActivationSource::Trigger && self.captured(gesture_key_spec(source, raycaster, renderable)) is None)
                ==> hit_effect(old(world), final(world), renderable),
            !(source == PointerActivationSource::Trigger && self.captured(gesture_key_spec(source, raycaster, renderable)) is None)
                ==> *final(world) == *old(world),
            old(world).links_ok() ==> final(world).links_ok(),
    {
        if source != PointerActivationSource::Trigger {
            return None;
        }
        let key = gesture_key(source, raycaster, renderable);
        let mut i = self.active.len();
        proof {
            assert(self.active@.take(i as int) =~= self.active@);
        }
        while i > 0
            invariant
                i <= self.active@.len(),
                *world == *old(world),
                source == PointerActivationSource::Trigger,
                key == gesture_key_spec(source, raycaster, renderable),
                captured_lookup(self.active@.take(i as int), key) == captured_lookup(self.active@, key),
            decreases i,
        {
            let g = self.active[i - 1];
            proof {
                assert(self.active@.take(i as int).drop_last() =~= self.active@.take(i - 1));
                assert(self.active@.take(i as int).last() == g);
            }
            if g.key.0 == key.0 && g.key.1 == key.1 && g.key.2 == key.2 {
                return g.resolved;
            }
            i -= 1;
        }
        resolve_draggable_for_hit(world, renderable)
    }

    /// Ends a gesture, whatever its activation source.
    pub fn drag_end(&mut self, source: PointerActivationSource, raycaster: ComponentId, renderable: ComponentId)
        ensures
            final(self).captured(gesture_key_spec(source, raycaster, renderable)) is None,
            forall|k: (u8, ComponentId, ComponentId)| k != gesture_key_spec(source, raycaster, renderable)
                ==> #[trigger] final(self).captured(k) == old(self).captured(k),
            final(self).handlers_installed == old(self).handlers_installed,
    {
        let key = gesture_key(source, raycaster, renderable);
        let ghost before = self.active@;
        self.forget_gesture(key);
        proof {
            lemma_without_gesture_lookup(before, key, key);
            assert forall|k: (u8, ComponentId, ComponentId)| k != key implies #[trigger] captured_lookup(self.active@, k)
                == captured_lookup(before, k) by {
                lemma_without_gesture_lookup(before, key, k);
            }
        }
    }

    /// Registers a draggable marker: resolves and caches its explicit
    /// target, and gives its owner transform a generated raycast target
    /// (with serialisation switched off) when the owner has no raycastable
    /// child. Returns the generated raycast target, which the caller
    /// initialises.
    pub fn register(&mut self, world: &mut World, draggable: ComponentId) -> (generated: Option<ComponentId>)
        requires
            old(world).links_ok(),
            old(world).slots() + 2 < u64::MAX,
        ensures
            final(world).links_ok(),
            *final(self) == *old(self),
            disabled_marker(old(world), draggable) || register_owner(old(world), draggable) is None
                ==> *final(world) == *old(world) && generated is None,
            !disabled_marker(old(world), draggable) && register_owner(old(world), draggable) is Some ==> {
                let owner = register_owner(old(world), draggable).unwrap();
                let rc = World::id_at(old(world).slots() as int);
                let ser = World::id_at(old(world).slots() + 1int);
                let d_after = marker_after_spec(old(world), draggable, owner);
                &&& (generated is Some <==> first_where(old(world).children_spec(owner), is_raycastable(old(world))) is None)
                &&& match d_after {
                    Some(d) => final(world).component_spec(draggable) == Some(Component::Draggable(d)),
                    None => final(world).component_spec(draggable) == old(world).component_spec(draggable),
                }
                &&& generated is None ==> final(world).slots() == old(world).slots()
                    && forall|x: ComponentId| x != draggable ==> #[trigger] final(world).rec(x) == old(world).rec(x)
                &&& generated is Some ==> {
                    &&& generated == Some(rc)
                    &&& final(world).slots() == old(world).slots() + 2
                    &&& final(world).component_spec(rc) == Some(Component::Raycastable(RaycastableComponent {
                        enable: true,
                        pointer_events: crate::components::PointerEvents::All,
                    }))
                    &&& final(world).name_spec(rc) == "draggable_generated_raycastable"@
                    &&& final(world).parent_spec(rc) == Some(owner)
                    &&& final(world).children_spec(rc) == seq![ser]
                    &&& final(world).component_spec(ser) == Some(Component::Serialize(SerializeComponent { enabled: false }))
                    &&& final(world).parent_spec(ser) == Some(rc)
                    &&& final(world).children_spec(owner) == old(world).children_spec(owner).push(rc)
                    &&& forall|x: ComponentId| x.index < old(world).slots() && x != owner && x != draggable
                        ==> #[trigger] final(world).rec(x) == old(world).rec(x)
                }
            },
    {
        let disabled = match world.component(draggable) {
            Some(Component::Draggable(d)) => !d.enabled,
            _ => false,
        };
        if disabled {
            return None;
        }
        let owner = match world.parent_of(draggable) {
            Some(p) => {
                if !is_transform(world, p) {
                    return None;
                }
                p
            },
            None => {
                return None;
            },
        };
        let ghost w0 = *world;
        let _ = resolve_marker_motion_target(world, draggable, owner);
        let ghost w1 = *world;
        proof {
            let pr0 = is_raycastable(&w0);
            let pr1 = is_raycastable(&w1);
            let kids = w0.children_spec(owner);
            assert(w1.children_spec(owner) == kids) by {
                if marker_after_spec(&w0, draggable, owner) is Some {
                    assert(is_transform_spec(&w0, owner));
                    assert(owner != draggable);
                    assert(w1.rec(owner) == w0.rec(owner));
                }
            }
            assert forall|i: int| 0 <= i < kids.len() implies pr0(#[trigger] kids[i]) == pr1(kids[i]) by {
                let x = kids[i];
                if x != draggable {
                    if marker_after_spec(&w0, draggable, owner) is Some {
                        assert(w1.rec(x) == w0.rec(x));
                    }
                }
            }
            lemma_first_where_agree(kids, pr0, pr1);
        }
        if has_raycastable_child(world, owner) {
            return None;
        }
        let rc = world.add_component_named("draggable_generated_raycastable", Component::Raycastable(RaycastableComponent::enabled()));
        let ghost w2 = *world;
        let ser = world.add_component(Component::Serialize(SerializeComponent::off()));
        let ghost w3 = *world;
        proof {
            w1.lemma_fresh_unlinked(rc);
            assert forall|y: ComponentId| y.index < w2.slots() && #[trigger] w3.parent_spec(y) is Some
                implies w3.parent_spec(y).unwrap().index < w2.slots() by {
                assert(y != ser);
                assert(w3.rec(y) == w2.rec(y));
                assert(w2.parent_spec(y) == w3.parent_spec(y));
                if y != rc {
                    assert(w2.rec(y) == w1.rec(y));
                    assert(w1.parent_spec(y) == w2.parent_spec(y));
                }
            }
            w3.lemma_not_reaches_outside(rc, ser, w2.slots(), w3.slots());
            assert(w3.rec(rc) == w2.rec(rc));
        }
        let linked = world.add_child(rc, ser);
        let ghost w4 = *world;
        proof {
            assert(linked is Ok);
            w0.lemma_live_in_range(owner);
            assert forall|y: ComponentId| y.index < w1.slots() && #[trigger] w4.parent_spec(y) is Some
                implies w4.parent_spec(y).unwrap().index < w1.slots() by {
                assert(y != ser && y != rc);
                assert(w4.parent_spec(y) == w3.parent_spec(y));
                assert(w3.rec(y) == w2.rec(y));
                assert(w2.rec(y) == w1.rec(y));
                assert(w1.parent_spec(y) == w3.parent_spec(y));
            }
            w4.lemma_not_reaches_outside(owner, rc, w1.slots(), w4.slots());
            assert(w4.name_spec(owner) == w3.name_spec(owner));
            assert(w3.rec(owner) == w2.rec(owner));
            assert(w2.rec(owner) == w1.rec(owner));
            assert(w4.name_spec(rc) == w3.name_spec(rc));
        }
        let attached = world.add_child(owner, rc);
        proof {
            assert(attached is Ok);
            let ws = *world;
            assert(ws.name_spec(rc) == w4.name_spec(rc));
            assert(ws.name_spec(ser) == w4.name_spec(ser));
            assert(ws.name_spec(draggable) == w4.name_spec(draggable));
            assert(w4.name_spec(draggable) == w3.name_spec(draggable));
            assert(w0.live(draggable));
            w0.lemma_live_in_range(draggable);
            assert(draggable != rc && draggable != ser);
            assert(w3.rec(draggable) == w2.rec(draggable));
            assert(w2.rec(draggable) == w1.rec(draggable));
            assert(w4.children_spec(rc) =~= seq![ser]);
            assert(ws.children_spec(rc) == w4.children_spec(rc));
            assert(ws.parent_spec(ser) == w4.parent_spec(ser));
            assert(w4.children_spec(owner) == w3.children_spec(owner));
            assert(ws.children_spec(owner) == w4.children_spec(owner).push(rc));
            assert forall|x: ComponentId| x.index < w0.slots() && x != owner && x != draggable
                implies #[trigger] ws.rec(x) == w0.rec(x) by {
                assert(x != rc && x != ser);
                if marker_after_spec(&w0, draggable, owner) is Some {
                    assert(w1.rec(x) == w0.rec(x));
                }
                assert(w2.rec(x) == w1.rec(x));
                assert(w3.rec(x) == w2.rec(x));
                assert(w4.rec(x) == w3.rec(x));
            }
        }
        Some(rc)
    }

    /// Records that the drag handlers are installed; true exactly on the
    /// first call, when the caller must install them.
    pub fn install_handlers(&mut self) -> (install_now: bool)
        ensures
            install_now == !old(self).handlers_installed,
            final(self).handlers_installed,
    {
        if self.handlers_installed {
            return false;
        }
        self.handlers_installed = true;
        true
    }
}

/// A trigger gesture drags what it captured at its start: once `drag_start`
/// has captured the hit's resolution in world `w_start`, every move of the
/// same gesture answers that resolution, whatever the world `w_now` has
/// become since (the target removed, or another transform matching its
/// reference).
pub proof fn gesture_keeps_its_captured_target(
    system: &DraggableSystem,
    w_start: &World,
    w_now: &World,
    raycaster: ComponentId,
    renderable: ComponentId,
)
    requires
        system.captured(gesture_key_spec(PointerActivationSource::Trigger, raycaster, renderable)) == Some(
            hit_spec(w_start, renderable),
        ),
    ensures
        system.move_outcome(w_now, PointerActivationSource::Trigger, raycaster, renderable) == hit_spec(
            w_start,
            renderable,
        ),
{
}

/// After a gesture has ended, a move under its key resolves the hit afresh
/// in the current world.
pub proof fn ended_gesture_resolves_afresh(
    system: &DraggableSystem,
    w_now: &World,
    raycaster: ComponentId,
    renderable: ComponentId,
)
    requires
        system.captured(gesture_key_spec(PointerActivationSource::Trigger, raycaster, renderable)) is None,
    ensures
        system.move_outcome(w_now, PointerActivationSource::Trigger, raycaster, renderable) == hit_spec(
            w_now,
            renderable,
        ),
{
}

} // verus!
