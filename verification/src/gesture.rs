//! Pointer gesture decisions: how a pointer is classed, which drag policy
//! applies to it, which of a frame's ray hits a press picks, and which
//! grabbable owner each grip holds.
use vstd::prelude::*;
use crate::ids::ComponentId;

verus! {

/// How an active drag keeps producing moves.
#[derive(Debug, Clone, Copy, PartialEq, Eq, Structural)]
pub enum DragUpdatePolicy {
    /// Moves only while the pointer still hits the original target.
    RequireTargetContact,
    /// Moves by projecting the pointer ray onto the plane captured at drag
    /// start; used for thin editor handles.
    StartPlaneProjection,
}

/// The kind of pointer that pressed.
#[derive(Debug, Clone, Copy, PartialEq, Eq, Structural)]
pub enum GesturePointerClass {
    Desktop,
    Spatial,
}

/// What drives a pointer.
#[derive(Debug, Clone, Copy, PartialEq, Eq, Structural)]
pub struct PointerTopology {
    pub has_controller_driver: bool,
    pub has_xr_camera_anchor: bool,
    pub has_xr_input_driver: bool,
}

/// A pointer is a screen pointer when nothing spatial drives it.
pub open spec fn screen_pointer(t: PointerTopology) -> bool {
    !t.has_controller_driver && !t.has_xr_camera_anchor && !t.has_xr_input_driver
}

/// Whether a pointer with topology `t` is a screen pointer.
pub fn is_screen_pointer(t: PointerTopology) -> (b: bool)
    ensures
        b == screen_pointer(t),
{
    !t.has_controller_driver && !t.has_xr_camera_anchor && !t.has_xr_input_driver
}

/// The class a press is recorded under.
pub fn press_pointer_class(t: PointerTopology) -> (c: GesturePointerClass)
    ensures
        c == if screen_pointer(t) { GesturePointerClass::Desktop } else { GesturePointerClass::Spatial },
{
    if is_screen_pointer(t) {
        GesturePointerClass::Desktop
    } else {
        GesturePointerClass::Spatial
    }
}

/// The policy that applies to a drag: start-plane projection only ever
/// applies to screen pointers; spatial pointers need target contact.
pub fn effective_drag_policy(policy: DragUpdatePolicy, screen: bool) -> (p: DragUpdatePolicy)
    ensures
        p == if screen { policy } else { DragUpdatePolicy::RequireTargetContact },
{
    if screen {
        policy
    } else {
        DragUpdatePolicy::RequireTargetContact
    }
}

/// One ray hit of a frame, with what its target accepts and owns.
#[derive(Debug, Clone, Copy, PartialEq, Eq, Structural)]
pub struct GestureHit {
    pub raycaster: ComponentId,
    pub renderable: ComponentId,
    pub captures_drag: bool,
    pub captures_click: bool,
    pub draggable_owner: Option<ComponentId>,
    pub grabbable_owner: Option<ComponentId>,
}

/// The first position in `hits` whose hit satisfies `pred`.
pub open spec fn first_hit(hits: Seq<GestureHit>, pred: spec_fn(GestureHit) -> bool) -> Option<int> {
    if exists|i: int| 0 <= i < hits.len() && pred(#[trigger] hits[i]) {
        Some(choose|i: int| 0 <= i < hits.len() && pred(#[trigger] hits[i]) && forall|j: int| 0 <= j < i ==> !pred(#[trigger] hits[j]))
    } else {
        None
    }
}

/// A trigger press drags the first hit of its ray that captures drags;
/// a controller never drags a target that is only grabbable.
pub open spec fn drag_pred(raycaster: ComponentId, controller: bool) -> spec_fn(GestureHit) -> bool {
    |h: GestureHit| h.raycaster == raycaster && h.captures_drag && (!controller || h.draggable_owner is Some
        || h.grabbable_owner is None)
}

/// A press clicks the first hit of its ray that captures clicks.
pub open spec fn click_pred(raycaster: ComponentId) -> spec_fn(GestureHit) -> bool {
    |h: GestureHit| h.raycaster == raycaster && h.captures_click
}

proof fn lemma_first_hit_unique(hits: Seq<GestureHit>, pred: spec_fn(GestureHit) -> bool, i: int)
    requires
        0 <= i < hits.len(),
        pred(hits[i]),
        forall|j: int| 0 <= j < i ==> !pred(#[trigger] hits[j]),
    ensures
        first_hit(hits, pred) == Some(i),
{
    let k = choose|k: int| 0 <= k < hits.len() && pred(#[trigger] hits[k]) && forall|j: int| 0 <= j < k ==> !pred(#[trigger] hits[j]);
    if k < i {
        assert(!pred(hits[k]));
    } else if i < k {
        assert(!pred(hits[i]));
    }
}

fn find_hit(hits: &Vec<GestureHit>, raycaster: ComponentId, controller: bool, drag: bool) -> (r: Option<usize>)
    ensures
        ({
            let pred = if drag { drag_pred(raycaster, controller) } else { click_pred(raycaster) };
            match r {
                Some(i) => i < hits@.len() && pred(hits@[i as int]) && first_hit(hits@, pred) == Some(i as int),
                None => first_hit(hits@, pred) is None,
            }
        }),
{
    let ghost pred = if drag { drag_pred(raycaster, controller) } else { click_pred(raycaster) };
    let mut i: usize = 0;
    while i < hits.len()
        invariant
            i <= hits@.len(),
            pred == (if drag { drag_pred(raycaster, controller) } else { click_pred(raycaster) }),
            forall|j: int| 0 <= j < i ==> !pred(#[trigger] hits@[j]),
        decreases hits@.len() - i,
    {
        let h = hits[i];
        let hit = if drag {
            h.raycaster == raycaster && h.captures_drag && (!controller || h.draggable_owner.is_some()
                || h.grabbable_owner.is_none())
        } else {
            h.raycaster == raycaster && h.captures_click
        };
        if hit {
            proof {
                lemma_first_hit_unique(hits@, pred, i as int);
            }
            return Some(i);
        }
        i += 1;
    }
    None
}

/// The hits a trigger press of a pointer casting `raycaster` picks among a
/// frame's hits, in interaction order: the one it drags and the one it
/// clicks.
pub fn select_press_hits(hits: &Vec<GestureHit>, raycaster: ComponentId, controller: bool) -> (r: (Option<usize>, Option<usize>))
    ensures
        r.0 matches Some(i) ==> i < hits@.len() && drag_pred(raycaster, controller)(hits@[i as int])
            && first_hit(hits@, drag_pred(raycaster, controller)) == Some(i as int),
        r.0 is None ==> first_hit(hits@, drag_pred(raycaster, controller)) is None,
        r.1 matches Some(i) ==> i < hits@.len() && click_pred(raycaster)(hits@[i as int])
            && first_hit(hits@, click_pred(raycaster)) == Some(i as int),
        r.1 is None ==> first_hit(hits@, click_pred(raycaster)) is None,
{
    (find_hit(hits, raycaster, controller, true), find_hit(hits, raycaster, false, false))
}

/// The grip a pointer holds on a grabbable owner.
#[derive(Debug, Clone, Copy, PartialEq, Eq, Structural)]
pub struct GripGesture {
    pub pointer: ComponentId,
    pub renderable: ComponentId,
    pub owner: ComponentId,
    pub desktop: bool,
}

/// A press that may grab: the pointer, whether it is a desktop pointer,
/// and the raycaster it casts, if any.
#[derive(Debug, Clone, Copy, PartialEq, Eq, Structural)]
pub struct GrabPress {
    pub pointer: ComponentId,
    pub desktop: bool,
    pub raycaster: Option<ComponentId>,
}

/// A grab that began: which press, which hit, and the owner grabbed.
#[derive(Debug, Clone, Copy, PartialEq, Eq, Structural)]
pub struct GrabStart {
    pub pointer: ComponentId,
    pub raycaster: ComponentId,
    pub hit: usize,
    pub owner: ComponentId,
}

/// A grab that ended.
#[derive(Debug, Clone, Copy, PartialEq, Eq, Structural)]
pub struct GrabEnd {
    pub pointer: ComponentId,
    pub renderable: ComponentId,
    pub owner: ComponentId,
}

/// Whether some grip in `grips` is held by `pointer`.
pub open spec fn holds(grips: Seq<GripGesture>, pointer: ComponentId) -> bool {
    exists|i: int| 0 <= i < grips.len() && (#[trigger] grips[i]).pointer == pointer
}

/// Whether some grip in `grips` holds `owner`.
pub open spec fn grabbed(grips: Seq<GripGesture>, owner: ComponentId) -> bool {
    exists|i: int| 0 <= i < grips.len() && (#[trigger] grips[i]).owner == owner
}

/// No pointer holds two grips, and no owner is held twice.
pub open spec fn grips_distinct(grips: Seq<GripGesture>) -> bool {
    forall|i: int, j: int| 0 <= i < j < grips.len() ==> (#[trigger] grips[i]).pointer != (#[trigger] grips[j]).pointer
        && grips[i].owner != grips[j].owner
}

/// A press grabs the first hit of its ray that captures drags and whose
/// grabbable owner no grip holds yet.
pub open spec fn grab_pred(grips: Seq<GripGesture>, raycaster: ComponentId) -> spec_fn(GestureHit) -> bool {
    |h: GestureHit| h.raycaster == raycaster && h.captures_drag && (h.grabbable_owner matches Some(o) && !grabbed(grips, o))
}

/// One press: a pointer that already grips, or casts no ray, or finds no
/// free grabbable hit, changes nothing; otherwise it grips the hit's owner.
pub open spec fn press_step(grips: Seq<GripGesture>, p: GrabPress, hits: Seq<GestureHit>) -> (Seq<GripGesture>, Option<GrabStart>) {
    if holds(grips, p.pointer) {
        (grips, None)
    } else {
        match p.raycaster {
            None => (grips, None),
            Some(rc) => match first_hit(hits, grab_pred(grips, rc)) {
                None => (grips, None),
                Some(i) => {
                    let o = hits[i].grabbable_owner.unwrap();
                    (
                        grips.push(GripGesture { pointer: p.pointer, renderable: hits[i].renderable, owner: o, desktop: p.desktop }),
                        Some(GrabStart { pointer: p.pointer, raycaster: rc, hit: i as usize, owner: o }),
                    )
                },
            },
        }
    }
}

/// The presses applied in order, and the grabs that began.
pub open spec fn press_all(grips: Seq<GripGesture>, presses: Seq<GrabPress>, hits: Seq<GestureHit>) -> (Seq<GripGesture>, Seq<GrabStart>)
    decreases presses.len(),
{
    if presses.len() == 0 {
        (grips, Seq::empty())
    } else {
        let before = press_all(grips, presses.drop_last(), hits);
        let step = press_step(before.0, presses.last(), hits);
        (
            step.0,
            match step.1 {
                Some(s) => before.1.push(s),
                None => before.1,
            },
        )
    }
}

/// The grips of the pointers in `released` end, in order; a pointer that
/// holds no grip changes nothing.
pub open spec fn release_all(grips: Seq<GripGesture>, released: Seq<ComponentId>) -> (Seq<GripGesture>, Seq<GrabEnd>)
    decreases released.len(),
{
    if released.len() == 0 {
        (grips, Seq::empty())
    } else {
        let before = release_all(grips, released.drop_last(), );
        let p = released.last();
        let g = before.0;
        if holds(g, p) {
            let k = choose|k: int| 0 <= k < g.len() && (#[trigger] g[k]).pointer == p;
            (g.remove(k), before.1.push(GrabEnd { pointer: p, renderable: g[k].renderable, owner: g[k].owner }))
        } else {
            (g, before.1)
        }
    }
}

/// The grips pointers hold on grabbable owners.
#[derive(Debug)]
pub struct GrabTracker {
    grips: Vec<GripGesture>,
}

impl GrabTracker {
    /// The grips, in the order they began.
    pub closed spec fn grips(&self) -> Seq<GripGesture> {
        self.grips@
    }

    /// No pointer holds two grips and no owner is held twice.
    pub closed spec fn wf(&self) -> bool {
        grips_distinct(self.grips@)
    }

    /// No grips.
    pub fn new() -> (t: Self)
        ensures
            t.wf(),
            t.grips() == Seq::<GripGesture>::empty(),
    {
        GrabTracker { grips: Vec::new() }
    }

    fn position(&self, pointer: ComponentId) -> (r: Option<usize>)
        ensures
            match r {
                Some(i) => i < self.grips@.len() && self.grips@[i as int].pointer == pointer,
                None => !holds(self.grips@, pointer),
            },
    {
        let mut i: usize = 0;
        while i < self.grips.len()
            invariant
                i <= self.grips@.len(),
                forall|j: int| 0 <= j < i ==> (#[trigger] self.grips@[j]).pointer != pointer,
            decreases self.grips@.len() - i,
        {
            if self.grips[i].pointer == pointer {
                return Some(i);
            }
            i += 1;
        }
        None
    }

    fn owner_free(&self, owner: ComponentId) -> (b: bool)
        ensures
            b == !grabbed(self.grips@, owner),
    {
        let mut i: usize = 0;
        while i < self.grips.len()
            invariant
                i <= self.grips@.len(),
                forall|j: int| 0 <= j < i ==> (#[trigger] self.grips@[j]).owner != owner,
            decreases self.grips@.len() - i,
        {
            if self.grips[i].owner == owner {
                return false;
            }
            i += 1;
        }
        true
    }

    /// The grip `pointer` holds.
    pub fn grip_of(&self, pointer: ComponentId) -> (r: Option<GripGesture>)
        requires
            self.wf(),
        ensures
            match r {
                Some(g) => g.pointer == pointer && exists|i: int| 0 <= i < self.grips().len() && self.grips()[i] == g,
                None => !holds(self.grips(), pointer),
            },
    {
        match self.position(pointer) {
            Some(i) => {
                proof {
                    assert(self.grips()[i as int] == self.grips@[i as int]);
                }
                Some(self.grips[i])
            },
            None => None,
        }
    }

    /// Applies a frame's grab presses in order against the frame's hits;
    /// gives back the grabs that began.
    pub fn press(&mut self, presses: &Vec<GrabPress>, hits: &Vec<GestureHit>) -> (started: Vec<GrabStart>)
        requires
            old(self).wf(),
        ensures
            final(self).wf(),
            (final(self).grips(), started@) == press_all(old(self).grips(), presses@, hits@),
    {
        let mut started: Vec<GrabStart> = Vec::new();
        let mut k: usize = 0;
        while k < presses.len()
            invariant
                k <= presses@.len(),
                self.wf(),
                (self.grips@, started@) == press_all(old(self).grips@, presses@.take(k as int), hits@),
            decreases presses@.len() - k,
        {
            proof {
                assert(presses@.take(k + 1).drop_last() =~= presses@.take(k as int));
                assert(presses@.take(k + 1).last() == presses@[k as int]);
            }
            let p = presses[k];
            let ghost g0 = self.grips@;
            if self.position(p.pointer).is_none() {
                if let Some(rc) = p.raycaster {
                    let ghost pred = grab_pred(g0, rc);
                    let mut i: usize = 0;
                    let mut found: Option<usize> = None;
                    while i < hits.len()
                        invariant_except_break
                            found is None,
                            forall|j: int| 0 <= j < i ==> !pred(#[trigger] hits@[j]),
                        invariant
                            i <= hits@.len(),
                            self.grips@ == g0,
                            pred == grab_pred(g0, rc),
                        ensures
                            self.grips@ == g0,
                            match found {
                                Some(f) => f < hits@.len() && pred(hits@[f as int]) && first_hit(hits@, pred) == Some(f as int),
                                None => first_hit(hits@, pred) is None,
                            },
                        decreases hits@.len() - i,
                    {
                        let h = hits[i];
                        let ok = match h.grabbable_owner {
                            Some(o) => h.raycaster == rc && h.captures_drag && self.owner_free(o),
                            None => false,
                        };
                        if ok {
                            proof {
                                lemma_first_hit_unique(hits@, pred, i as int);
                                assert(pred(hits@[i as int]));
                            }
                            found = Some(i);
                            break;
                        }
                        i += 1;
                    }
                    if let Some(f) = found {
                        let h = hits[f];
                        proof {
                            assert(pred(h));
                            assert(!holds(g0, p.pointer));
                        }
                        if let Some(o) = h.grabbable_owner {
                            proof {
                                assert(!grabbed(g0, o));
                            }
                            let grip = GripGesture { pointer: p.pointer, renderable: h.renderable, owner: o, desktop: p.desktop };
                            self.grips.push(grip);
                            started.push(GrabStart { pointer: p.pointer, raycaster: rc, hit: f, owner: o });
                            proof {
                                assert forall|a: int, b: int| 0 <= a < b < self.grips@.len() implies (#[trigger] self.grips@[a]).pointer
                                    != (#[trigger] self.grips@[b]).pointer && self.grips@[a].owner != self.grips@[b].owner by {
                                    if b == g0.len() {
                                        assert(self.grips@[a] == g0[a]);
                                        if g0[a].pointer == p.pointer {
                                            assert(holds(g0, p.pointer));
                                        }
                                        if g0[a].owner == o {
                                            assert(grabbed(g0, o));
                                        }
                                    } else {
                                        assert(self.grips@[a] == g0[a] && self.grips@[b] == g0[b]);
                                    }
                                }
                            }
                        }
                    }
                }
            }
            k += 1;
        }
        proof {
            assert(presses@.take(presses@.len() as int) =~= presses@);
        }
        started
    }

    /// Ends the grips of the grip-released pointers and of the released
    /// desktop pointers, in that order; gives back the grabs that ended.
    pub fn release(&mut self, grip_released: &Vec<ComponentId>, released: &Vec<ComponentId>) -> (ended: Vec<GrabEnd>)
        requires
            old(self).wf(),
        ensures
            final(self).wf(),
            (final(self).grips(), ended@) == release_all(
                old(self).grips(),
                grip_released@ + released@.filter(|p: ComponentId| exists|i: int| 0 <= i < old(self).grips().len()
                    && (#[trigger] old(self).grips()[i]).pointer == p && old(self).grips()[i].desktop),
            ),
    {
        let ghost g_start = self.grips@;
        let ghost desk = |p: ComponentId| exists|i: int| 0 <= i < g_start.len() && (#[trigger] g_start[i]).pointer == p && g_start[i].desktop;
        let mut all: Vec<ComponentId> = Vec::new();
        let mut i: usize = 0;
        while i < grip_released.len()
            invariant
                i <= grip_released@.len(),
                all@ == grip_released@.take(i as int),
            decreases grip_released@.len() - i,
        {
            all.push(grip_released[i]);
            proof {
                assert(grip_released@.take(i + 1) =~= grip_released@.take(i as int).push(grip_released@[i as int]));
            }
            i += 1;
        }
        proof {
            assert(grip_released@.take(grip_released@.len() as int) =~= grip_released@);
        }
        let mut j: usize = 0;
        while j < released.len()
            invariant
                j <= released@.len(),
                self.grips@ == g_start,
                self.wf(),
                desk == (|p: ComponentId| exists|i: int| 0 <= i < g_start.len() && (#[trigger] g_start[i]).pointer == p && g_start[i].desktop),
                all@ == grip_released@ + released@.take(j as int).filter(desk),
            decreases released@.len() - j,
        {
            let p = released[j];
            let pos = self.position(p);
            let desktop = match pos {
                Some(x) => self.grips[x].desktop,
                None => false,
            };
            proof {
                assert(released@.take(j + 1) =~= released@.take(j as int).push(p));
                released@.take(j as int).lemma_filter_push(p, desk);
                if desktop {
                    assert(desk(p));
                } else if desk(p) {
                    let w = choose|w: int| 0 <= w < g_start.len() && (#[trigger] g_start[w]).pointer == p && g_start[w].desktop;
                    assert(holds(g_start, p));
                    if let Some(x) = pos {
                        if w < x {
                            assert(g_start[w].pointer != g_start[x as int].pointer);
                        } else if x < w {
                            assert(g_start[x as int].pointer != g_start[w].pointer);
                        }
                    }
                }
            }
            if desktop {
                all.push(p);
            }
            proof {
                assert(all@ =~= grip_released@ + released@.take(j + 1).filter(desk));
            }
            j += 1;
        }
        proof {
            assert(released@.take(released@.len() as int) =~= released@);
        }
        let mut ended: Vec<GrabEnd> = Vec::new();
        let mut k: usize = 0;
        while k < all.len()
            invariant
                k <= all@.len(),
                self.wf(),
                (self.grips@, ended@) == release_all(g_start, all@.take(k as int)),
            decreases all@.len() - k,
        {
            proof {
                assert(all@.take(k + 1).drop_last() =~= all@.take(k as int));
                assert(all@.take(k + 1).last() == all@[k as int]);
            }
            let p = all[k];
            let ghost g0 = self.grips@;
            if let Some(x) = self.position(p) {
                let g = self.grips.remove(x);
                ended.push(GrabEnd { pointer: p, renderable: g.renderable, owner: g.owner });
                proof {
                    let c = choose|c: int| 0 <= c < g0.len() && (#[trigger] g0[c]).pointer == p;
                    if c != x {
                        assert(g0[c].pointer == g0[x as int].pointer);
                        if c < x {
                            assert(false);
                        } else {
                            assert(false);
                        }
                    }
                    assert forall|a: int, b: int| 0 <= a < b < self.grips@.len() implies (#[trigger] self.grips@[a]).pointer
                        != (#[trigger] self.grips@[b]).pointer && self.grips@[a].owner != self.grips@[b].owner by {
                        let a0 = if a < x { a } else { a + 1 };
                        let b0 = if b < x { b } else { b + 1 };
                        assert(self.grips@[a] == g0[a0]);
                        assert(self.grips@[b] == g0[b0]);
                    }
                }
            }
            k += 1;
        }
        proof {
            assert(all@.take(all@.len() as int) =~= all@);
        }
        ended
    }
}

/// At most one pointer grips any owner, whatever presses and releases
/// come.
pub proof fn an_owner_is_gripped_by_at_most_one_pointer(t: &GrabTracker, a: int, b: int)
    requires
        t.wf(),
        0 <= a < t.grips().len(),
        0 <= b < t.grips().len(),
        t.grips()[a].owner == t.grips()[b].owner,
    ensures
        a == b,
{
    if a < b {
        assert(t.grips()[a].owner != t.grips()[b].owner);
    } else if b < a {
        assert(t.grips()[b].owner != t.grips()[a].owner);
    }
}

} // verus!
