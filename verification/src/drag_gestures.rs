//! Trigger drags of a frame: which presses start a drag and on which hits,
//! how an active drag keeps moving, and when a release also clicks.
//!
//! Distances, angles and projections are the caller's single-precision
//! work; it hands in their outcomes (a release within the pointer's click
//! tolerance, a move that changed the hit point) as booleans.
use vstd::prelude::*;
use crate::gesture::{
    click_pred, drag_pred, effective_drag_policy, first_hit, screen_pointer, select_press_hits, DragUpdatePolicy,
    GestureHit, GesturePointerClass, PointerTopology,
};
use crate::ids::ComponentId;

verus! {

/// An active trigger drag of one pointer.
#[derive(Debug, Clone, Copy, PartialEq, Eq, Structural)]
pub struct DragGesture {
    pub pointer: ComponentId,
    pub raycaster: ComponentId,
    /// The renderable being dragged.
    pub renderable: ComponentId,
    /// The first click-capable hit at the press, where a click goes.
    pub click_renderable: Option<ComponentId>,
    pub press_class: GesturePointerClass,
    /// A screen pointer that had a cursor position at the press.
    pub screen_cursor: bool,
    /// A controller dragging a draggable: it follows the controller.
    pub xr_draggable: bool,
}

/// A trigger press of a frame.
#[derive(Debug, Clone, Copy, PartialEq, Eq, Structural)]
pub struct TriggerPress {
    pub pointer: ComponentId,
    /// The raycaster the pointer casts, if any.
    pub raycaster: Option<ComponentId>,
    pub topology: PointerTopology,
    /// The cursor position is known.
    pub cursor_known: bool,
    /// A desktop grab took this press.
    pub grab_consumed: bool,
}

/// A trigger release of a frame, with the caller's findings.
#[derive(Debug, Clone, Copy, PartialEq, Eq, Structural)]
pub struct TriggerRelease {
    pub pointer: ComponentId,
    /// The pointer's click tolerances are configured.
    pub has_pointer_config: bool,
    /// The release lies within those tolerances of the press (pixel
    /// distance for a desktop press; ray angle and origin for a spatial one),
    /// measured against the release's click hit.
    pub within_tolerance: bool,
}

/// What the drags did this frame.
#[derive(Debug, Clone, Copy, PartialEq, Eq, Structural)]
pub enum DragEvent {
    /// A drag began on `hits[drag_hit]`; `click_hit` is where a click would go.
    DragStart { pointer: ComponentId, drag_hit: usize, click_hit: Option<usize> },
    /// A drag ended.
    DragEnd { pointer: ComponentId, raycaster: ComponentId, renderable: ComponentId },
    /// The release clicked `target`.
    Click { pointer: ComponentId, raycaster: ComponentId, target: ComponentId },
}

/// Where an active drag's next move comes from.
#[derive(Debug, Clone, Copy, PartialEq, Eq, Structural)]
pub enum MoveSource {
    /// The pointer is not dragging.
    Idle,
    /// The controller's own translation.
    Controller,
    /// The ray's hit on the dragged renderable, at this index of the hits.
    TargetHit(usize),
    /// The ray no longer touches the dragged renderable: no move.
    NoContact,
    /// The cursor ray projected onto the plane captured at the press.
    Projection,
}

/// The first drag of `pointer`.
pub open spec fn drag_of(drags: Seq<DragGesture>, pointer: ComponentId) -> Option<DragGesture>
    decreases drags.len(),
{
    if drags.len() == 0 {
        None
    } else {
        match drag_of(drags.drop_last(), pointer) {
            Some(d) => Some(d),
            None => if drags.last().pointer == pointer { Some(drags.last()) } else { None },
        }
    }
}

/// `drags` without the drags of `pointer`, order kept.
pub open spec fn drags_without(drags: Seq<DragGesture>, pointer: ComponentId) -> Seq<DragGesture>
    decreases drags.len(),
{
    if drags.len() == 0 {
        Seq::empty()
    } else {
        let rest = drags_without(drags.drop_last(), pointer);
        if drags.last().pointer == pointer { rest } else { rest.push(drags.last()) }
    }
}

/// One press: skipped when a desktop grab took it, when the pointer already
/// drags, when it casts no ray or when its ray hits nothing it may drag;
/// otherwise a drag starts on the first draggable hit, remembering the first
/// clickable hit as the click target.
pub open spec fn start_step(drags: Seq<DragGesture>, p: TriggerPress, hits: Seq<GestureHit>) -> (Seq<DragGesture>, Option<DragEvent>) {
    if p.grab_consumed || drag_of(drags, p.pointer) is Some {
        (drags, None)
    } else {
        match p.raycaster {
            None => (drags, None),
            Some(rc) => {
                let controller = p.topology.has_controller_driver;
                match first_of(hits, drag_pred(rc, controller)) {
                    None => (drags, None),
                    Some(i) => {
                        let click = first_of(hits, click_pred(rc));
                        let screen = screen_pointer(p.topology);
                        let g = DragGesture {
                            pointer: p.pointer,
                            raycaster: hits[i].raycaster,
                            renderable: hits[i].renderable,
                            click_renderable: match click {
                                Some(j) => Some(hits[j].renderable),
                                None => None,
                            },
                            press_class: if screen { GesturePointerClass::Desktop } else { GesturePointerClass::Spatial },
                            screen_cursor: screen && p.cursor_known,
                            xr_draggable: controller && hits[i].draggable_owner is Some,
                        };
                        (
                            drags.push(g),
                            Some(DragEvent::DragStart {
                                pointer: p.pointer,
                                drag_hit: i as usize,
                                click_hit: match click {
                                    Some(j) => Some(j as usize),
                                    None => None,
                                },
                            }),
                        )
                    },
                }
            },
        }
    }
}

/// `first_hit`, kept folded where the start of a drag is described.
#[verifier::opaque]
pub open spec fn first_of(hits: Seq<GestureHit>, pred: spec_fn(GestureHit) -> bool) -> Option<int> {
    first_hit(hits, pred)
}

/// The presses applied in order, and the drags that started.
pub open spec fn start_all(drags: Seq<DragGesture>, presses: Seq<TriggerPress>, hits: Seq<GestureHit>) -> (Seq<DragGesture>, Seq<DragEvent>)
    decreases presses.len(),
{
    if presses.len() == 0 {
        (drags, Seq::empty())
    } else {
        let (d, e) = start_all(drags, presses.drop_last(), hits);
        let (d2, s) = start_step(d, presses.last(), hits);
        (d2, match s { Some(x) => e.push(x), None => e })
    }
}

/// A hit of the dragged renderable by the drag's own ray.
pub open spec fn contact_pred(g: DragGesture) -> spec_fn(GestureHit) -> bool {
    |h: GestureHit| h.raycaster == g.raycaster && h.renderable == g.renderable
}

/// Where the next move of `pointer`'s drag comes from.
pub open spec fn move_source_spec(drags: Seq<DragGesture>, pointer: ComponentId, hits: Seq<GestureHit>, policy: DragUpdatePolicy) -> MoveSource {
    match drag_of(drags, pointer) {
        None => MoveSource::Idle,
        Some(g) => if g.xr_draggable {
            MoveSource::Controller
        } else if g.screen_cursor && policy == DragUpdatePolicy::StartPlaneProjection {
            MoveSource::Projection
        } else {
            match first_hit(hits, contact_pred(g)) {
                Some(i) => MoveSource::TargetHit(i as usize),
                None => MoveSource::NoContact,
            }
        },
    }
}

/// Whether a release of drag `g` clicks: it needs a click target from the
/// press, a clickable hit of the same ray at the release on that same
/// target, configured tolerances, and a release within them.
pub open spec fn clicks(g: DragGesture, r: TriggerRelease, hits: Seq<GestureHit>) -> bool {
    &&& g.click_renderable is Some
    &&& first_of(hits, click_pred(g.raycaster)) matches Some(j) && hits[j].renderable == g.click_renderable.unwrap()
    &&& r.has_pointer_config
    &&& r.within_tolerance
}

/// One release: a pointer that is not dragging changes nothing; otherwise
/// its drag ends, with a click when `clicks` says so.
pub open spec fn release_step(drags: Seq<DragGesture>, r: TriggerRelease, hits: Seq<GestureHit>) -> (Seq<DragGesture>, Seq<DragEvent>) {
    match drag_of(drags, r.pointer) {
        None => (drags, Seq::empty()),
        Some(g) => {
            let end = DragEvent::DragEnd { pointer: r.pointer, raycaster: g.raycaster, renderable: g.renderable };
            (
                drags_without(drags, r.pointer),
                if clicks(g, r, hits) {
                    seq![end, DragEvent::Click { pointer: r.pointer, raycaster: g.raycaster, target: g.click_renderable.unwrap() }]
                } else {
                    seq![end]
                },
            )
        },
    }
}

/// The releases applied in order.
pub open spec fn release_all(drags: Seq<DragGesture>, releases: Seq<TriggerRelease>, hits: Seq<GestureHit>) -> (Seq<DragGesture>, Seq<DragEvent>)
    decreases releases.len(),
{
    if releases.len() == 0 {
        (drags, Seq::empty())
    } else {
        let (d, e) = release_all(drags, releases.drop_last(), hits);
        let (d2, e2) = release_step(d, releases.last(), hits);
        (d2, e + e2)
    }
}

/// The trigger drags of all pointers, and how they keep moving.
pub struct DragTracker {
    pub drags: Vec<DragGesture>,
    pub drag_update_policy: DragUpdatePolicy,
}

fn find_drag(drags: &Vec<DragGesture>, pointer: ComponentId) -> (r: Option<DragGesture>)
    ensures
        r == drag_of(drags@, pointer),
{
    let mut r: Option<DragGesture> = None;
    let mut i: usize = 0;
    while i < drags.len()
        invariant
            i <= drags@.len(),
            r == drag_of(drags@.take(i as int), pointer),
        decreases drags@.len() - i,
    {
        proof {
            assert(drags@.take(i + 1).drop_last() =~= drags@.take(i as int));
        }
        if r.is_none() && drags[i].pointer == pointer {
            r = Some(drags[i]);
        }
        i += 1;
    }
    proof {
        assert(drags@.take(drags@.len() as int) =~= drags@);
    }
    r
}

fn drop_drag(drags: &Vec<DragGesture>, pointer: ComponentId) -> (r: Vec<DragGesture>)
    ensures
        r@ == drags_without(drags@, pointer),
{
    let mut r: Vec<DragGesture> = Vec::new();
    let mut i: usize = 0;
    while i < drags.len()
        invariant
            i <= drags@.len(),
            r@ == drags_without(drags@.take(i as int), pointer),
        decreases drags@.len() - i,
    {
        proof {
            assert(drags@.take(i + 1).drop_last() =~= drags@.take(i as int));
        }
        if drags[i].pointer != pointer {
            r.push(drags[i]);
        }
        i += 1;
    }
    proof {
        assert(drags@.take(drags@.len() as int) =~= drags@);
    }
    r
}

fn first_contact(hits: &Vec<GestureHit>, g: DragGesture) -> (r: Option<usize>)
    ensures
        match r {
            Some(i) => first_hit(hits@, contact_pred(g)) == Some(i as int),
            None => first_hit(hits@, contact_pred(g)) is None,
        },
{
    let ghost pred = contact_pred(g);
    let mut i: usize = 0;
    while i < hits.len()
        invariant
            i <= hits@.len(),
            pred == contact_pred(g),
            forall|j: int| 0 <= j < i ==> !pred(#[trigger] hits@[j]),
        decreases hits@.len() - i,
    {
        if hits[i].raycaster == g.raycaster && hits[i].renderable == g.renderable {
            proof {
                let k = choose|k: int| 0 <= k < hits@.len() && pred(#[trigger] hits@[k]) && forall|j: int| 0 <= j < k ==> !pred(#[trigger] hits@[j]);
                assert(pred(hits@[i as int]));
                if k < i {
                    assert(!pred(hits@[k]));
                } else if i < k {
                    assert(!pred(hits@[i as int]));
                }
            }
            return Some(i);
        }
        i += 1;
    }
    None
}

impl DragTracker {
    /// No drags, moving by target contact.
    pub fn new() -> (t: Self)
        ensures
            t.drags@ == Seq::<DragGesture>::empty(),
            t.drag_update_policy == DragUpdatePolicy::RequireTargetContact,
    {
        DragTracker { drags: Vec::new(), drag_update_policy: DragUpdatePolicy::RequireTargetContact }
    }

    /// Sets how screen-pointer drags keep moving.
    pub fn set_drag_update_policy(&mut self, policy: DragUpdatePolicy)
        ensures
            final(self).drags@ == old(self).drags@,
            final(self).drag_update_policy == policy,
    {
        self.drag_update_policy = policy;
    }

    /// The first active drag, for callers that follow a single pointer.
    pub fn state(&self) -> (r: Option<DragGesture>)
        ensures
            r == (if self.drags@.len() > 0 { Some(self.drags@[0]) } else { None::<DragGesture> }),
    {
        if self.drags.len() > 0 { Some(self.drags[0]) } else { None }
    }

    #[verifier::spinoff_prover]
    #[verifier::rlimit(80)]
    fn press_one(&mut self, p: TriggerPress, hits: &Vec<GestureHit>) -> (r: Option<DragEvent>)
        ensures
            (final(self).drags@, r) == start_step(old(self).drags@, p, hits@),
            final(self).drag_update_policy == old(self).drag_update_policy,
    {
        if p.grab_consumed || find_drag(&self.drags, p.pointer).is_some() {
            return None;
        }
        let rc = match p.raycaster {
            Some(rc) => rc,
            None => {
                return None;
            },
        };
        let controller = p.topology.has_controller_driver;
        let (drag, click) = select_press_hits(hits, rc, controller);
        let i = match drag {
            Some(i) => i,
            None => {
                proof {
                    assert(first_of(hits@, drag_pred(rc, controller)) is None) by {
                        reveal(first_of);
                    }
                }
                return None;
            },
        };
        let h = hits[i];
        let screen = !p.topology.has_controller_driver && !p.topology.has_xr_camera_anchor && !p.topology.has_xr_input_driver;
        let click_renderable = match click {
            Some(j) => Some(hits[j].renderable),
            None => None,
        };
        let g = DragGesture {
            pointer: p.pointer,
            raycaster: h.raycaster,
            renderable: h.renderable,
            click_renderable,
            press_class: if screen { GesturePointerClass::Desktop } else { GesturePointerClass::Spatial },
            screen_cursor: screen && p.cursor_known,
            xr_draggable: controller && h.draggable_owner.is_some(),
        };
        let ev = DragEvent::DragStart { pointer: p.pointer, drag_hit: i, click_hit: click };
        proof {
            assert(first_of(hits@, drag_pred(rc, controller)) == Some(i as int)) by {
                reveal(first_of);
            }
            assert(first_of(hits@, click_pred(rc)) == match click { Some(j) => Some(j as int), None => None::<int> }) by {
                reveal(first_of);
            }
            assert(screen == screen_pointer(p.topology));
        }
        self.drags.push(g);
        Some(ev)
    }

    /// Applies a frame's trigger presses in order against the frame's hits.
    pub fn press(&mut self, presses: &Vec<TriggerPress>, hits: &Vec<GestureHit>) -> (started: Vec<DragEvent>)
        ensures
            (final(self).drags@, started@) == start_all(old(self).drags@, presses@, hits@),
            final(self).drag_update_policy == old(self).drag_update_policy,
    {
        let mut started: Vec<DragEvent> = Vec::new();
        let mut k: usize = 0;
        while k < presses.len()
            invariant
                k <= presses@.len(),
                self.drag_update_policy == old(self).drag_update_policy,
                (self.drags@, started@) == start_all(old(self).drags@, presses@.take(k as int), hits@),
            decreases presses@.len() - k,
        {
            proof {
                assert(presses@.take(k + 1).drop_last() =~= presses@.take(k as int));
                assert(presses@.take(k + 1).last() == presses@[k as int]);
            }
            match self.press_one(presses[k], hits) {
                Some(e) => started.push(e),
                None => {},
            }
            k += 1;
        }
        proof {
            assert(presses@.take(presses@.len() as int) =~= presses@);
        }
        started
    }

    /// Where the next move of `pointer`'s drag comes from, under the
    /// tracker's policy (start-plane projection only for screen pointers
    /// that had a cursor at the press).
    pub fn move_source(&self, pointer: ComponentId, hits: &Vec<GestureHit>) -> (r: MoveSource)
        ensures
            r == move_source_spec(self.drags@, pointer, hits@, self.drag_update_policy),
    {
        match find_drag(&self.drags, pointer) {
            None => MoveSource::Idle,
            Some(g) => {
                if g.xr_draggable {
                    return MoveSource::Controller;
                }
                match effective_drag_policy(self.drag_update_policy, g.screen_cursor) {
                    DragUpdatePolicy::StartPlaneProjection => MoveSource::Projection,
                    DragUpdatePolicy::RequireTargetContact => match first_contact(hits, g) {
                        Some(i) => MoveSource::TargetHit(i),
                        None => MoveSource::NoContact,
                    },
                }
            },
        }
    }

    #[verifier::spinoff_prover]
    #[verifier::rlimit(80)]
    fn release_one(&mut self, r: TriggerRelease, hits: &Vec<GestureHit>, events: &mut Vec<DragEvent>)
        ensures
            final(self).drags@ == release_step(old(self).drags@, r, hits@).0,
            final(events)@ == old(events)@ + release_step(old(self).drags@, r, hits@).1,
            final(self).drag_update_policy == old(self).drag_update_policy,
    {
        let ghost e0 = events@;
        match find_drag(&self.drags, r.pointer) {
            None => {
                proof {
                    assert(events@ =~= e0 + Seq::<DragEvent>::empty());
                }
            },
            Some(g) => {
                let end = DragEvent::DragEnd { pointer: r.pointer, raycaster: g.raycaster, renderable: g.renderable };
                events.push(end);
                let (_, release_hit) = select_press_hits(hits, g.raycaster, false);
                proof {
                    assert(first_of(hits@, click_pred(g.raycaster)) == match release_hit { Some(j) => Some(j as int), None => None::<int> }) by {
                        reveal(first_of);
                    }
                }
                let click = match (g.click_renderable, release_hit) {
                    (Some(t), Some(j)) => hits[j].renderable == t && r.has_pointer_config && r.within_tolerance,
                    _ => false,
                };
                proof {
                    assert(click == clicks(g, r, hits@));
                }
                if click {
                    events.push(DragEvent::Click { pointer: r.pointer, raycaster: g.raycaster, target: g.click_renderable.unwrap() });
                    proof {
                        assert(events@ =~= e0 + seq![end, DragEvent::Click { pointer: r.pointer, raycaster: g.raycaster, target: g.click_renderable.unwrap() }]);
                    }
                } else {
                    proof {
                        assert(events@ =~= e0 + seq![end]);
                    }
                }
                self.drags = drop_drag(&self.drags, r.pointer);
            },
        }
    }

    /// Applies a frame's trigger releases in order: each ends its pointer's
    /// drag, clicking when `clicks` holds.
    pub fn release(&mut self, releases: &Vec<TriggerRelease>, hits: &Vec<GestureHit>) -> (events: Vec<DragEvent>)
        ensures
            (final(self).drags@, events@) == release_all(old(self).drags@, releases@, hits@),
            final(self).drag_update_policy == old(self).drag_update_policy,
    {
        let mut events: Vec<DragEvent> = Vec::new();
        let mut k: usize = 0;
        while k < releases.len()
            invariant
                k <= releases@.len(),
                self.drag_update_policy == old(self).drag_update_policy,
                (self.drags@, events@) == release_all(old(self).drags@, releases@.take(k as int), hits@),
            decreases releases@.len() - k,
        {
            proof {
                assert(releases@.take(k + 1).drop_last() =~= releases@.take(k as int));
                assert(releases@.take(k + 1).last() == releases@[k as int]);
            }
            self.release_one(releases[k], hits, &mut events);
            k += 1;
            proof {
                let (d, e) = release_all(old(self).drags@, releases@.take(k - 1), hits@);
                let (d2, e2) = release_step(d, releases@[k - 1], hits@);
                assert(release_all(old(self).drags@, releases@.take(k as int), hits@) == (d2, e + e2));
            }
        }
        proof {
            assert(releases@.take(releases@.len() as int) =~= releases@);
        }
        events
    }
}

} // verus!
