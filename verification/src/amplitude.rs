//! Main-thread retention of amplitude measurements: a bounded queue of
//! submitted snapshots, and a per-tick pass that binds each observer to its
//! audio source and keeps only current-generation measurements.
use vstd::prelude::*;
use std::collections::VecDeque;
use crate::components::{bumped, measured, AmplitudeComponent, AmplitudeSample, AmplitudeStatus, Component};
use crate::ids::ComponentId;
use crate::query::{resolve_component_ref_or, resolve_ref_or_spec, QueryRootMode};
use crate::grid_system::component_replaced;
use crate::world::World;

verus! {

/// Capacity of the snapshot queue; a full queue drops its oldest snapshot.
pub const MAX_PENDING_SNAPSHOTS: usize = 256;

/// A measurement of `source` for `observer`, awaiting validation.
#[derive(Debug, Clone, Copy, PartialEq, Eq, Structural)]
pub struct AmplitudeSnapshot {
    pub observer: ComponentId,
    pub source: ComponentId,
    pub sample: AmplitudeSample,
}

/// The source and generation an observer currently accepts measurements for.
#[derive(Debug, Clone, Copy, PartialEq, Eq, Structural)]
pub struct ConsumerState {
    pub source: ComponentId,
    pub generation: u64,
}

/// One observer and the measurements it accepts.
#[derive(Debug, Clone, Copy, PartialEq, Eq, Structural)]
pub struct Consumer {
    pub observer: ComponentId,
    pub state: ConsumerState,
}

/// Amplitude observation state owned by the main thread.
#[derive(Debug)]
pub struct AmplitudeSystem {
    pub consumers: Vec<Consumer>,
    pub pending: VecDeque<AmplitudeSnapshot>,
    pub dropped_snapshots: u64,
}

/// The state `consumers` records for `observer`; the last record wins.
pub open spec fn consumer_of(consumers: Seq<Consumer>, observer: ComponentId) -> Option<ConsumerState>
    decreases consumers.len(),
{
    if consumers.len() == 0 {
        None
    } else if consumers.last().observer == observer {
        Some(consumers.last().state)
    } else {
        consumer_of(consumers.drop_last(), observer)
    }
}

/// `id` is a live audio input, clip or oscillator.
pub open spec fn audio_source(w: &World, id: ComponentId) -> bool {
    match w.component_spec(id) {
        Some(Component::AudioInput) | Some(Component::AudioClip) | Some(Component::AudioOscillator) => true,
        _ => false,
    }
}

/// The source an observer reads: its cached source while that is still an
/// audio source, else its reference resolved from the world roots.
pub open spec fn source_for(w: &World, id: ComponentId, a: AmplitudeComponent) -> Option<ComponentId> {
    match a.resolved_source {
        Some(s) if audio_source(w, s) => Some(s),
        _ => match a.source {
            Some(r) => resolve_ref_or_spec(w, id, r@, QueryRootMode::WorldRoot),
            None => None,
        },
    }
}

/// The observer `a` at `id` after binding: its new value and the
/// measurements it now accepts.
pub open spec fn refreshed(w: &World, consumers: Seq<Consumer>, id: ComponentId, a: AmplitudeComponent) -> (AmplitudeComponent, Option<ConsumerState>) {
    let src = source_for(w, id, a);
    if !a.enabled || !(src matches Some(s) && audio_source(w, s)) {
        (if a.retained.status != AmplitudeStatus::Invalid { bumped(a, AmplitudeStatus::Invalid) } else { a }, None)
    } else {
        let s = src.unwrap();
        let a1 = AmplitudeComponent { resolved_source: Some(s), ..a };
        if consumer_of(consumers, id) != Some(ConsumerState { source: s, generation: a.generation }) {
            let a2 = bumped(a1, AmplitudeStatus::Pending);
            (a2, Some(ConsumerState { source: s, generation: a2.generation }))
        } else {
            (a1, Some(ConsumerState { source: s, generation: a.generation }))
        }
    }
}

/// The last snapshot in `s` for `observer`.
pub open spec fn newest_for(s: Seq<AmplitudeSnapshot>, observer: ComponentId) -> Option<AmplitudeSnapshot>
    decreases s.len(),
{
    if s.len() == 0 {
        None
    } else {
        match newest_for(s.drop_first(), observer) {
            Some(x) => Some(x),
            None => if s[0].observer == observer {
                Some(s[0])
            } else {
                None
            },
        }
    }
}

/// `a` after a snapshot is offered to it under `state`: retained when it
/// is a measurement (live or silent), of the accepted source and
/// generation, and not older than what is retained.
pub open spec fn offered(a: AmplitudeComponent, state: Option<ConsumerState>, snap: AmplitudeSnapshot) -> AmplitudeComponent {
    if state matches Some(c) && c.source == snap.source && c.generation == snap.sample.generation
        && measured(snap.sample.status) && snap.sample.sequence >= a.retained.sequence {
        AmplitudeComponent { retained: snap.sample, ..a }
    } else {
        a
    }
}

/// The component of `id` after a tick.
pub open spec fn ticked(w: &World, consumers: Seq<Consumer>, pending: Seq<AmplitudeSnapshot>, id: ComponentId) -> Option<Component> {
    match w.component_spec(id) {
        Some(Component::Amplitude(a)) => {
            let (a2, st) = refreshed(w, consumers, id, a);
            match newest_for(pending, id) {
                Some(snap) => Some(Component::Amplitude(offered(a2, st, snap))),
                None => Some(Component::Amplitude(a2)),
            }
        },
        other => other,
    }
}

/// The measurements `id` accepts after a tick.
pub open spec fn consumer_after(w: &World, consumers: Seq<Consumer>, id: ComponentId) -> Option<ConsumerState> {
    match w.component_spec(id) {
        Some(Component::Amplitude(a)) => refreshed(w, consumers, id, a).1,
        _ => None,
    }
}


/// What binding does to one observer: the source to cache, if any, and the
/// status of a fresh generation, if one is started.
#[derive(Debug, Clone, Copy, PartialEq, Eq, Structural)]
pub struct RefreshDecision {
    pub resolved: Option<ComponentId>,
    pub bump: Option<AmplitudeStatus>,
    pub consumer: Option<ConsumerState>,
}

/// `a` with a decision applied.
pub open spec fn apply_decision(a: AmplitudeComponent, d: RefreshDecision) -> AmplitudeComponent {
    let a1 = match d.resolved {
        Some(s) => AmplitudeComponent { resolved_source: Some(s), ..a },
        None => a,
    };
    match d.bump {
        Some(st) => bumped(a1, st),
        None => a1,
    }
}

fn is_audio_source(w: &World, id: ComponentId) -> (b: bool)
    ensures
        b == audio_source(w, id),
{
    match w.component(id) {
        Some(Component::AudioInput) | Some(Component::AudioClip) | Some(Component::AudioOscillator) => true,
        _ => false,
    }
}

fn contains_observer(v: &Vec<ComponentId>, x: ComponentId) -> (b: bool)
    ensures
        b <==> v@.contains(x),
{
    crate::world::contains_id(v, x)
}

fn lookup_consumer(consumers: &Vec<Consumer>, observer: ComponentId) -> (r: Option<ConsumerState>)
    ensures
        r == consumer_of(consumers@, observer),
{
    let mut i = consumers.len();
    proof {
        assert(consumers@.take(i as int) =~= consumers@);
    }
    while i > 0
        invariant
            i <= consumers@.len(),
            consumer_of(consumers@.take(i as int), observer) == consumer_of(consumers@, observer),
        decreases i,
    {
        proof {
            assert(consumers@.take(i as int).drop_last() =~= consumers@.take(i - 1));
        }
        if consumers[i - 1].observer == observer {
            return Some(consumers[i - 1].state);
        }
        i -= 1;
    }
    None
}


/// How binding changes the observer `a` at `id`.
fn decide(w: &World, consumers: &Vec<Consumer>, id: ComponentId, a: &AmplitudeComponent) -> (d: RefreshDecision)
    ensures
        apply_decision(*a, d) == refreshed(w, consumers@, id, *a).0,
        d.consumer == refreshed(w, consumers@, id, *a).1,
{
    let cached = match a.resolved_source {
        Some(s) => {
            if is_audio_source(w, s) {
                Some(s)
            } else {
                None
            }
        },
        None => None,
    };
    let src = match cached {
        Some(s) => Some(s),
        None => match &a.source {
            Some(r) => resolve_component_ref_or(w, id, r, QueryRootMode::WorldRoot),
            None => None,
        },
    };
    let valid = match src {
        Some(s) => is_audio_source(w, s),
        None => false,
    };
    if !a.enabled || !valid {
        let bump = match a.retained.status {
            AmplitudeStatus::Invalid => None,
            _ => Some(AmplitudeStatus::Invalid),
        };
        return RefreshDecision { resolved: None, bump, consumer: None };
    }
    let s = src.unwrap();
    let previous = lookup_consumer(consumers, id);
    let same = match previous {
        Some(c) => c.source == s && c.generation == a.generation,
        None => false,
    };
    if !same {
        let g = a.generation.wrapping_add(1);
        RefreshDecision { resolved: Some(s), bump: Some(AmplitudeStatus::Pending), consumer: Some(ConsumerState { source: s, generation: g }) }
    } else {
        RefreshDecision { resolved: Some(s), bump: None, consumer: Some(ConsumerState { source: s, generation: a.generation }) }
    }
}


fn apply_refresh(world: &mut World, id: ComponentId, d: RefreshDecision)
    requires
        old(world).component_spec(id) matches Some(Component::Amplitude(_)),
    ensures
        component_replaced(old(world), final(world), id,
            Component::Amplitude(apply_decision(old(world).component_spec(id)->Some_0->Amplitude_0, d))),
        old(world).links_ok() ==> final(world).links_ok(),
{
    let ghost w0 = *world;
    let prev = world.replace_component(id, Component::Renderable);
    let ghost w1 = *world;
    match prev {
        Some(Component::Amplitude(mut a)) => {
            match d.resolved {
                Some(s) => {
                    a.resolved_source = Some(s);
                },
                None => {},
            }
            match d.bump {
                Some(st) => {
                    a.bump_generation(st);
                },
                None => {},
            }
            let _ = world.replace_component(id, Component::Amplitude(a));
            proof {
                assert forall|x: ComponentId| x != id implies #[trigger] world.rec(x) == w0.rec(x) by {
                    assert(world.rec(x) == w1.rec(x));
                }
            }
        },
        _ => {},
    }
}

fn offer_snapshot(world: &mut World, id: ComponentId, state: Option<ConsumerState>, snap: AmplitudeSnapshot)
    requires
        old(world).component_spec(id) matches Some(Component::Amplitude(_)),
    ensures
        component_replaced(old(world), final(world), id,
            Component::Amplitude(offered(old(world).component_spec(id)->Some_0->Amplitude_0, state, snap))),
        old(world).links_ok() ==> final(world).links_ok(),
{
    let ghost w0 = *world;
    let prev = world.replace_component(id, Component::Renderable);
    let ghost w1 = *world;
    match prev {
        Some(Component::Amplitude(mut a)) => {
            let accept = match state {
                Some(c) => c.source == snap.source && c.generation == snap.sample.generation
                    && snap.sample.is_live() && snap.sample.sequence >= a.retained.sequence,
                None => false,
            };
            if accept {
                a.retained = snap.sample;
            }
            let _ = world.replace_component(id, Component::Amplitude(a));
            proof {
                assert forall|x: ComponentId| x != id implies #[trigger] world.rec(x) == w0.rec(x) by {
                    assert(world.rec(x) == w1.rec(x));
                }
            }
        },
        _ => {},
    }
}

/// What one submission does to the queue and the drop count: a full queue
/// first loses its oldest snapshot (counted, wrapping); the new one goes last.
pub open spec fn submit_effect(p: Seq<AmplitudeSnapshot>, d: u64, x: AmplitudeSnapshot, p2: Seq<AmplitudeSnapshot>, d2: u64) -> bool {
    if p.len() == MAX_PENDING_SNAPSHOTS {
        &&& p2 == p.drop_first().push(x)
        &&& d2 == (if d == u64::MAX { 0 } else { (d + 1) as u64 })
    } else {
        &&& p2 == p.push(x)
        &&& d2 == d
    }
}

/// Submitting `xs` one by one to an empty queue with nothing dropped keeps
/// the newest `MAX_PENDING_SNAPSHOTS` of them, oldest first, and counts
/// every other one as dropped. `pending[k]` and `dropped[k]` are the queue
/// and the count after `k` submissions.
pub proof fn submissions_keep_the_newest(xs: Seq<AmplitudeSnapshot>, pending: Seq<Seq<AmplitudeSnapshot>>, dropped: Seq<u64>)
    requires
        pending.len() == xs.len() + 1,
        dropped.len() == xs.len() + 1,
        xs.len() < u64::MAX,
        pending[0].len() == 0,
        dropped[0] == 0,
        forall|k: int| 0 <= k < xs.len() ==> #[trigger] submit_effect(pending[k], dropped[k], xs[k], pending[k + 1], dropped[k + 1]),
    ensures
        ({
            let n = xs.len() as int;
            let first = if n > MAX_PENDING_SNAPSHOTS { n - MAX_PENDING_SNAPSHOTS } else { 0 };
            &&& pending[n] == xs.subrange(first, n)
            &&& dropped[n] == first
        }),
    decreases xs.len(),
{
    let n = xs.len() as int;
    if n > 0 {
        let m = n - 1;
        submissions_keep_the_newest(xs.take(m), pending.take(m + 1), dropped.take(m + 1));
        assert(submit_effect(pending[m], dropped[m], xs[m], pending[n], dropped[n]));
        let first0 = if m > MAX_PENDING_SNAPSHOTS { m - MAX_PENDING_SNAPSHOTS } else { 0 };
        assert(pending[m] == xs.take(m).subrange(first0, m));
        assert(xs.take(m).subrange(first0, m) =~= xs.subrange(first0, m));
        if m >= MAX_PENDING_SNAPSHOTS {
            assert(xs.subrange(first0, m).drop_first().push(xs[m]) =~= xs.subrange(first0 + 1, n));
        } else {
            assert(xs.subrange(first0, m).push(xs[m]) =~= xs.subrange(first0, n));
        }
    } else {
        assert(pending[0] =~= xs.subrange(0, 0));
    }
}

impl AmplitudeSystem {
    /// The queue never holds more than its capacity.
    pub open spec fn wf(&self) -> bool {
        self.pending@.len() <= MAX_PENDING_SNAPSHOTS
    }

    /// No observers, an empty queue and nothing dropped.
    pub fn new() -> (s: Self)
        ensures
            s.wf(),
            s.consumers@.len() == 0,
            s.pending@.len() == 0,
            s.dropped_snapshots == 0,
    {
        AmplitudeSystem { consumers: Vec::new(), pending: VecDeque::new(), dropped_snapshots: 0 }
    }

    /// Queues a measurement; a full queue first drops its oldest one and
    /// counts the drop.
    pub fn submit_snapshot(&mut self, snapshot: AmplitudeSnapshot)
        requires
            old(self).wf(),
        ensures
            final(self).wf(),
            final(self).consumers@ == old(self).consumers@,
            submit_effect(old(self).pending@, old(self).dropped_snapshots, snapshot, final(self).pending@, final(self).dropped_snapshots),
    {
        if self.pending.len() == MAX_PENDING_SNAPSHOTS {
            let _ = self.pending.pop_front();
            self.dropped_snapshots = self.dropped_snapshots.wrapping_add(1);
        }
        self.pending.push_back(snapshot);
    }

    /// Binds every observer to its source (starting a fresh generation when
    /// the binding changes, invalidating one that has no valid source), then
    /// offers each observer the newest queued snapshot for it and empties
    /// the queue.
    pub fn tick(&mut self, world: &mut World)
        requires
            old(self).wf(),
        ensures
            final(self).wf(),
            final(self).pending@.len() == 0,
            final(self).dropped_snapshots == old(self).dropped_snapshots,
            final(world).slots() == old(world).slots(),
            old(world).links_ok() ==> final(world).links_ok(),
            forall|x: ComponentId| #[trigger] final(world).component_spec(x)
                == ticked(old(world), old(self).consumers@, old(self).pending@, x),
            forall|x: ComponentId| #[trigger] final(world).same_place(old(world), x),
            forall|x: ComponentId| #[trigger] consumer_of(final(self).consumers@, x)
                == consumer_after(old(world), old(self).consumers@, x),
    {
        let ghost w0 = *world;
        let ghost c0 = self.consumers@;
        let ghost p0 = self.pending@;
        let n = world.slot_count();
        let mut decisions: Vec<Option<RefreshDecision>> = Vec::new();
        let mut fresh: Vec<Consumer> = Vec::new();
        let mut i: usize = 0;
        while i < n
            invariant
                i <= n,
                n == w0.slots(),
                *world == w0,
                self.consumers@ == c0,
                self.dropped_snapshots == old(self).dropped_snapshots,
                self.pending@ == p0,
                decisions@.len() == i,
                forall|k: int| 0 <= k < i ==> match w0.component_spec(#[trigger] World::id_at(k)) {
                    Some(Component::Amplitude(a)) => decisions@[k] matches Some(d)
                        && apply_decision(a, d) == refreshed(&w0, c0, World::id_at(k), a).0
                        && d.consumer == refreshed(&w0, c0, World::id_at(k), a).1,
                    _ => decisions@[k] is None,
                },
                forall|x: ComponentId| #[trigger] consumer_of(fresh@, x)
                    == if x.index < i { consumer_after(&w0, c0, x) } else { None },
            decreases n - i,
        {
            let id = ComponentId { index: i as u64 };
            proof {
                assert(id == World::id_at(i as int));
            }
            let ghost before = fresh@;
            match world.component(id) {
                Some(Component::Amplitude(a)) => {
                    let d = decide(world, &self.consumers, id, a);
                    decisions.push(Some(d));
                    match d.consumer {
                        Some(st) => {
                            fresh.push(Consumer { observer: id, state: st });
                        },
                        None => {},
                    }
                },
                _ => {
                    decisions.push(None);
                },
            }
            proof {
                assert forall|x: ComponentId| #[trigger] consumer_of(fresh@, x)
                    == if x.index < i + 1 { consumer_after(&w0, c0, x) } else { None } by {
                    if fresh@ != before {
                        assert(fresh@.drop_last() =~= before);
                    }
                    if x.index == i {
                        assert(x == id);
                    }
                }
                assert forall|k: int| 0 <= k < i + 1 implies match w0.component_spec(#[trigger] World::id_at(k)) {
                    Some(Component::Amplitude(a)) => decisions@[k] matches Some(d)
                        && apply_decision(a, d) == refreshed(&w0, c0, World::id_at(k), a).0
                        && d.consumer == refreshed(&w0, c0, World::id_at(k), a).1,
                    _ => decisions@[k] is None,
                } by {
                }
            }
            i += 1;
        }
        let mut j: usize = 0;
        while j < n
            invariant
                j <= n,
                n == w0.slots(),
                decisions@.len() == n,
                self.dropped_snapshots == old(self).dropped_snapshots,
                self.pending@ == p0,
                forall|x: ComponentId| #[trigger] consumer_of(fresh@, x)
                    == if x.index < n { consumer_after(&w0, c0, x) } else { None },
                world.slots() == w0.slots(),
                w0.links_ok() ==> world.links_ok(),
                forall|k: int| 0 <= k < n ==> match w0.component_spec(#[trigger] World::id_at(k)) {
                    Some(Component::Amplitude(a)) => decisions@[k] matches Some(d)
                        && apply_decision(a, d) == refreshed(&w0, c0, World::id_at(k), a).0,
                    _ => decisions@[k] is None,
                },
                forall|x: ComponentId| #[trigger] world.same_place(&w0, x),
                forall|x: ComponentId| #[trigger] world.component_spec(x) == if x.index < j {
                    match w0.component_spec(x) {
                        Some(Component::Amplitude(a)) => Some(Component::Amplitude(refreshed(&w0, c0, x, a).0)),
                        other => other,
                    }
                } else {
                    w0.component_spec(x)
                },
            decreases n - j,
        {
            let id = ComponentId { index: j as u64 };
            proof {
                assert(id == World::id_at(j as int));
            }
            let ghost prev = *world;
            match decisions[j] {
                Some(d) => {
                    apply_refresh(world, id, d);
                },
                None => {},
            }
            proof {
                assert forall|x: ComponentId| #[trigger] world.same_place(&w0, x) by {
                    assert(prev.same_place(&w0, x));
                    if x != id {
                        assert(world.rec(x) == prev.rec(x));
                    }
                }
                assert forall|x: ComponentId| #[trigger] world.component_spec(x) == if x.index < j + 1 {
                    match w0.component_spec(x) {
                        Some(Component::Amplitude(a)) => Some(Component::Amplitude(refreshed(&w0, c0, x, a).0)),
                        other => other,
                    }
                } else {
                    w0.component_spec(x)
                } by {
                    assert(prev.component_spec(x) == if x.index < j {
                        match w0.component_spec(x) {
                            Some(Component::Amplitude(a)) => Some(Component::Amplitude(refreshed(&w0, c0, x, a).0)),
                            other => other,
                        }
                    } else {
                        w0.component_spec(x)
                    });
                    if x != id {
                        assert(world.rec(x) == prev.rec(x));
                    }
                }
            }
            j += 1;
        }
        let ghost w1 = *world;
        let mut snaps: Vec<AmplitudeSnapshot> = Vec::new();
        while self.pending.len() > 0
            invariant
                snaps@ + self.pending@ == p0,
                self.dropped_snapshots == old(self).dropped_snapshots,
            decreases self.pending@.len(),
        {
            let ghost before = self.pending@;
            match self.pending.pop_front() {
                Some(s) => {
                    snaps.push(s);
                    proof {
                        assert(snaps@ + self.pending@ =~= p0);
                    }
                },
                None => {},
            }
        }
        proof {
            assert(snaps@ =~= p0);
            assert forall|x: ComponentId| #[trigger] consumer_of(fresh@, x) == consumer_after(&w0, c0, x) by {
                if x.index >= n {
                    w0.lemma_live_in_range(x);
                }
            }
        }
        let m = snaps.len();
        let mut seen: Vec<ComponentId> = Vec::new();
        let mut k = m;
        proof {
            assert(snaps@.subrange(m as int, m as int) =~= Seq::<AmplitudeSnapshot>::empty());
        }
        while k > 0
            invariant
                k <= m,
                m == snaps@.len(),
                snaps@ == p0,
                world.slots() == w0.slots(),
                w0.links_ok() ==> world.links_ok(),
                forall|x: ComponentId| #[trigger] consumer_of(fresh@, x) == consumer_after(&w0, c0, x),
                self.dropped_snapshots == old(self).dropped_snapshots,
                self.pending@.len() == 0,
                forall|x: ComponentId| seen@.contains(x) <==> newest_for(snaps@.subrange(k as int, m as int), x) is Some,
                forall|x: ComponentId| #[trigger] world.same_place(&w0, x),
                forall|x: ComponentId| #[trigger] world.component_spec(x) == match newest_for(snaps@.subrange(k as int, m as int), x) {
                    Some(snap) => match w1.component_spec(x) {
                        Some(Component::Amplitude(a)) => Some(Component::Amplitude(offered(a, consumer_after(&w0, c0, x), snap))),
                        other => other,
                    },
                    None => w1.component_spec(x),
                },
            decreases k,
        {
            let snap = snaps[k - 1];
            let o = snap.observer;
            let ghost prev = *world;
            let ghost suffix = snaps@.subrange(k - 1, m as int);
            proof {
                assert(suffix.drop_first() =~= snaps@.subrange(k as int, m as int));
                assert(suffix[0] == snap);
            }
            if !contains_observer(&seen, o) {
                proof {
                    assert(newest_for(suffix, o) == Some(snap));
                }
                let is_amp = match world.component(o) {
                    Some(Component::Amplitude(_)) => true,
                    _ => false,
                };
                if is_amp {
                    let st = lookup_consumer(&fresh, o);
                    offer_snapshot(world, o, st, snap);
                }
                let ghost seen_before = seen@;
                seen.push(o);
                proof {
                    assert(seen@.drop_last() =~= seen_before);
                    assert(seen@[seen@.len() - 1] == o);
                    assert forall|x: ComponentId| #[trigger] world.same_place(&w0, x) by {
                        assert(prev.same_place(&w0, x));
                        if x != o && is_amp {
                            assert(world.rec(x) == prev.rec(x));
                        }
                    }
                    assert forall|x: ComponentId| seen@.contains(x) <==> newest_for(suffix, x) is Some by {
                        if x != o {
                            assert(newest_for(suffix, x) == newest_for(snaps@.subrange(k as int, m as int), x));
                            if seen@.contains(x) {
                                let q = choose|q: int| 0 <= q < seen@.len() && #[trigger] seen@[q] == x;
                                assert(seen_before[q] == x);
                                assert(seen_before.contains(x));
                                assert(newest_for(snaps@.subrange(k as int, m as int), x) is Some);
                            }
                            if newest_for(snaps@.subrange(k as int, m as int), x) is Some {
                                assert(seen_before.contains(x));
                                let q = choose|q: int| 0 <= q < seen_before.len() && #[trigger] seen_before[q] == x;
                                assert(seen@[q] == x);
                            }
                        } else {
                            assert(seen@[seen@.len() - 1] == o);
                            assert(newest_for(suffix, o) == Some(snap));
                        }
                    }
                    assert forall|x: ComponentId| #[trigger] world.component_spec(x) == match newest_for(suffix, x) {
                        Some(snap) => match w1.component_spec(x) {
                            Some(Component::Amplitude(a)) => Some(Component::Amplitude(offered(a, consumer_after(&w0, c0, x), snap))),
                            other => other,
                        },
                        None => w1.component_spec(x),
                    } by {
                        if x != o {
                            if is_amp {
                                assert(world.rec(x) == prev.rec(x));
                            }
                            assert(prev.component_spec(x) == world.component_spec(x));
                            assert(newest_for(suffix, x) == newest_for(snaps@.subrange(k as int, m as int), x));
                        } else {
                            assert(!seen_before.contains(o));
                            assert(newest_for(snaps@.subrange(k as int, m as int), o) is None);
                            assert(prev.component_spec(o) == w1.component_spec(o));
                            assert(newest_for(suffix, o) == Some(snap));
                            if is_amp {
                                let a = w1.component_spec(o)->Some_0->Amplitude_0;
                                assert(consumer_of(fresh@, o) == consumer_after(&w0, c0, o));
                                assert(world.component_spec(o) == Some(Component::Amplitude(offered(a, consumer_after(&w0, c0, o), snap))));
                            } else {
                                assert(world.component_spec(o) == prev.component_spec(o));
                            }
                        }
                    }
                }
            } else {
                proof {
                    assert forall|x: ComponentId| seen@.contains(x) <==> newest_for(suffix, x) is Some by {
                    }
                }
            }
            k -= 1;
        }
        proof {
            assert(snaps@.subrange(0, m as int) =~= snaps@);
        }
        self.consumers = fresh;
        proof {
            assert forall|x: ComponentId| #[trigger] world.component_spec(x)
                == ticked(&w0, c0, p0, x) by {
                if x.index >= w0.slots() {
                    w0.lemma_live_in_range(x);
                }
            }
        }
    }

    /// Number of snapshots dropped from a full queue, wrapping.
    pub fn dropped_snapshots(&self) -> (n: u64)
        ensures
            n == self.dropped_snapshots,
    {
        self.dropped_snapshots
    }
}

} // verus!
