//! One frame of an OSC eye tracker: merging the packets that arrived since
//! the last frame into the retained sample, numbering the samples handed
//! to the scene, and choosing each eye's gaze.
//!
//! Gaze vectors and closure amounts are the caller's values (`L` and `C`);
//! the library only decides which of them survive and where they go.
use vstd::prelude::*;
use crate::eye_packets::complete_eye_pair;

verus! {

/// The latest value of every OSC field, kept across independent packets.
#[derive(Debug, Clone, Copy, PartialEq, Eq)]
pub struct StandardEyeSample<L, C> {
    pub combined_look: Option<L>,
    pub left_look: Option<L>,
    pub right_look: Option<L>,
    pub combined_openness: Option<C>,
}

/// What one decoded OSC packet carries.
#[derive(Debug, Clone, Copy, PartialEq, Eq)]
pub struct OscEyeUpdate<L, C> {
    pub combined_look: Option<L>,
    pub left_look: Option<L>,
    pub right_look: Option<L>,
    pub combined_openness: Option<C>,
}

/// The outcome of merging a frame's packets.
#[derive(Debug, Clone, Copy, PartialEq, Eq)]
pub struct MergedEyeFrame<L, C> {
    pub sample: StandardEyeSample<L, C>,
    /// Some packet decoded.
    pub received_update: bool,
    /// Some packet carried a gaze vector.
    pub received_gaze: bool,
    /// Some packet carried a closure amount.
    pub received_closure: bool,
}

pub open spec fn newer<T>(old: Option<T>, new: Option<T>) -> Option<T> {
    if new is Some { new } else { old }
}

/// One packet merged in: each field it carries replaces the retained one;
/// a packet that did not decode changes nothing.
pub open spec fn merge_packet<L, C>(m: MergedEyeFrame<L, C>, p: Option<OscEyeUpdate<L, C>>) -> MergedEyeFrame<L, C> {
    match p {
        None => m,
        Some(u) => MergedEyeFrame {
            sample: StandardEyeSample {
                combined_look: newer(m.sample.combined_look, u.combined_look),
                left_look: newer(m.sample.left_look, u.left_look),
                right_look: newer(m.sample.right_look, u.right_look),
                combined_openness: newer(m.sample.combined_openness, u.combined_openness),
            },
            received_update: true,
            received_gaze: m.received_gaze || u.combined_look is Some || u.left_look is Some || u.right_look is Some,
            received_closure: m.received_closure || u.combined_openness is Some,
        },
    }
}

/// The packets merged in arrival order, starting from `sample` with no flag set.
pub open spec fn merge_spec<L, C>(sample: StandardEyeSample<L, C>, packets: Seq<Option<OscEyeUpdate<L, C>>>) -> MergedEyeFrame<L, C>
    decreases packets.len(),
{
    if packets.len() == 0 {
        MergedEyeFrame { sample, received_update: false, received_gaze: false, received_closure: false }
    } else {
        merge_packet(merge_spec(sample, packets.drop_last()), packets.last())
    }
}

/// Merges the packets of one frame (`None` for one that did not decode)
/// into the retained sample.
pub fn merge_osc_packets<L: Copy, C: Copy>(sample: StandardEyeSample<L, C>, packets: &Vec<Option<OscEyeUpdate<L, C>>>) -> (r: MergedEyeFrame<L, C>)
    ensures
        r == merge_spec(sample, packets@),
{
    let mut m = MergedEyeFrame { sample, received_update: false, received_gaze: false, received_closure: false };
    let mut i: usize = 0;
    while i < packets.len()
        invariant
            i <= packets@.len(),
            m == merge_spec(sample, packets@.take(i as int)),
        decreases packets@.len() - i,
    {
        proof {
            assert(packets@.take(i + 1).drop_last() =~= packets@.take(i as int));
        }
        match packets[i] {
            None => {},
            Some(u) => {
                let mut s = m.sample;
                if u.combined_look.is_some() {
                    s.combined_look = u.combined_look;
                }
                if u.left_look.is_some() {
                    s.left_look = u.left_look;
                }
                if u.right_look.is_some() {
                    s.right_look = u.right_look;
                }
                if u.combined_openness.is_some() {
                    s.combined_openness = u.combined_openness;
                }
                m = MergedEyeFrame {
                    sample: s,
                    received_update: true,
                    received_gaze: m.received_gaze || u.combined_look.is_some() || u.left_look.is_some() || u.right_look.is_some(),
                    received_closure: m.received_closure || u.combined_openness.is_some(),
                };
            },
        }
        i += 1;
    }
    proof {
        assert(packets@.take(packets@.len() as int) =~= packets@);
    }
    m
}

/// Packet `i` decoded and carries the field that `get` reads.
pub open spec fn carries<L, C, T>(packets: Seq<Option<OscEyeUpdate<L, C>>>, i: int, get: spec_fn(OscEyeUpdate<L, C>) -> Option<T>) -> bool {
    packets[i] matches Some(u) && get(u) is Some
}

/// After merging, the field read by `get` (on packets) and `field` (on
/// samples) holds the value of the last packet that carried it, or the
/// retained value when none did.
pub open spec fn holds_latest<L, C, T>(
    sample: StandardEyeSample<L, C>,
    packets: Seq<Option<OscEyeUpdate<L, C>>>,
    merged: StandardEyeSample<L, C>,
    get: spec_fn(OscEyeUpdate<L, C>) -> Option<T>,
    field: spec_fn(StandardEyeSample<L, C>) -> Option<T>,
) -> bool {
    &&& (forall|i: int| 0 <= i < packets.len() ==> !carries(packets, i, get)) ==> field(merged) == field(sample)
    &&& forall|i: int| 0 <= i < packets.len() && carries(packets, i, get)
        && (forall|j: int| i < j < packets.len() ==> !carries(packets, j, get))
        ==> field(merged) == get(packets[i].unwrap())
}

proof fn lemma_latest<L, C, T>(
    sample: StandardEyeSample<L, C>,
    packets: Seq<Option<OscEyeUpdate<L, C>>>,
    get: spec_fn(OscEyeUpdate<L, C>) -> Option<T>,
    field: spec_fn(StandardEyeSample<L, C>) -> Option<T>,
)
    requires
        forall|m: MergedEyeFrame<L, C>, p: Option<OscEyeUpdate<L, C>>| #[trigger] field(merge_packet(m, p).sample) == match p {
            Some(u) => if get(u) is Some { get(u) } else { field(m.sample) },
            None => field(m.sample),
        },
    ensures
        holds_latest(sample, packets, merge_spec(sample, packets).sample, get, field),
    decreases packets.len(),
{
    if packets.len() > 0 {
        let q = packets.drop_last();
        let n = packets.len() - 1;
        lemma_latest(sample, q, get, field);
        let before = merge_spec(sample, q);
        assert(merge_spec(sample, packets) == merge_packet(before, packets.last()));
        assert(field(merge_spec(sample, packets).sample) == match packets.last() {
            Some(u) => if get(u) is Some { get(u) } else { field(before.sample) },
            None => field(before.sample),
        });
        assert forall|i: int| 0 <= i < q.len() implies carries(q, i, get) == carries(packets, i, get) by {
            assert(q[i] == packets[i]);
        }
        if !carries(packets, n, get) {
            assert(packets[n] == packets.last());
        } else {
            assert(packets[n] == packets.last());
            assert forall|i: int| 0 <= i < packets.len() && carries(packets, i, get)
                && (forall|j: int| i < j < packets.len() ==> !carries(packets, j, get)) implies i == n by {
                if i < n {
                    assert(!carries(packets, n, get));
                }
            }
        }
    }
}

/// Merging keeps, for each field, the value of the last packet that
/// carried it (or the retained value when none did); it reports an update
/// exactly when some packet decoded, gaze exactly when some packet carried
/// a gaze direction, and closure exactly when some packet carried closure.
pub proof fn merging_keeps_the_latest_of_each_field<L, C>(sample: StandardEyeSample<L, C>, packets: Seq<Option<OscEyeUpdate<L, C>>>)
    ensures
        ({
            let m = merge_spec(sample, packets);
            &&& holds_latest(sample, packets, m.sample, |u: OscEyeUpdate<L, C>| u.combined_look, |s: StandardEyeSample<L, C>| s.combined_look)
            &&& holds_latest(sample, packets, m.sample, |u: OscEyeUpdate<L, C>| u.left_look, |s: StandardEyeSample<L, C>| s.left_look)
            &&& holds_latest(sample, packets, m.sample, |u: OscEyeUpdate<L, C>| u.right_look, |s: StandardEyeSample<L, C>| s.right_look)
            &&& holds_latest(sample, packets, m.sample, |u: OscEyeUpdate<L, C>| u.combined_openness, |s: StandardEyeSample<L, C>| s.combined_openness)
            &&& m.received_update == exists|i: int| 0 <= i < packets.len() && #[trigger] packets[i] is Some
            &&& m.received_gaze == exists|i: int| 0 <= i < packets.len() && (#[trigger] packets[i] matches Some(u)
                && (u.combined_look is Some || u.left_look is Some || u.right_look is Some))
            &&& m.received_closure == exists|i: int| 0 <= i < packets.len() && (#[trigger] packets[i] matches Some(u) && u.combined_openness is Some)
        }),
{
    lemma_latest(sample, packets, |u: OscEyeUpdate<L, C>| u.combined_look, |s: StandardEyeSample<L, C>| s.combined_look);
    lemma_latest(sample, packets, |u: OscEyeUpdate<L, C>| u.left_look, |s: StandardEyeSample<L, C>| s.left_look);
    lemma_latest(sample, packets, |u: OscEyeUpdate<L, C>| u.right_look, |s: StandardEyeSample<L, C>| s.right_look);
    lemma_latest(sample, packets, |u: OscEyeUpdate<L, C>| u.combined_openness, |s: StandardEyeSample<L, C>| s.combined_openness);
    lemma_flags(sample, packets);
}

proof fn lemma_flags<L, C>(sample: StandardEyeSample<L, C>, packets: Seq<Option<OscEyeUpdate<L, C>>>)
    ensures
        ({
            let m = merge_spec(sample, packets);
            &&& m.received_update == exists|i: int| 0 <= i < packets.len() && #[trigger] packets[i] is Some
            &&& m.received_gaze == exists|i: int| 0 <= i < packets.len() && (#[trigger] packets[i] matches Some(u)
                && (u.combined_look is Some || u.left_look is Some || u.right_look is Some))
            &&& m.received_closure == exists|i: int| 0 <= i < packets.len() && (#[trigger] packets[i] matches Some(u) && u.combined_openness is Some)
        }),
    decreases packets.len(),
{
    if packets.len() > 0 {
        let q = packets.drop_last();
        let n = packets.len() - 1;
        lemma_flags(sample, q);
        assert(packets[n] == packets.last());
        assert forall|i: int| 0 <= i < q.len() implies q[i] == packets[i] by {}
        if exists|i: int| 0 <= i < q.len() && #[trigger] q[i] is Some {
            let i = choose|i: int| 0 <= i < q.len() && #[trigger] q[i] is Some;
            assert(packets[i] is Some);
        }
        if exists|i: int| 0 <= i < q.len() && (#[trigger] q[i] matches Some(u)
            && (u.combined_look is Some || u.left_look is Some || u.right_look is Some)) {
            let i = choose|i: int| 0 <= i < q.len() && (#[trigger] q[i] matches Some(u)
                && (u.combined_look is Some || u.left_look is Some || u.right_look is Some));
            assert(packets[i] == q[i]);
        }
        if exists|i: int| 0 <= i < q.len() && (#[trigger] q[i] matches Some(u) && u.combined_openness is Some) {
            let i = choose|i: int| 0 <= i < q.len() && (#[trigger] q[i] matches Some(u) && u.combined_openness is Some);
            assert(packets[i] == q[i]);
        }
        if exists|i: int| 0 <= i < packets.len() && #[trigger] packets[i] is Some {
            let i = choose|i: int| 0 <= i < packets.len() && #[trigger] packets[i] is Some;
            if i < n {
                assert(q[i] is Some);
            }
        }
        if exists|i: int| 0 <= i < packets.len() && (#[trigger] packets[i] matches Some(u)
            && (u.combined_look is Some || u.left_look is Some || u.right_look is Some)) {
            let i = choose|i: int| 0 <= i < packets.len() && (#[trigger] packets[i] matches Some(u)
                && (u.combined_look is Some || u.left_look is Some || u.right_look is Some));
            if i < n {
                assert(q[i] == packets[i]);
            }
        }
        if exists|i: int| 0 <= i < packets.len() && (#[trigger] packets[i] matches Some(u) && u.combined_openness is Some) {
            let i = choose|i: int| 0 <= i < packets.len() && (#[trigger] packets[i] matches Some(u) && u.combined_openness is Some);
            if i < n {
                assert(q[i] == packets[i]);
            }
        }
    }
}

/// The sequence number after `x`, wrapping.
pub open spec fn next_sequence_spec(x: u64) -> u64 {
    if x == u64::MAX { 0 } else { (x + 1) as u64 }
}

/// What a frame hands to the scene, by sequence number.
#[derive(Debug, Clone, Copy, PartialEq, Eq, Structural)]
pub struct EyeFramePlan {
    /// The receive counter after the frame.
    pub sequence: u64,
    /// The sequence of the gaze sample to store, when gaze arrived.
    pub gaze_sequence: Option<u64>,
    /// The sequence of the closure sample to store, when closure arrived.
    pub closure_sequence: Option<u64>,
    /// An update event goes to the tracker (and its selector).
    pub emit: bool,
}

/// Numbers a frame's samples: nothing happens without an update; otherwise
/// a gaze sample takes the next number, then a closure sample the one after.
pub open spec fn plan_frame_spec(sequence: u64, m_update: bool, m_gaze: bool, m_closure: bool) -> EyeFramePlan {
    if !m_update {
        EyeFramePlan { sequence, gaze_sequence: None, closure_sequence: None, emit: false }
    } else {
        let g = if m_gaze { next_sequence_spec(sequence) } else { sequence };
        let c = if m_closure { next_sequence_spec(g) } else { g };
        EyeFramePlan {
            sequence: c,
            gaze_sequence: if m_gaze { Some(g) } else { None },
            closure_sequence: if m_closure { Some(c) } else { None },
            emit: true,
        }
    }
}

fn next_sequence(x: u64) -> (r: u64)
    ensures
        r == next_sequence_spec(x),
{
    if x == u64::MAX { 0 } else { x + 1 }
}

/// Numbers the samples of a merged frame from the receive counter.
pub fn plan_frame<L: Copy, C: Copy>(sequence: u64, m: &MergedEyeFrame<L, C>) -> (r: EyeFramePlan)
    ensures
        r == plan_frame_spec(sequence, m.received_update, m.received_gaze, m.received_closure),
{
    if !m.received_update {
        return EyeFramePlan { sequence, gaze_sequence: None, closure_sequence: None, emit: false };
    }
    let g = if m.received_gaze { next_sequence(sequence) } else { sequence };
    let c = if m.received_closure { next_sequence(g) } else { g };
    EyeFramePlan {
        sequence: c,
        gaze_sequence: if m.received_gaze { Some(g) } else { None },
        closure_sequence: if m.received_closure { Some(c) } else { None },
        emit: true,
    }
}

/// Each eye's gaze, from that eye's own direction or else the combined one
/// (each `None` when it is not usable), and then one eye's for both when
/// only one is known. `None` when neither eye has a gaze.
pub open spec fn gaze_pair_spec<L>(left: Option<L>, right: Option<L>, combined: Option<L>) -> Option<(L, L)> {
    let l = if left is Some { left } else { combined };
    let r = if right is Some { right } else { combined };
    match (l, r) {
        (Some(a), Some(b)) => Some((a, b)),
        (Some(a), None) => Some((a, a)),
        (None, Some(b)) => Some((b, b)),
        (None, None) => None,
    }
}

/// Chooses the pair of gaze directions of a sample.
pub fn gaze_pair<L: Copy>(left: Option<L>, right: Option<L>, combined: Option<L>) -> (r: Option<(L, L)>)
    ensures
        r == gaze_pair_spec(left, right, combined),
{
    let l = if left.is_some() { left } else { combined };
    let r = if right.is_some() { right } else { combined };
    match complete_eye_pair(l, r) {
        (Some(a), Some(b)) => Some((a, b)),
        _ => None,
    }
}

} // verus!
