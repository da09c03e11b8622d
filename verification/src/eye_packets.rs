//! Wire formats of eye-tracking input: VRChat eye OSC messages and the
//! fixed ALVR HTC packet. Decoding stops at the raw single-precision bit
//! patterns; only finite values are passed on.
use vstd::prelude::*;
use crate::planar_transparency::f32_finite;

verus! {

/// The eye OSC messages that are understood, by address and argument tags.
#[derive(Debug, Clone, Copy, PartialEq, Eq, Structural)]
pub enum OscEyeMessage {
    /// Eye closure, one value: 0 open, 1 closed.
    EyesClosedAmount,
    /// Combined gaze vector, three values.
    CenterVec,
    /// Left gaze vector, three values.
    LeftEyeVec,
    /// Right gaze vector, three values.
    RightEyeVec,
    /// Left then right gaze vectors, six values.
    LeftRightVec,
    /// Combined pitch and yaw, two values.
    CenterPitchYaw,
    /// Left pitch, yaw, then right pitch, yaw, four values.
    LeftRightPitchYaw,
}

/// The bytes of an ASCII text.
pub open spec fn ascii_bytes(s: Seq<char>) -> Seq<u8> {
    Seq::new(s.len(), |i: int| s[i] as u8)
}

/// The message that address `addr` and tag string `tags` name, with the
/// number of single-precision arguments it carries.
pub open spec fn osc_message(addr: Seq<u8>, tags: Seq<u8>) -> Option<(OscEyeMessage, nat)> {
    if (addr == ascii_bytes("/avatar/parameters/EyesClosedAmount"@) || addr == ascii_bytes(
        "/tracking/eye/EyesClosedAmount"@,
    )) && tags == ascii_bytes(",f"@) {
        Some((OscEyeMessage::EyesClosedAmount, 1))
    } else if addr == ascii_bytes("/tracking/eye/CenterVec"@) && tags == ascii_bytes(",fff"@) {
        Some((OscEyeMessage::CenterVec, 3))
    } else if addr == ascii_bytes("/tracking/eye/LeftEyeVec"@) && tags == ascii_bytes(",fff"@) {
        Some((OscEyeMessage::LeftEyeVec, 3))
    } else if addr == ascii_bytes("/tracking/eye/RightEyeVec"@) && tags == ascii_bytes(",fff"@) {
        Some((OscEyeMessage::RightEyeVec, 3))
    } else if addr == ascii_bytes("/tracking/eye/LeftRightVec"@) && tags == ascii_bytes(",ffffff"@) {
        Some((OscEyeMessage::LeftRightVec, 6))
    } else if addr == ascii_bytes("/tracking/eye/CenterPitchYaw"@) && tags == ascii_bytes(",ff"@) {
        Some((OscEyeMessage::CenterPitchYaw, 2))
    } else if addr == ascii_bytes("/tracking/eye/LeftRightPitchYaw"@) && tags == ascii_bytes(",ffff"@) {
        Some((OscEyeMessage::LeftRightPitchYaw, 4))
    } else {
        None
    }
}

/// `e` is the first NUL byte of `b` at or after `i`.
pub open spec fn first_nul_at(b: Seq<u8>, i: int, e: int) -> bool {
    &&& 0 <= i <= e < b.len()
    &&& b[e] == 0
    &&& forall|k: int| i <= k < e ==> #[trigger] b[k] != 0
}

/// The end of the NUL-terminated string at `i`, if it is terminated.
pub open spec fn osc_string_end(b: Seq<u8>, i: int) -> Option<int> {
    if exists|e: int| first_nul_at(b, i, e) {
        Some(choose|e: int| first_nul_at(b, i, e))
    } else {
        None
    }
}

/// Where the next OSC field starts after a string ending at `e`: past the
/// terminator, rounded up to a multiple of four.
pub open spec fn osc_next(e: int) -> int {
    ((e + 4) / 4) * 4
}

/// The big-endian 32-bit value at `i`.
pub open spec fn be_u32(b: Seq<u8>, i: int) -> u32 {
    (b[i] as int * 0x100_0000 + b[i + 1] as int * 0x1_0000 + b[i + 2] as int * 0x100 + b[i + 3] as int) as u32
}

/// The little-endian 32-bit value at `i`.
pub open spec fn le_u32(b: Seq<u8>, i: int) -> u32 {
    (b[i] as int + b[i + 1] as int * 0x100 + b[i + 2] as int * 0x1_0000 + b[i + 3] as int * 0x100_0000) as u32
}

/// The `n` big-endian arguments at `start`, when all are present and finite.
pub open spec fn osc_arguments(b: Seq<u8>, start: int, n: nat) -> Option<Seq<u32>> {
    if start + 4 * n <= b.len() && forall|k: int| 0 <= k < n ==> f32_finite(#[trigger] be_u32(b, start + 4 * k)) {
        Some(Seq::new(n, |k: int| be_u32(b, start + 4 * k)))
    } else {
        None
    }
}

/// An OSC packet: a NUL-terminated address and tag string, each padded to
/// four bytes, then the big-endian arguments. Trailing bytes are ignored.
pub open spec fn decode_osc_spec(b: Seq<u8>) -> Option<(OscEyeMessage, Seq<u32>)> {
    match osc_string_end(b, 0) {
        None => None,
        Some(e1) => match osc_string_end(b, osc_next(e1)) {
            None => None,
            Some(e2) => match osc_message(b.subrange(0, e1), b.subrange(osc_next(e1), e2)) {
                None => None,
                Some((kind, n)) => match osc_arguments(b, osc_next(e2), n) {
                    None => None,
                    Some(values) => Some((kind, values)),
                },
            },
        },
    }
}

proof fn lemma_first_nul_unique(b: Seq<u8>, i: int, e: int, f: int)
    requires
        first_nul_at(b, i, e),
        first_nul_at(b, i, f),
    ensures
        e == f,
{
    if e < f {
        assert(b[e] != 0);
    } else if f < e {
        assert(b[f] != 0);
    }
}

/// Finds the end of the NUL-terminated string at `i`.
fn osc_string_end_exec(b: &[u8], i: usize) -> (r: Option<usize>)
    ensures
        match r {
            Some(e) => osc_string_end(b@, i as int) == Some(e as int),
            None => osc_string_end(b@, i as int) is None,
        },
{
    let mut k = i;
    while k < b.len()
        invariant
            i <= k,
            forall|q: int| i <= q < k && q < b@.len() ==> #[trigger] b@[q] != 0,
        decreases b@.len() - k,
    {
        if b[k] == 0 {
            proof {
                assert(first_nul_at(b@, i as int, k as int));
                assert forall|f: int| first_nul_at(b@, i as int, f) implies f == k by {
                    lemma_first_nul_unique(b@, i as int, f, k as int);
                }
            }
            return Some(k);
        }
        k += 1;
    }
    proof {
        assert forall|e: int| !first_nul_at(b@, i as int, e) by {
            if first_nul_at(b@, i as int, e) {
                assert(b@[e] != 0);
            }
        }
    }
    None
}

/// The bytes from `lo` to `hi` equal the ASCII text `s`.
fn bytes_equal_ascii(b: &[u8], lo: usize, hi: usize, s: &str) -> (r: bool)
    requires
        lo <= hi <= b@.len(),
    ensures
        r == (b@.subrange(lo as int, hi as int) == ascii_bytes(s@)),
{
    let n = s.unicode_len();
    if hi - lo != n {
        proof {
            assert(b@.subrange(lo as int, hi as int).len() != ascii_bytes(s@).len());
        }
        return false;
    }
    let mut k: usize = 0;
    while k < n
        invariant
            k <= n,
            n == s@.len(),
            hi - lo == n,
            lo <= hi <= b@.len(),
            forall|q: int| 0 <= q < k ==> #[trigger] b@[lo + q] == (s@[q] as u8),
        decreases n - k,
    {
        let c = s.get_char(k);
        if b[lo + k] != c as u8 {
            proof {
                assert(b@.subrange(lo as int, hi as int)[k as int] != ascii_bytes(s@)[k as int]);
            }
            return false;
        }
        k += 1;
    }
    proof {
        assert forall|q: int| 0 <= q < n implies b@.subrange(lo as int, hi as int)[q] == ascii_bytes(s@)[q] by {
            assert(b@[lo + q] == (s@[q] as u8));
        }
        assert(b@.subrange(lo as int, hi as int) =~= ascii_bytes(s@));
    }
    true
}

fn osc_message_exec(b: &[u8], a0: usize, a1: usize, t0: usize, t1: usize) -> (r: Option<(OscEyeMessage, usize)>)
    requires
        a0 <= a1 <= b@.len(),
        t0 <= t1 <= b@.len(),
    ensures
        match r {
            Some((kind, n)) => osc_message(b@.subrange(a0 as int, a1 as int), b@.subrange(t0 as int, t1 as int))
                == Some((kind, n as nat)),
            None => osc_message(b@.subrange(a0 as int, a1 as int), b@.subrange(t0 as int, t1 as int)) is None,
        },
{
    if (bytes_equal_ascii(b, a0, a1, "/avatar/parameters/EyesClosedAmount") || bytes_equal_ascii(
        b,
        a0,
        a1,
        "/tracking/eye/EyesClosedAmount",
    )) && bytes_equal_ascii(b, t0, t1, ",f") {
        Some((OscEyeMessage::EyesClosedAmount, 1))
    } else if bytes_equal_ascii(b, a0, a1, "/tracking/eye/CenterVec") && bytes_equal_ascii(b, t0, t1, ",fff") {
        Some((OscEyeMessage::CenterVec, 3))
    } else if bytes_equal_ascii(b, a0, a1, "/tracking/eye/LeftEyeVec") && bytes_equal_ascii(b, t0, t1, ",fff") {
        Some((OscEyeMessage::LeftEyeVec, 3))
    } else if bytes_equal_ascii(b, a0, a1, "/tracking/eye/RightEyeVec") && bytes_equal_ascii(b, t0, t1, ",fff") {
        Some((OscEyeMessage::RightEyeVec, 3))
    } else if bytes_equal_ascii(b, a0, a1, "/tracking/eye/LeftRightVec") && bytes_equal_ascii(b, t0, t1, ",ffffff") {
        Some((OscEyeMessage::LeftRightVec, 6))
    } else if bytes_equal_ascii(b, a0, a1, "/tracking/eye/CenterPitchYaw") && bytes_equal_ascii(b, t0, t1, ",ff") {
        Some((OscEyeMessage::CenterPitchYaw, 2))
    } else if bytes_equal_ascii(b, a0, a1, "/tracking/eye/LeftRightPitchYaw") && bytes_equal_ascii(
        b,
        t0,
        t1,
        ",ffff",
    ) {
        Some((OscEyeMessage::LeftRightPitchYaw, 4))
    } else {
        None
    }
}

fn be_u32_exec(b: &[u8], i: usize) -> (v: u32)
    requires
        i + 4 <= b@.len(),
    ensures
        v == be_u32(b@, i as int),
{
    (b[i] as u32) * 0x100_0000 + (b[i + 1] as u32) * 0x1_0000 + (b[i + 2] as u32) * 0x100 + (b[i + 3] as u32)
}

fn le_u32_exec(b: &[u8], i: usize) -> (v: u32)
    requires
        i + 4 <= b@.len(),
    ensures
        v == le_u32(b@, i as int),
{
    (b[i] as u32) + (b[i + 1] as u32) * 0x100 + (b[i + 2] as u32) * 0x1_0000 + (b[i + 3] as u32) * 0x100_0000
}

/// Decodes a VRChat eye OSC packet into the message it carries and its
/// arguments' bit patterns. Unknown messages, unexpected argument tags,
/// missing arguments and non-finite values give nothing.
pub fn decode_osc(packet: &[u8]) -> (r: Option<(OscEyeMessage, Vec<u32>)>)
    requires
        packet@.len() <= isize::MAX,
    ensures
        match r {
            Some((kind, values)) => decode_osc_spec(packet@) == Some((kind, values@)),
            None => decode_osc_spec(packet@) is None,
        },
{
    let b = packet;
    let e1 = match osc_string_end_exec(b, 0) {
        Some(e) => e,
        None => {
            return None;
        },
    };
    let i1 = (e1 + 4) / 4 * 4;
    let e2 = match osc_string_end_exec(b, i1) {
        Some(e) => e,
        None => {
            return None;
        },
    };
    let i2 = (e2 + 4) / 4 * 4;
    let (kind, n) = match osc_message_exec(b, 0, e1, i1, e2) {
        Some(m) => m,
        None => {
            return None;
        },
    };
    if i2 > b.len() || (b.len() - i2) / 4 < n {
        proof {
            assert(!(i2 + 4 * n <= b@.len()));
        }
        return None;
    }
    proof {
        assert(decode_osc_spec(b@) == match osc_arguments(b@, i2 as int, n as nat) {
            None => None,
            Some(v) => Some((kind, v)),
        });
    }
    let mut values: Vec<u32> = Vec::new();
    let mut k: usize = 0;
    while k < n
        invariant
            decode_osc_spec(b@) == match osc_arguments(b@, i2 as int, n as nat) {
                None => None,
                Some(v) => Some((kind, v)),
            },
            k <= n,
            n <= 6,
            b@ == packet@,
            b@.len() <= isize::MAX,
            i2 + 4 * n <= b@.len(),
            values@.len() == k,
            forall|q: int| 0 <= q < k ==> #[trigger] values@[q] == be_u32(b@, i2 + 4 * q),
            forall|q: int| 0 <= q < k ==> f32_finite(#[trigger] be_u32(b@, i2 + 4 * q)),
        decreases n - k,
    {
        assert(i2 + 4 * k + 4 <= b@.len()) by (nonlinear_arith)
            requires
                k < n,
                i2 + 4 * n <= b@.len(),
        ;
        let v = be_u32_exec(b, i2 + 4 * k);
        if v & 0x7f80_0000u32 == 0x7f80_0000u32 {
            proof {
                let q = k as int;
                assert(0 <= q < n && !f32_finite(be_u32(b@, i2 + 4 * q)));
                assert(!(forall|m: int| 0 <= m < n ==> f32_finite(#[trigger] be_u32(b@, i2 + 4 * m))));
                assert(osc_arguments(b@, i2 as int, n as nat) is None);
            }
            return None;
        }
        values.push(v);
        k += 1;
    }
    proof {
        assert(values@ =~= Seq::new(n as nat, |q: int| be_u32(b@, i2 + 4 * q)));
    }
    Some((kind, values))
}

/// Pairs per-eye values: one eye's value stands in for a missing other.
pub fn complete_eye_pair<T: Copy>(left: Option<T>, right: Option<T>) -> (r: (Option<T>, Option<T>))
    ensures
        r == (match (left, right) {
            (Some(l), Some(x)) => (Some(l), Some(x)),
            (Some(v), None) => (Some(v), Some(v)),
            (None, Some(v)) => (Some(v), Some(v)),
            (None, None) => (None, None),
        }),
{
    match (left, right) {
        (Some(l), Some(x)) => (Some(l), Some(x)),
        (Some(v), None) => (Some(v), Some(v)),
        (None, Some(v)) => (Some(v), Some(v)),
        (None, None) => (None, None),
    }
}

/// One eye of an ALVR HTC packet: each field is present when its flag is set
/// and all of its values are finite, held by bit patterns.
#[derive(Debug, Clone, Copy, PartialEq, Eq)]
pub struct HtcEyeBits {
    /// Gaze rotation quaternion `xyzw`.
    pub gaze: Option<(u32, u32, u32, u32)>,
    /// Pupil position in the eye image.
    pub position: Option<(u32, u32)>,
    pub openness: Option<u32>,
    pub wide: Option<u32>,
    pub squeeze: Option<u32>,
    pub pupil_diameter: Option<u32>,
}

/// The finite little-endian single-precision value at `off`.
pub open spec fn htc_value(b: Seq<u8>, off: int) -> Option<u32> {
    if f32_finite(le_u32(b, off)) {
        Some(le_u32(b, off))
    } else {
        None
    }
}

/// The fields of one eye: flag bits 0/1 (gaze), 2/3 (openness, wide,
/// squeeze), 4/5 (pupil diameter) and 6/7 (pupil position) for the
/// left/right eye, and the byte offsets of the values.
pub open spec fn htc_eye_spec(b: Seq<u8>, right: bool) -> HtcEyeBits {
    let flags = b[2];
    let gaze_mask: u8 = if right { 0x02 } else { 0x01 };
    let geometry_mask: u8 = if right { 0x08 } else { 0x04 };
    let diameter_mask: u8 = if right { 0x20 } else { 0x10 };
    let position_mask: u8 = if right { 0x80 } else { 0x40 };
    let gaze_offset: int = if right { 20 } else { 4 };
    let geometry_offset: int = if right { 48 } else { 36 };
    let diameter_offset: int = if right { 64 } else { 60 };
    let position_offset: int = if right { 76 } else { 68 };
    HtcEyeBits {
        gaze: if flags & gaze_mask != 0 {
            match (
                htc_value(b, gaze_offset),
                htc_value(b, gaze_offset + 4),
                htc_value(b, gaze_offset + 8),
                htc_value(b, gaze_offset + 12),
            ) {
                (Some(x), Some(y), Some(z), Some(w)) => Some((x, y, z, w)),
                _ => None,
            }
        } else {
            None
        },
        position: if flags & position_mask != 0 {
            match (htc_value(b, position_offset), htc_value(b, position_offset + 4)) {
                (Some(x), Some(y)) => Some((x, y)),
                _ => None,
            }
        } else {
            None
        },
        openness: if flags & geometry_mask != 0 {
            htc_value(b, geometry_offset)
        } else {
            None
        },
        wide: if flags & geometry_mask != 0 {
            htc_value(b, geometry_offset + 4)
        } else {
            None
        },
        squeeze: if flags & geometry_mask != 0 {
            htc_value(b, geometry_offset + 8)
        } else {
            None
        },
        pupil_diameter: if flags & diameter_mask != 0 {
            htc_value(b, diameter_offset)
        } else {
            None
        },
    }
}

/// An ALVR HTC packet: 84 bytes starting with `M` and version 1, then the
/// flags byte and the per-eye values.
pub open spec fn decode_htc_spec(b: Seq<u8>) -> Option<(HtcEyeBits, HtcEyeBits)> {
    if b.len() == 84 && b[0] == 0x4d && b[1] == 1 {
        Some((htc_eye_spec(b, false), htc_eye_spec(b, true)))
    } else {
        None
    }
}

fn htc_value_exec(b: &[u8], off: usize) -> (r: Option<u32>)
    requires
        off + 4 <= b@.len(),
    ensures
        r == htc_value(b@, off as int),
{
    let v = le_u32_exec(b, off);
    if v & 0x7f80_0000u32 != 0x7f80_0000u32 {
        Some(v)
    } else {
        None
    }
}

fn htc_eye(b: &[u8], right: bool) -> (e: HtcEyeBits)
    requires
        b@.len() == 84,
    ensures
        e == htc_eye_spec(b@, right),
{
    let flags = b[2];
    let gaze_mask: u8 = if right { 0x02 } else { 0x01 };
    let geometry_mask: u8 = if right { 0x08 } else { 0x04 };
    let diameter_mask: u8 = if right { 0x20 } else { 0x10 };
    let position_mask: u8 = if right { 0x80 } else { 0x40 };
    let gaze_offset: usize = if right { 20 } else { 4 };
    let geometry_offset: usize = if right { 48 } else { 36 };
    let diameter_offset: usize = if right { 64 } else { 60 };
    let position_offset: usize = if right { 76 } else { 68 };
    let gaze = if flags & gaze_mask != 0 {
        match (
            htc_value_exec(b, gaze_offset),
            htc_value_exec(b, gaze_offset + 4),
            htc_value_exec(b, gaze_offset + 8),
            htc_value_exec(b, gaze_offset + 12),
        ) {
            (Some(x), Some(y), Some(z), Some(w)) => Some((x, y, z, w)),
            _ => None,
        }
    } else {
        None
    };
    let position = if flags & position_mask != 0 {
        match (htc_value_exec(b, position_offset), htc_value_exec(b, position_offset + 4)) {
            (Some(x), Some(y)) => Some((x, y)),
            _ => None,
        }
    } else {
        None
    };
    let geometry = flags & geometry_mask != 0;
    HtcEyeBits {
        gaze,
        position,
        openness: if geometry {
            htc_value_exec(b, geometry_offset)
        } else {
            None
        },
        wide: if geometry {
            htc_value_exec(b, geometry_offset + 4)
        } else {
            None
        },
        squeeze: if geometry {
            htc_value_exec(b, geometry_offset + 8)
        } else {
            None
        },
        pupil_diameter: if flags & diameter_mask != 0 {
            htc_value_exec(b, diameter_offset)
        } else {
            None
        },
    }
}

/// Decodes the fixed layout of an ALVR HTC eye packet into both eyes'
/// finite values; a packet of another size, magic or version gives nothing.
pub fn decode_htc_layout(b: &[u8]) -> (r: Option<(HtcEyeBits, HtcEyeBits)>)
    ensures
        r == decode_htc_spec(b@),
{
    if b.len() != 84 || b[0] != 0x4d || b[1] != 1 {
        return None;
    }
    Some((htc_eye(b, false), htc_eye(b, true)))
}

} // verus!
