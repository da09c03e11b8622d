//! The humanoid slots, the naming conventions that identify each slot's
//! joint, and the per-armature report that name inference and arm topology
//! checks produce.
use vstd::prelude::*;
use crate::humanoid::{
    convention_match_spec, infer_by_name, inferred, rig_word, pattern_views, views, HumanoidSlotProvenance, HumanoidSlotStatus, NameMatch,
    ResolvedHumanoidTarget,
};
use crate::ids::ComponentId;
use crate::world::World;

verus! {

/// A humanoid bone or anchor that an avatar map assigns a joint to.
#[derive(Debug, Clone, Copy, PartialEq, Eq, PartialOrd, Ord, Hash, Structural)]
pub enum HumanoidSlot {
    Root,
    Hips,
    Spine,
    Chest,
    UpperChest,
    Neck,
    Head,
    LeftShoulder,
    RightShoulder,
    LeftUpperArm,
    RightUpperArm,
    LeftLowerArm,
    RightLowerArm,
    LeftHand,
    RightHand,
    LeftEye,
    RightEye,
    LeftMiddleProximal,
    RightMiddleProximal,
    LeftMiddleDistal,
    RightMiddleDistal,
    LeftIndexProximal,
    RightIndexProximal,
    LeftLittleProximal,
    RightLittleProximal,
    LeftUpperLeg,
    RightUpperLeg,
    LeftLowerLeg,
    RightLowerLeg,
    LeftFoot,
    RightFoot,
    LeftToes,
    RightToes,
    CameraAnchor,
}

/// A pattern of one word.
pub open spec fn w1(a: &str) -> Seq<Seq<char>> {
    seq![a@]
}

/// A pattern of two words.
pub open spec fn w2(a: &str, b: &str) -> Seq<Seq<char>> {
    seq![a@, b@]
}

/// A pattern of three words.
pub open spec fn w3(a: &str, b: &str, c: &str) -> Seq<Seq<char>> {
    seq![a@, b@, c@]
}

/// A pattern of four words.
pub open spec fn w4(a: &str, b: &str, c: &str, d: &str) -> Seq<Seq<char>> {
    seq![a@, b@, c@, d@]
}

/// A pattern of five words.
pub open spec fn w5(a: &str, b: &str, c: &str, d: &str, e: &str) -> Seq<Seq<char>> {
    seq![a@, b@, c@, d@, e@]
}

/// The two spellings of a sided bone: the side's full word, then its
/// initial, each followed by the bone's words.
pub open spec fn sided(left: bool, bone: Seq<Seq<char>>) -> Seq<Seq<Seq<char>>> {
    let side = if left { "left"@ } else { "right"@ };
    let short = if left { "l"@ } else { "r"@ };
    seq![seq![side] + bone, seq![short] + bone]
}

/// The token patterns by which a joint's name identifies `slot`.
pub open spec fn slot_patterns_spec(slot: HumanoidSlot) -> Seq<Seq<Seq<char>>> {
    match slot {
        HumanoidSlot::Root => seq![w1("root"), w1("armature")],
        HumanoidSlot::Hips => seq![w1("hips"), w1("pelvis"), w4("j", "bip", "c", "hips")],
        HumanoidSlot::Spine => seq![w1("spine"), w2("spine", "1"), w4("j", "bip", "c", "spine")],
        HumanoidSlot::Chest => seq![w1("chest"), w2("spine", "2"), w4("j", "bip", "c", "chest")],
        HumanoidSlot::UpperChest => seq![w2("upper", "chest"), w2("spine", "3"), w5("j", "bip", "c", "upper", "chest")],
        HumanoidSlot::Neck => seq![w1("neck"), w4("j", "bip", "c", "neck")],
        HumanoidSlot::Head => seq![w1("head"), w4("j", "bip", "c", "head")],
        HumanoidSlot::LeftShoulder => sided(true, w1("shoulder")),
        HumanoidSlot::RightShoulder => sided(false, w1("shoulder")),
        HumanoidSlot::LeftUpperArm => sided(true, w2("upper", "arm")).push(w5("j", "bip", "l", "upper", "arm")).push(
            w2("left", "arm"),
        ),
        HumanoidSlot::RightUpperArm => sided(false, w2("upper", "arm")).push(w5("j", "bip", "r", "upper", "arm")).push(
            w2("right", "arm"),
        ),
        HumanoidSlot::LeftLowerArm => sided(true, w2("lower", "arm")).push(w5("j", "bip", "l", "lower", "arm")).push(
            w3("left", "fore", "arm"),
        ).push(w2("left", "forearm")),
        HumanoidSlot::RightLowerArm => sided(false, w2("lower", "arm")).push(w5("j", "bip", "r", "lower", "arm")).push(
            w3("right", "fore", "arm"),
        ).push(w2("right", "forearm")),
        HumanoidSlot::LeftHand => sided(true, w1("hand")).push(w4("j", "bip", "l", "hand")).push(w2("left", "wrist")),
        HumanoidSlot::RightHand => sided(false, w1("hand")).push(w4("j", "bip", "r", "hand")).push(w2("right", "wrist")),
        HumanoidSlot::LeftEye => sided(true, w1("eye")).push(w5("j", "adj", "l", "face", "eye")),
        HumanoidSlot::RightEye => sided(false, w1("eye")).push(w5("j", "adj", "r", "face", "eye")),
        HumanoidSlot::LeftMiddleProximal => sided(true, w2("middle", "proximal")).push(w4("j", "bip", "l", "middle1")).push(
            w3("left", "hand", "middle1"),
        ),
        HumanoidSlot::RightMiddleProximal => sided(false, w2("middle", "proximal")).push(w4("j", "bip", "r", "middle1")).push(
            w3("right", "hand", "middle1"),
        ),
        HumanoidSlot::LeftMiddleDistal => sided(true, w2("middle", "distal")).push(w4("j", "bip", "l", "middle3")).push(
            w3("left", "hand", "middle3"),
        ),
        HumanoidSlot::RightMiddleDistal => sided(false, w2("middle", "distal")).push(w4("j", "bip", "r", "middle3")).push(
            w3("right", "hand", "middle3"),
        ),
        HumanoidSlot::LeftIndexProximal => sided(true, w2("index", "proximal")).push(w4("j", "bip", "l", "index1")).push(
            w3("left", "hand", "index1"),
        ),
        HumanoidSlot::RightIndexProximal => sided(false, w2("index", "proximal")).push(w4("j", "bip", "r", "index1")).push(
            w3("right", "hand", "index1"),
        ),
        HumanoidSlot::LeftLittleProximal => sided(true, w2("little", "proximal")).push(w4("j", "bip", "l", "little1")).push(
            w3("left", "hand", "pinky1"),
        ),
        HumanoidSlot::RightLittleProximal => sided(false, w2("little", "proximal")).push(w4("j", "bip", "r", "little1")).push(
            w3("right", "hand", "pinky1"),
        ),
        HumanoidSlot::LeftUpperLeg => sided(true, w2("upper", "leg")).push(w3("left", "up", "leg")),
        HumanoidSlot::RightUpperLeg => sided(false, w2("upper", "leg")).push(w3("right", "up", "leg")),
        HumanoidSlot::LeftLowerLeg => sided(true, w2("lower", "leg")).push(w2("left", "leg")),
        HumanoidSlot::RightLowerLeg => sided(false, w2("lower", "leg")).push(w2("right", "leg")),
        HumanoidSlot::LeftFoot => sided(true, w1("foot")),
        HumanoidSlot::RightFoot => sided(false, w1("foot")),
        HumanoidSlot::LeftToes => sided(true, w1("toes")).push(w3("left", "toe", "base")),
        HumanoidSlot::RightToes => sided(false, w1("toes")).push(w3("right", "toe", "base")),
        HumanoidSlot::CameraAnchor => seq![],
    }
}

/// A token with its side swapped to the right.
pub open spec fn to_right(t: Seq<char>) -> Seq<char> {
    if t == "left"@ { "right"@ } else if t == "l"@ { "r"@ } else { t }
}

/// The patterns of a left-side slot with every side token swapped.
pub open spec fn mirrored(ps: Seq<Seq<Seq<char>>>) -> Seq<Seq<Seq<char>>> {
    ps.map_values(|p: Seq<Seq<char>>| p.map_values(|t: Seq<char>| to_right(t)))
}

/// The right-side counterpart of a left-side slot.
pub open spec fn right_of(slot: HumanoidSlot) -> Option<HumanoidSlot> {
    match slot {
        HumanoidSlot::LeftShoulder => Some(HumanoidSlot::RightShoulder),
        HumanoidSlot::LeftUpperArm => Some(HumanoidSlot::RightUpperArm),
        HumanoidSlot::LeftLowerArm => Some(HumanoidSlot::RightLowerArm),
        HumanoidSlot::LeftHand => Some(HumanoidSlot::RightHand),
        HumanoidSlot::LeftEye => Some(HumanoidSlot::RightEye),
        HumanoidSlot::LeftMiddleProximal => Some(HumanoidSlot::RightMiddleProximal),
        HumanoidSlot::LeftMiddleDistal => Some(HumanoidSlot::RightMiddleDistal),
        HumanoidSlot::LeftIndexProximal => Some(HumanoidSlot::RightIndexProximal),
        HumanoidSlot::LeftLittleProximal => Some(HumanoidSlot::RightLittleProximal),
        HumanoidSlot::LeftUpperLeg => Some(HumanoidSlot::RightUpperLeg),
        HumanoidSlot::LeftLowerLeg => Some(HumanoidSlot::RightLowerLeg),
        HumanoidSlot::LeftFoot => Some(HumanoidSlot::RightFoot),
        HumanoidSlot::LeftToes => Some(HumanoidSlot::RightToes),
        _ => None,
    }
}

proof fn lemma_side_tokens()
    ensures
        to_right("left"@) == "right"@,
        to_right("l"@) == "r"@,
        to_right("j"@) == "j"@,
        to_right("bip"@) == "bip"@,
        to_right("adj"@) == "adj"@,
        to_right("face"@) == "face"@,
        to_right("eye"@) == "eye"@,
        to_right("shoulder"@) == "shoulder"@,
        to_right("upper"@) == "upper"@,
        to_right("lower"@) == "lower"@,
        to_right("arm"@) == "arm"@,
        to_right("fore"@) == "fore"@,
        to_right("forearm"@) == "forearm"@,
        to_right("hand"@) == "hand"@,
        to_right("wrist"@) == "wrist"@,
        to_right("middle"@) == "middle"@,
        to_right("proximal"@) == "proximal"@,
        to_right("distal"@) == "distal"@,
        to_right("middle1"@) == "middle1"@,
        to_right("middle3"@) == "middle3"@,
        to_right("index"@) == "index"@,
        to_right("index1"@) == "index1"@,
        to_right("little"@) == "little"@,
        to_right("little1"@) == "little1"@,
        to_right("pinky1"@) == "pinky1"@,
        to_right("leg"@) == "leg"@,
        to_right("up"@) == "up"@,
        to_right("foot"@) == "foot"@,
        to_right("toes"@) == "toes"@,
        to_right("toe"@) == "toe"@,
        to_right("base"@) == "base"@,
{
    reveal_strlit("left");
    reveal_strlit("right");
    reveal_strlit("l");
    reveal_strlit("r");
    reveal_strlit("j");
    reveal_strlit("bip");
    reveal_strlit("adj");
    reveal_strlit("face");
    reveal_strlit("eye");
    reveal_strlit("shoulder");
    reveal_strlit("upper");
    reveal_strlit("lower");
    reveal_strlit("arm");
    reveal_strlit("fore");
    reveal_strlit("forearm");
    reveal_strlit("hand");
    reveal_strlit("wrist");
    reveal_strlit("middle");
    reveal_strlit("proximal");
    reveal_strlit("distal");
    reveal_strlit("middle1");
    reveal_strlit("middle3");
    reveal_strlit("index");
    reveal_strlit("index1");
    reveal_strlit("little");
    reveal_strlit("little1");
    reveal_strlit("pinky1");
    reveal_strlit("leg");
    reveal_strlit("up");
    reveal_strlit("foot");
    reveal_strlit("toes");
    reveal_strlit("toe");
    reveal_strlit("base");
    assert("left"@.len() == 4 && "l"@.len() == 1);
    assert("j"@.len() == 1);
    assert("j"@[0] != "l"@[0]);
    assert("bip"@.len() == 3);
    assert("adj"@.len() == 3);
    assert("face"@.len() == 4);
    assert("face"@[0] != "left"@[0]);
    assert("eye"@.len() == 3);
    assert("shoulder"@.len() == 8);
    assert("upper"@.len() == 5);
    assert("lower"@.len() == 5);
    assert("arm"@.len() == 3);
    assert("fore"@.len() == 4);
    assert("fore"@[0] != "left"@[0]);
    assert("forearm"@.len() == 7);
    assert("hand"@.len() == 4);
    assert("hand"@[0] != "left"@[0]);
    assert("wrist"@.len() == 5);
    assert("middle"@.len() == 6);
    assert("proximal"@.len() == 8);
    assert("distal"@.len() == 6);
    assert("middle1"@.len() == 7);
    assert("middle3"@.len() == 7);
    assert("index"@.len() == 5);
    assert("index1"@.len() == 6);
    assert("little"@.len() == 6);
    assert("little1"@.len() == 7);
    assert("pinky1"@.len() == 6);
    assert("leg"@.len() == 3);
    assert("up"@.len() == 2);
    assert("foot"@.len() == 4);
    assert("foot"@[0] != "left"@[0]);
    assert("toes"@.len() == 4);
    assert("toes"@[0] != "left"@[0]);
    assert("toe"@.len() == 3);
    assert("base"@.len() == 4);
    assert("base"@[0] != "left"@[0]);
}

/// The naming conventions are symmetric: a right-side slot's patterns are
/// its left counterpart's with `left` read as `right` and `l` as `r`. The
/// camera anchor has no pattern; every other slot has at least one.
pub proof fn slot_patterns_are_mirrored(slot: HumanoidSlot)
    ensures
        right_of(slot) matches Some(r) ==> slot_patterns_spec(r) == mirrored(slot_patterns_spec(slot)),
        slot == HumanoidSlot::CameraAnchor <==> slot_patterns_spec(slot).len() == 0,
{
    lemma_side_tokens();
    match slot {
        HumanoidSlot::LeftShoulder => lemma_mirror_pair(slot_patterns_spec(HumanoidSlot::RightShoulder), slot_patterns_spec(HumanoidSlot::LeftShoulder)),
        HumanoidSlot::LeftUpperArm => lemma_mirror_pair(slot_patterns_spec(HumanoidSlot::RightUpperArm), slot_patterns_spec(HumanoidSlot::LeftUpperArm)),
        HumanoidSlot::LeftLowerArm => lemma_mirror_pair(slot_patterns_spec(HumanoidSlot::RightLowerArm), slot_patterns_spec(HumanoidSlot::LeftLowerArm)),
        HumanoidSlot::LeftHand => lemma_mirror_pair(slot_patterns_spec(HumanoidSlot::RightHand), slot_patterns_spec(HumanoidSlot::LeftHand)),
        HumanoidSlot::LeftEye => lemma_mirror_pair(slot_patterns_spec(HumanoidSlot::RightEye), slot_patterns_spec(HumanoidSlot::LeftEye)),
        HumanoidSlot::LeftMiddleProximal => lemma_mirror_pair(slot_patterns_spec(HumanoidSlot::RightMiddleProximal), slot_patterns_spec(HumanoidSlot::LeftMiddleProximal)),
        HumanoidSlot::LeftMiddleDistal => lemma_mirror_pair(slot_patterns_spec(HumanoidSlot::RightMiddleDistal), slot_patterns_spec(HumanoidSlot::LeftMiddleDistal)),
        HumanoidSlot::LeftIndexProximal => lemma_mirror_pair(slot_patterns_spec(HumanoidSlot::RightIndexProximal), slot_patterns_spec(HumanoidSlot::LeftIndexProximal)),
        HumanoidSlot::LeftLittleProximal => lemma_mirror_pair(slot_patterns_spec(HumanoidSlot::RightLittleProximal), slot_patterns_spec(HumanoidSlot::LeftLittleProximal)),
        HumanoidSlot::LeftUpperLeg => lemma_mirror_pair(slot_patterns_spec(HumanoidSlot::RightUpperLeg), slot_patterns_spec(HumanoidSlot::LeftUpperLeg)),
        HumanoidSlot::LeftLowerLeg => lemma_mirror_pair(slot_patterns_spec(HumanoidSlot::RightLowerLeg), slot_patterns_spec(HumanoidSlot::LeftLowerLeg)),
        HumanoidSlot::LeftFoot => lemma_mirror_pair(slot_patterns_spec(HumanoidSlot::RightFoot), slot_patterns_spec(HumanoidSlot::LeftFoot)),
        HumanoidSlot::LeftToes => lemma_mirror_pair(slot_patterns_spec(HumanoidSlot::RightToes), slot_patterns_spec(HumanoidSlot::LeftToes)),
        _ => {},
    }
}

/// Equal pattern lists, token by token.
#[verifier::spinoff_prover]
proof fn lemma_mirror_pair(a: Seq<Seq<Seq<char>>>, ps: Seq<Seq<Seq<char>>>)
    requires
        a.len() == ps.len(),
        forall|i: int| 0 <= i < a.len() ==> #[trigger] a[i].len() == ps[i].len(),
        forall|i: int, j: int| 0 <= i < a.len() && 0 <= j < a[i].len() ==> #[trigger] a[i][j] == to_right(ps[i][j]),
    ensures
        a == mirrored(ps),
{
    let b = mirrored(ps);
    assert forall|i: int| 0 <= i < a.len() implies #[trigger] a[i] == b[i] by {
        assert(a[i] =~= ps[i].map_values(|t: Seq<char>| to_right(t)));
    }
    assert(a =~= b);
}

/// The words of a slot's own name: `LeftUpperArm` is `left upper arm`.
pub open spec fn slot_words(slot: HumanoidSlot) -> Seq<Seq<char>> {
    match slot {
        HumanoidSlot::Root => seq!["root"@],
        HumanoidSlot::Hips => seq!["hips"@],
        HumanoidSlot::Spine => seq!["spine"@],
        HumanoidSlot::Chest => seq!["chest"@],
        HumanoidSlot::UpperChest => seq!["upper"@, "chest"@],
        HumanoidSlot::Neck => seq!["neck"@],
        HumanoidSlot::Head => seq!["head"@],
        HumanoidSlot::LeftShoulder => seq!["left"@, "shoulder"@],
        HumanoidSlot::RightShoulder => seq!["right"@, "shoulder"@],
        HumanoidSlot::LeftUpperArm => seq!["left"@, "upper"@, "arm"@],
        HumanoidSlot::RightUpperArm => seq!["right"@, "upper"@, "arm"@],
        HumanoidSlot::LeftLowerArm => seq!["left"@, "lower"@, "arm"@],
        HumanoidSlot::RightLowerArm => seq!["right"@, "lower"@, "arm"@],
        HumanoidSlot::LeftHand => seq!["left"@, "hand"@],
        HumanoidSlot::RightHand => seq!["right"@, "hand"@],
        HumanoidSlot::LeftEye => seq!["left"@, "eye"@],
        HumanoidSlot::RightEye => seq!["right"@, "eye"@],
        HumanoidSlot::LeftMiddleProximal => seq!["left"@, "middle"@, "proximal"@],
        HumanoidSlot::RightMiddleProximal => seq!["right"@, "middle"@, "proximal"@],
        HumanoidSlot::LeftMiddleDistal => seq!["left"@, "middle"@, "distal"@],
        HumanoidSlot::RightMiddleDistal => seq!["right"@, "middle"@, "distal"@],
        HumanoidSlot::LeftIndexProximal => seq!["left"@, "index"@, "proximal"@],
        HumanoidSlot::RightIndexProximal => seq!["right"@, "index"@, "proximal"@],
        HumanoidSlot::LeftLittleProximal => seq!["left"@, "little"@, "proximal"@],
        HumanoidSlot::RightLittleProximal => seq!["right"@, "little"@, "proximal"@],
        HumanoidSlot::LeftUpperLeg => seq!["left"@, "upper"@, "leg"@],
        HumanoidSlot::RightUpperLeg => seq!["right"@, "upper"@, "leg"@],
        HumanoidSlot::LeftLowerLeg => seq!["left"@, "lower"@, "leg"@],
        HumanoidSlot::RightLowerLeg => seq!["right"@, "lower"@, "leg"@],
        HumanoidSlot::LeftFoot => seq!["left"@, "foot"@],
        HumanoidSlot::RightFoot => seq!["right"@, "foot"@],
        HumanoidSlot::LeftToes => seq!["left"@, "toes"@],
        HumanoidSlot::RightToes => seq!["right"@, "toes"@],
        HumanoidSlot::CameraAnchor => Seq::empty(),
    }
}

/// Every slot but the camera anchor is recognised by its own name: its
/// patterns include the words of the slot's name, so a joint whose name
/// tokens are those words, behind any run of rig namespace tokens,
/// matches the slot.
pub proof fn each_slot_matches_its_own_name(slot: HumanoidSlot, namespace: Seq<Seq<char>>)
    requires
        slot != HumanoidSlot::CameraAnchor,
        forall|i: int| 0 <= i < namespace.len() ==> rig_word(#[trigger] namespace[i]),
    ensures
        slot_patterns_spec(slot).contains(slot_words(slot)),
        exists|k: int| 0 <= k < slot_patterns_spec(slot).len()
            && convention_match_spec(namespace + slot_words(slot), #[trigger] slot_patterns_spec(slot)[k]),
{
    let ps = slot_patterns_spec(slot);
    let w = slot_words(slot);
    let k: int = 0;
    assert(ps[k] =~= w);
    assert(ps.contains(w));
    let t = namespace + w;
    if namespace.len() == 0 {
        assert(t =~= w);
    } else {
        assert(t.skip(t.len() - w.len()) =~= w);
        assert forall|i: int| 0 <= i < t.len() - w.len() implies rig_word(#[trigger] t[i]) by {
            assert(t[i] == namespace[i]);
        }
    }
    assert(convention_match_spec(t, ps[k]));
}

fn word(a: &str) -> (r: String)
    ensures
        r@ == a@,
{
    a.to_owned()
}

fn p1(a: &str) -> (r: Vec<String>)
    ensures
        views(r@) == w1(a),
{
    let r = vec![word(a)];
    assert(views(r@) =~= w1(a));
    r
}

fn p2(a: &str, b: &str) -> (r: Vec<String>)
    ensures
        views(r@) == w2(a, b),
{
    let r = vec![word(a), word(b)];
    assert(views(r@) =~= w2(a, b));
    r
}

fn p3(a: &str, b: &str, c: &str) -> (r: Vec<String>)
    ensures
        views(r@) == w3(a, b, c),
{
    let r = vec![word(a), word(b), word(c)];
    assert(views(r@) =~= w3(a, b, c));
    r
}

fn p4(a: &str, b: &str, c: &str, d: &str) -> (r: Vec<String>)
    ensures
        views(r@) == w4(a, b, c, d),
{
    let r = vec![word(a), word(b), word(c), word(d)];
    assert(views(r@) =~= w4(a, b, c, d));
    r
}

fn p5(a: &str, b: &str, c: &str, d: &str, e: &str) -> (r: Vec<String>)
    ensures
        views(r@) == w5(a, b, c, d, e),
{
    let r = vec![word(a), word(b), word(c), word(d), word(e)];
    assert(views(r@) =~= w5(a, b, c, d, e));
    r
}

fn one(a: Vec<String>) -> (r: Vec<Vec<String>>)
    ensures
        pattern_views(r@) == seq![views(a@)],
{
    let ghost va = views(a@);
    let r = vec![a];
    assert(pattern_views(r@) =~= seq![va]);
    r
}

fn two(a: Vec<String>, b: Vec<String>) -> (r: Vec<Vec<String>>)
    ensures
        pattern_views(r@) == seq![views(a@), views(b@)],
{
    let ghost va = views(a@);
    let ghost vb = views(b@);
    let r = vec![a, b];
    assert(pattern_views(r@) =~= seq![va, vb]);
    r
}

fn three(a: Vec<String>, b: Vec<String>, c: Vec<String>) -> (r: Vec<Vec<String>>)
    ensures
        pattern_views(r@) == seq![views(a@), views(b@), views(c@)],
{
    let ghost va = views(a@);
    let ghost vb = views(b@);
    let ghost vc = views(c@);
    let r = vec![a, b, c];
    assert(pattern_views(r@) =~= seq![va, vb, vc]);
    r
}

fn also(v: Vec<Vec<String>>, a: Vec<String>) -> (r: Vec<Vec<String>>)
    ensures
        pattern_views(r@) == pattern_views(v@).push(views(a@)),
{
    let ghost before = v@;
    let ghost va = views(a@);
    let mut r = v;
    r.push(a);
    assert(pattern_views(r@) =~= pattern_views(before).push(va));
    r
}

fn prefixed(first: String, bone: &Vec<String>) -> (r: Vec<String>)
    ensures
        views(r@) == seq![first@] + views(bone@),
{
    let mut r = vec![first];
    let mut i: usize = 0;
    while i < bone.len()
        invariant
            i <= bone@.len(),
            views(r@) == seq![first@] + views(bone@).take(i as int),
        decreases bone@.len() - i,
    {
        let ghost before = r@;
        r.push(bone[i].clone());
        proof {
            assert(views(r@) =~= views(before).push(bone@[i as int]@));
            assert(views(bone@).take(i + 1) =~= views(bone@).take(i as int).push(bone@[i as int]@));
        }
        i += 1;
    }
    proof {
        assert(views(bone@).take(bone@.len() as int) =~= views(bone@));
    }
    r
}

fn lr(left: bool, bone: Vec<String>) -> (r: Vec<Vec<String>>)
    ensures
        pattern_views(r@) == sided(left, views(bone@)),
{
    let side = if left { word("left") } else { word("right") };
    let short = if left { word("l") } else { word("r") };
    let a = prefixed(side, &bone);
    let b = prefixed(short, &bone);
    two(a, b)
}

/// The token patterns by which a joint's name identifies `slot`; the
/// camera anchor has none.
#[verifier::rlimit(40)]
pub fn slot_patterns(slot: HumanoidSlot) -> (r: Vec<Vec<String>>)
    ensures
        pattern_views(r@) == slot_patterns_spec(slot),
{
    match slot {
        HumanoidSlot::Root => two(p1("root"), p1("armature")),
        HumanoidSlot::Hips => three(p1("hips"), p1("pelvis"), p4("j", "bip", "c", "hips")),
        HumanoidSlot::Spine => three(p1("spine"), p2("spine", "1"), p4("j", "bip", "c", "spine")),
        HumanoidSlot::Chest => three(p1("chest"), p2("spine", "2"), p4("j", "bip", "c", "chest")),
        HumanoidSlot::UpperChest => three(p2("upper", "chest"), p2("spine", "3"), p5("j", "bip", "c", "upper", "chest")),
        HumanoidSlot::Neck => two(p1("neck"), p4("j", "bip", "c", "neck")),
        HumanoidSlot::Head => two(p1("head"), p4("j", "bip", "c", "head")),
        HumanoidSlot::LeftShoulder => lr(true, p1("shoulder")),
        HumanoidSlot::RightShoulder => lr(false, p1("shoulder")),
        HumanoidSlot::LeftUpperArm => also(also(lr(true, p2("upper", "arm")), p5("j", "bip", "l", "upper", "arm")), p2("left", "arm")),
        HumanoidSlot::RightUpperArm => also(
            also(lr(false, p2("upper", "arm")), p5("j", "bip", "r", "upper", "arm")),
            p2("right", "arm"),
        ),
        HumanoidSlot::LeftLowerArm => also(
            also(also(lr(true, p2("lower", "arm")), p5("j", "bip", "l", "lower", "arm")), p3("left", "fore", "arm")),
            p2("left", "forearm"),
        ),
        HumanoidSlot::RightLowerArm => also(
            also(also(lr(false, p2("lower", "arm")), p5("j", "bip", "r", "lower", "arm")), p3("right", "fore", "arm")),
            p2("right", "forearm"),
        ),
        HumanoidSlot::LeftHand => also(also(lr(true, p1("hand")), p4("j", "bip", "l", "hand")), p2("left", "wrist")),
        HumanoidSlot::RightHand => also(also(lr(false, p1("hand")), p4("j", "bip", "r", "hand")), p2("right", "wrist")),
        HumanoidSlot::LeftEye => also(lr(true, p1("eye")), p5("j", "adj", "l", "face", "eye")),
        HumanoidSlot::RightEye => also(lr(false, p1("eye")), p5("j", "adj", "r", "face", "eye")),
        HumanoidSlot::LeftMiddleProximal => also(
            also(lr(true, p2("middle", "proximal")), p4("j", "bip", "l", "middle1")),
            p3("left", "hand", "middle1"),
        ),
        HumanoidSlot::RightMiddleProximal => also(
            also(lr(false, p2("middle", "proximal")), p4("j", "bip", "r", "middle1")),
            p3("right", "hand", "middle1"),
        ),
        HumanoidSlot::LeftMiddleDistal => also(
            also(lr(true, p2("middle", "distal")), p4("j", "bip", "l", "middle3")),
            p3("left", "hand", "middle3"),
        ),
        HumanoidSlot::RightMiddleDistal => also(
            also(lr(false, p2("middle", "distal")), p4("j", "bip", "r", "middle3")),
            p3("right", "hand", "middle3"),
        ),
        HumanoidSlot::LeftIndexProximal => also(
            also(lr(true, p2("index", "proximal")), p4("j", "bip", "l", "index1")),
            p3("left", "hand", "index1"),
        ),
        HumanoidSlot::RightIndexProximal => also(
            also(lr(false, p2("index", "proximal")), p4("j", "bip", "r", "index1")),
            p3("right", "hand", "index1"),
        ),
        HumanoidSlot::LeftLittleProximal => also(
            also(lr(true, p2("little", "proximal")), p4("j", "bip", "l", "little1")),
            p3("left", "hand", "pinky1"),
        ),
        HumanoidSlot::RightLittleProximal => also(
            also(lr(false, p2("little", "proximal")), p4("j", "bip", "r", "little1")),
            p3("right", "hand", "pinky1"),
        ),
        HumanoidSlot::LeftUpperLeg => also(lr(true, p2("upper", "leg")), p3("left", "up", "leg")),
        HumanoidSlot::RightUpperLeg => also(lr(false, p2("upper", "leg")), p3("right", "up", "leg")),
        HumanoidSlot::LeftLowerLeg => also(lr(true, p2("lower", "leg")), p2("left", "leg")),
        HumanoidSlot::RightLowerLeg => also(lr(false, p2("lower", "leg")), p2("right", "leg")),
        HumanoidSlot::LeftFoot => lr(true, p1("foot")),
        HumanoidSlot::RightFoot => lr(false, p1("foot")),
        HumanoidSlot::LeftToes => also(lr(true, p1("toes")), p3("left", "toe", "base")),
        HumanoidSlot::RightToes => also(lr(false, p1("toes")), p3("right", "toe", "base")),
        HumanoidSlot::CameraAnchor => {
            let r: Vec<Vec<String>> = Vec::new();
            assert(pattern_views(r@) =~= seq![]);
            r
        },
    }
}

/// Every slot, in the order reports list them.
pub open spec fn all_slots_spec() -> Seq<HumanoidSlot> {
    seq![
        HumanoidSlot::Root,
        HumanoidSlot::Hips,
        HumanoidSlot::Spine,
        HumanoidSlot::Chest,
        HumanoidSlot::UpperChest,
        HumanoidSlot::Neck,
        HumanoidSlot::Head,
        HumanoidSlot::LeftShoulder,
        HumanoidSlot::RightShoulder,
        HumanoidSlot::LeftUpperArm,
        HumanoidSlot::RightUpperArm,
        HumanoidSlot::LeftLowerArm,
        HumanoidSlot::RightLowerArm,
        HumanoidSlot::LeftHand,
        HumanoidSlot::RightHand,
        HumanoidSlot::LeftEye,
        HumanoidSlot::RightEye,
        HumanoidSlot::LeftMiddleProximal,
        HumanoidSlot::RightMiddleProximal,
        HumanoidSlot::LeftMiddleDistal,
        HumanoidSlot::RightMiddleDistal,
        HumanoidSlot::LeftIndexProximal,
        HumanoidSlot::RightIndexProximal,
        HumanoidSlot::LeftLittleProximal,
        HumanoidSlot::RightLittleProximal,
        HumanoidSlot::LeftUpperLeg,
        HumanoidSlot::RightUpperLeg,
        HumanoidSlot::LeftLowerLeg,
        HumanoidSlot::RightLowerLeg,
        HumanoidSlot::LeftFoot,
        HumanoidSlot::RightFoot,
        HumanoidSlot::LeftToes,
        HumanoidSlot::RightToes,
        HumanoidSlot::CameraAnchor,
    ]
}

/// Every slot, in the order reports list them.
pub fn all_slots() -> (r: Vec<HumanoidSlot>)
    ensures
        r@ == all_slots_spec(),
{
    let r = vec![
        HumanoidSlot::Root,
        HumanoidSlot::Hips,
        HumanoidSlot::Spine,
        HumanoidSlot::Chest,
        HumanoidSlot::UpperChest,
        HumanoidSlot::Neck,
        HumanoidSlot::Head,
        HumanoidSlot::LeftShoulder,
        HumanoidSlot::RightShoulder,
        HumanoidSlot::LeftUpperArm,
        HumanoidSlot::RightUpperArm,
        HumanoidSlot::LeftLowerArm,
        HumanoidSlot::RightLowerArm,
        HumanoidSlot::LeftHand,
        HumanoidSlot::RightHand,
        HumanoidSlot::LeftEye,
        HumanoidSlot::RightEye,
        HumanoidSlot::LeftMiddleProximal,
        HumanoidSlot::RightMiddleProximal,
        HumanoidSlot::LeftMiddleDistal,
        HumanoidSlot::RightMiddleDistal,
        HumanoidSlot::LeftIndexProximal,
        HumanoidSlot::RightIndexProximal,
        HumanoidSlot::LeftLittleProximal,
        HumanoidSlot::RightLittleProximal,
        HumanoidSlot::LeftUpperLeg,
        HumanoidSlot::RightUpperLeg,
        HumanoidSlot::LeftLowerLeg,
        HumanoidSlot::RightLowerLeg,
        HumanoidSlot::LeftFoot,
        HumanoidSlot::RightFoot,
        HumanoidSlot::LeftToes,
        HumanoidSlot::RightToes,
        HumanoidSlot::CameraAnchor,
    ];
    assert(r@ =~= all_slots_spec());
    r
}

/// One slot's resolution, with why it came out so.
#[derive(Debug, Clone, PartialEq, Eq)]
pub struct HumanoidSlotReport {
    pub slot: HumanoidSlot,
    pub status: HumanoidSlotStatus,
    pub provenance: HumanoidSlotProvenance,
    pub diagnostic: Option<String>,
}

/// `r` reports `slot` unresolved, with no diagnostic.
pub open spec fn unresolved_report(r: HumanoidSlotReport, slot: HumanoidSlot) -> bool {
    &&& r.slot == slot
    &&& r.status == HumanoidSlotStatus::Unresolved
    &&& r.provenance == HumanoidSlotProvenance::Unresolved
    &&& r.diagnostic is None
}

/// `r` reports the outcome of matching `slot` by name among `joints`; the
/// camera anchor is never matched by name.
pub open spec fn inferred_report(world: &World, joints: Seq<ComponentId>, slot: HumanoidSlot, r: HumanoidSlotReport) -> bool {
    &&& r.slot == slot
    &&& slot == HumanoidSlot::CameraAnchor ==> unresolved_report(r, slot)
    &&& slot != HumanoidSlot::CameraAnchor ==> inferred(
        world,
        joints,
        slot_patterns_spec(slot),
        NameMatch { status: r.status, provenance: r.provenance, diagnostic: r.diagnostic },
    )
}

/// `slot` matched by name among `joints`.
pub fn infer_slot_by_name(world: &World, joints: &Vec<ComponentId>, slot: HumanoidSlot) -> (r: HumanoidSlotReport)
    ensures
        inferred_report(world, joints@, slot, r),
{
    if slot == HumanoidSlot::CameraAnchor {
        return HumanoidSlotReport {
            slot,
            status: HumanoidSlotStatus::Unresolved,
            provenance: HumanoidSlotProvenance::Unresolved,
            diagnostic: None,
        };
    }
    let patterns = slot_patterns(slot);
    let m = infer_by_name(world, joints, &patterns);
    let ghost mg = m;
    let NameMatch { status, provenance, diagnostic } = m;
    proof {
        assert(mg == NameMatch { status, provenance, diagnostic });
    }
    HumanoidSlotReport { slot, status, provenance, diagnostic }
}

/// The first position at or after `i` whose entry reports `slot`.
pub open spec fn slot_index_from(s: Seq<HumanoidSlotReport>, slot: HumanoidSlot, i: int) -> Option<int>
    decreases s.len() - i,
{
    if i < 0 || i >= s.len() {
        None
    } else if s[i].slot == slot {
        Some(i)
    } else {
        slot_index_from(s, slot, i + 1)
    }
}

/// The entry that reports `slot`: the first one.
pub open spec fn slot_lookup(s: Seq<HumanoidSlotReport>, slot: HumanoidSlot) -> Option<HumanoidSlotReport> {
    match slot_index_from(s, slot, 0) {
        Some(i) => Some(s[i]),
        None => None,
    }
}

/// The target `slot` resolved to, if it resolved.
pub open spec fn resolved_target(s: Seq<HumanoidSlotReport>, slot: HumanoidSlot) -> Option<ResolvedHumanoidTarget> {
    match slot_lookup(s, slot) {
        Some(e) => match e.status {
            HumanoidSlotStatus::Resolved(t) => Some(t),
            _ => None,
        },
        None => None,
    }
}

proof fn lemma_slot_index_bounds(s: Seq<HumanoidSlotReport>, slot: HumanoidSlot, i: int)
    ensures
        slot_index_from(s, slot, i) matches Some(k) ==> i <= k < s.len() && s[k].slot == slot,
    decreases s.len() - i,
{
    if 0 <= i < s.len() && s[i].slot != slot {
        lemma_slot_index_bounds(s, slot, i + 1);
    }
}

/// The position of the entry that reports `slot`.
pub fn find_slot(slots: &Vec<HumanoidSlotReport>, slot: HumanoidSlot) -> (r: Option<usize>)
    ensures
        match r {
            Some(i) => slot_index_from(slots@, slot, 0) == Some(i as int) && i < slots@.len() && slots@[i as int].slot
                == slot,
            None => slot_index_from(slots@, slot, 0) is None,
        },
{
    let mut i: usize = 0;
    while i < slots.len()
        invariant
            i <= slots@.len(),
            slot_index_from(slots@, slot, 0) == slot_index_from(slots@, slot, i as int),
        decreases slots@.len() - i,
    {
        if slots[i].slot == slot {
            return Some(i);
        }
        i += 1;
    }
    None
}

/// The three slots of one arm, shoulder to hand.
pub open spec fn arm_slots(left: bool) -> (HumanoidSlot, HumanoidSlot, HumanoidSlot) {
    if left {
        (HumanoidSlot::LeftUpperArm, HumanoidSlot::LeftLowerArm, HumanoidSlot::LeftHand)
    } else {
        (HumanoidSlot::RightUpperArm, HumanoidSlot::RightLowerArm, HumanoidSlot::RightHand)
    }
}

/// `ancestor` is reached from `child` by following parent links, in at most
/// `fuel` steps.
pub open spec fn ancestor_within(w: &World, ancestor: ComponentId, child: ComponentId, fuel: nat) -> bool
    decreases fuel,
{
    if fuel == 0 {
        false
    } else {
        match w.parent_spec(child) {
            None => false,
            Some(p) => p == ancestor || ancestor_within(w, ancestor, p, (fuel - 1) as nat),
        }
    }
}

/// Whether `ancestor` is a proper ancestor of `child`, looking at most 32
/// levels up.
pub fn is_ancestor(world: &World, ancestor: ComponentId, child: ComponentId) -> (b: bool)
    ensures
        b == ancestor_within(world, ancestor, child, 32),
{
    let mut current = child;
    let mut k: u64 = 0;
    while k < 32
        invariant
            k <= 32,
            ancestor_within(world, ancestor, child, 32) == ancestor_within(world, ancestor, current, (32 - k) as nat),
        decreases 32 - k,
    {
        match world.parent_of(current) {
            None => {
                return false;
            },
            Some(parent) => {
                if parent == ancestor {
                    return true;
                }
                current = parent;
            },
        }
        k += 1;
    }
    false
}

/// Whether name matching put the arm on `left` in a chain that is not
/// anatomical: all three slots resolved, but the lower arm is not below the
/// upper arm or the hand not below the lower arm.
pub open spec fn arm_chain_broken(world: &World, s: Seq<HumanoidSlotReport>, left: bool) -> bool {
    let (upper, lower, hand) = arm_slots(left);
    match (resolved_target(s, upper), resolved_target(s, lower), resolved_target(s, hand)) {
        (Some(u), Some(l), Some(h)) => !ancestor_within(world, u.component, l.component, 32)
            || !ancestor_within(world, l.component, h.component, 32),
        _ => false,
    }
}

/// Whether the arm check on `left` demotes the entry at position `j`: the
/// chain is broken and the entry is the one reporting one of the arm's
/// slots, resolved other than explicitly.
pub open spec fn demoted_at(world: &World, s: Seq<HumanoidSlotReport>, left: bool, j: int) -> bool {
    let (upper, lower, hand) = arm_slots(left);
    &&& arm_chain_broken(world, s, left)
    &&& s[j].provenance != HumanoidSlotProvenance::Explicit
    &&& (slot_index_from(s, upper, 0) == Some(j) || slot_index_from(s, lower, 0) == Some(j) || slot_index_from(
        s,
        hand,
        0,
    ) == Some(j))
}

/// `r` reports `slot` unresolved because its arm failed the chain check.
pub open spec fn topology_failure(r: HumanoidSlotReport, slot: HumanoidSlot) -> bool {
    &&& r.slot == slot
    &&& r.status == HumanoidSlotStatus::Unresolved
    &&& r.provenance == HumanoidSlotProvenance::Unresolved
    &&& r.diagnostic matches Some(d) && d@ == "name match failed arm topology validation"@
}

/// `after` is `before` with the arm check on `left` applied.
pub open spec fn arm_checked(world: &World, before: Seq<HumanoidSlotReport>, after: Seq<HumanoidSlotReport>, left: bool) -> bool {
    &&& after.len() == before.len()
    &&& forall|j: int| 0 <= j < before.len() ==> if demoted_at(world, before, left, j) {
        topology_failure(#[trigger] after[j], before[j].slot)
    } else {
        after[j] == before[j]
    }
}

fn topology_failure_report(slot: HumanoidSlot) -> (r: HumanoidSlotReport)
    ensures
        topology_failure(r, slot),
{
    HumanoidSlotReport {
        slot,
        status: HumanoidSlotStatus::Unresolved,
        provenance: HumanoidSlotProvenance::Unresolved,
        diagnostic: Some(word("name match failed arm topology validation")),
    }
}

fn target_of(slots: &Vec<HumanoidSlotReport>, slot: HumanoidSlot) -> (r: Option<ResolvedHumanoidTarget>)
    ensures
        r == resolved_target(slots@, slot),
{
    match find_slot(slots, slot) {
        Some(i) => match &slots[i].status {
            HumanoidSlotStatus::Resolved(t) => Some(*t),
            _ => None,
        },
        None => None,
    }
}

fn demote(slots: &mut Vec<HumanoidSlotReport>, at: Option<usize>, slot: HumanoidSlot)
    requires
        at matches Some(i) ==> i < old(slots)@.len() && old(slots)@[i as int].slot == slot,
    ensures
        final(slots)@.len() == old(slots)@.len(),
        forall|j: int| 0 <= j < old(slots)@.len() ==> if (at matches Some(i) && i == j) && old(slots)@[j].provenance
            != HumanoidSlotProvenance::Explicit {
            topology_failure(#[trigger] final(slots)@[j], slot)
        } else {
            final(slots)@[j] == old(slots)@[j]
        },
{
    if let Some(i) = at {
        if slots[i].provenance != HumanoidSlotProvenance::Explicit {
            slots.set(i, topology_failure_report(slot));
        }
    }
}

/// Unresolves the name-matched slots of the arm on `left` when their chain
/// is not anatomical; explicitly assigned slots are kept.
pub fn validate_arm_topology(world: &World, slots: &mut Vec<HumanoidSlotReport>, left: bool)
    ensures
        arm_checked(world, old(slots)@, final(slots)@, left),
        forall|j: int| 0 <= j < old(slots)@.len() && old(slots)@[j].provenance == HumanoidSlotProvenance::Explicit
            ==> #[trigger] final(slots)@[j] == old(slots)@[j],
{
    let (upper, lower, hand) = if left {
        (HumanoidSlot::LeftUpperArm, HumanoidSlot::LeftLowerArm, HumanoidSlot::LeftHand)
    } else {
        (HumanoidSlot::RightUpperArm, HumanoidSlot::RightLowerArm, HumanoidSlot::RightHand)
    };
    let ghost before = slots@;
    let broken = match (target_of(slots, upper), target_of(slots, lower), target_of(slots, hand)) {
        (Some(u), Some(l), Some(h)) => !is_ancestor(world, u.component, l.component) || !is_ancestor(
            world,
            l.component,
            h.component,
        ),
        _ => false,
    };
    if !broken {
        return;
    }
    let iu = find_slot(slots, upper);
    let il = find_slot(slots, lower);
    let ih = find_slot(slots, hand);
    proof {
        lemma_slot_index_bounds(before, upper, 0);
        lemma_slot_index_bounds(before, lower, 0);
        lemma_slot_index_bounds(before, hand, 0);
    }
    demote(slots, iu, upper);
    let ghost mid1 = slots@;
    demote(slots, il, lower);
    let ghost mid2 = slots@;
    demote(slots, ih, hand);
    proof {
        assert forall|j: int| 0 <= j < before.len() implies if demoted_at(world, before, left, j) {
            topology_failure(#[trigger] slots@[j], before[j].slot)
        } else {
            slots@[j] == before[j]
        } by {
            let at_u = iu matches Some(i) && i == j;
            let at_l = il matches Some(i) && i == j;
            let at_h = ih matches Some(i) && i == j;
            if at_u {
                assert(before[j].slot == upper);
            }
            if at_l {
                assert(before[j].slot == lower);
            }
            if at_h {
                assert(before[j].slot == hand);
            }
            assert(!(at_u && at_l) && !(at_u && at_h) && !(at_l && at_h));
            if !at_u {
                assert(mid1[j] == before[j]);
            }
            if !at_l {
                assert(mid2[j] == mid1[j]);
            }
            if !at_h {
                assert(slots@[j] == mid2[j]);
            }
        }
    }
}

/// Every slot matched by name among `joints`, in slot order.
pub fn infer_all_slots(world: &World, joints: &Vec<ComponentId>) -> (r: Vec<HumanoidSlotReport>)
    ensures
        r@.len() == all_slots_spec().len(),
        forall|i: int| 0 <= i < r@.len() ==> inferred_report(world, joints@, all_slots_spec()[i], #[trigger] r@[i]),
{
    let slots = all_slots();
    let mut r: Vec<HumanoidSlotReport> = Vec::new();
    let mut i: usize = 0;
    while i < slots.len()
        invariant
            i <= slots@.len(),
            slots@ == all_slots_spec(),
            r@.len() == i,
            forall|k: int| 0 <= k < i ==> inferred_report(world, joints@, all_slots_spec()[k], #[trigger] r@[k]),
        decreases slots@.len() - i,
    {
        r.push(infer_slot_by_name(world, joints, slots[i]));
        i += 1;
    }
    r
}

/// Every slot reported unresolved, in slot order.
pub fn unresolved_slots() -> (r: Vec<HumanoidSlotReport>)
    ensures
        r@.len() == all_slots_spec().len(),
        forall|i: int| 0 <= i < r@.len() ==> unresolved_report(#[trigger] r@[i], all_slots_spec()[i]),
{
    let slots = all_slots();
    let mut r: Vec<HumanoidSlotReport> = Vec::new();
    let mut i: usize = 0;
    while i < slots.len()
        invariant
            i <= slots@.len(),
            slots@ == all_slots_spec(),
            r@.len() == i,
            forall|k: int| 0 <= k < i ==> unresolved_report(#[trigger] r@[k], all_slots_spec()[k]),
        decreases slots@.len() - i,
    {
        r.push(
            HumanoidSlotReport {
                slot: slots[i],
                status: HumanoidSlotStatus::Unresolved,
                provenance: HumanoidSlotProvenance::Unresolved,
                diagnostic: None,
            },
        );
        i += 1;
    }
    r
}

/// The humanoid map of one imported armature.
#[derive(Debug, Clone, PartialEq, Eq)]
pub struct HumanoidBoneMapReport {
    pub owning_gltf: ComponentId,
    pub source: Option<ComponentId>,
    pub generation: u64,
    pub valid: bool,
    pub diagnostics: Vec<String>,
    pub slots: Vec<HumanoidSlotReport>,
}

/// A map is valid when nothing was diagnosed, no explicit assignment failed
/// and the head resolved.
pub open spec fn map_valid(diagnostics: Seq<String>, slots: Seq<HumanoidSlotReport>) -> bool {
    &&& diagnostics.len() == 0
    &&& forall|i: int| 0 <= i < slots.len() ==> !(#[trigger] slots[i].status is InvalidExplicit)
    &&& resolved_target(slots, HumanoidSlot::Head) is Some
}

/// The generation after `g`: one more, wrapping past the largest value to
/// one, so that it is never zero.
pub open spec fn next_generation(g: u64) -> u64 {
    if g == u64::MAX {
        1
    } else {
        (g + 1) as u64
    }
}

/// The generation after `g`.
pub fn bump_generation(g: u64) -> (r: u64)
    ensures
        r == next_generation(g),
        r >= 1,
{
    if g == u64::MAX {
        1
    } else {
        g + 1
    }
}

impl HumanoidBoneMapReport {
    /// The report of an armature with the given slot outcomes and
    /// diagnostics; its validity is computed from them.
    pub fn summarize(
        owning_gltf: ComponentId,
        source: Option<ComponentId>,
        generation: u64,
        diagnostics: Vec<String>,
        slots: Vec<HumanoidSlotReport>,
    ) -> (r: Self)
        ensures
            r.owning_gltf == owning_gltf,
            r.source == source,
            r.generation == generation,
            r.diagnostics == diagnostics,
            r.slots == slots,
            r.valid == map_valid(diagnostics@, slots@),
    {
        let mut no_invalid = true;
        let mut i: usize = 0;
        while i < slots.len()
            invariant
                i <= slots@.len(),
                no_invalid == forall|k: int| 0 <= k < i ==> !(#[trigger] slots@[k].status is InvalidExplicit),
            decreases slots@.len() - i,
        {
            if let HumanoidSlotStatus::InvalidExplicit(_) = &slots[i].status {
                no_invalid = false;
            }
            i += 1;
        }
        let head = target_of(&slots, HumanoidSlot::Head).is_some();
        let valid = diagnostics.len() == 0 && no_invalid && head;
        HumanoidBoneMapReport { owning_gltf, source, generation, valid, diagnostics, slots }
    }

    /// The report of an armature that more than one authored map claims:
    /// invalid, with every slot unresolved.
    pub fn conflicting_maps(owning_gltf: ComponentId, generation: u64) -> (r: Self)
        ensures
            r.owning_gltf == owning_gltf,
            r.source is None,
            r.generation == generation,
            !r.valid,
            r.diagnostics@.len() == 1,
            r.diagnostics@[0]@ == "multiple HumanoidBoneMap components belong to one GLTF"@,
            r.slots@.len() == all_slots_spec().len(),
            forall|i: int| 0 <= i < r.slots@.len() ==> unresolved_report(#[trigger] r.slots@[i], all_slots_spec()[i]),
    {
        HumanoidBoneMapReport {
            owning_gltf,
            source: None,
            generation,
            valid: false,
            diagnostics: vec![word("multiple HumanoidBoneMap components belong to one GLTF")],
            slots: unresolved_slots(),
        }
    }

    /// The report of an armature mapped by joint names alone: every slot
    /// matched by name, then both arms checked for an anatomical chain.
    pub fn by_name(world: &World, owning_gltf: ComponentId, generation: u64, joints: &Vec<ComponentId>) -> (r: Self)
        ensures
            r.owning_gltf == owning_gltf,
            r.source is None,
            r.generation == generation,
            r.diagnostics@.len() == 0,
            r.valid == map_valid(r.diagnostics@, r.slots@),
            exists|named: Seq<HumanoidSlotReport>, left_checked: Seq<HumanoidSlotReport>| {
                &&& named.len() == all_slots_spec().len()
                &&& forall|i: int| 0 <= i < named.len() ==> inferred_report(world, joints@, all_slots_spec()[i], #[trigger] named[i])
                &&& arm_checked(world, named, left_checked, true)
                &&& arm_checked(world, left_checked, r.slots@, false)
            },
    {
        let mut slots = infer_all_slots(world, joints);
        let ghost named = slots@;
        validate_arm_topology(world, &mut slots, true);
        let ghost left_checked = slots@;
        validate_arm_topology(world, &mut slots, false);
        Self::summarize(owning_gltf, None, generation, Vec::new(), slots)
    }

    /// The target `slot` resolved to, if it resolved.
    pub fn target(&self, slot: HumanoidSlot) -> (r: Option<ResolvedHumanoidTarget>)
        ensures
            r == resolved_target(self.slots@, slot),
    {
        target_of(&self.slots, slot)
    }

    /// The entry reporting `slot`.
    pub fn slot(&self, slot: HumanoidSlot) -> (r: Option<&HumanoidSlotReport>)
        ensures
            match r {
                Some(e) => slot_lookup(self.slots@, slot) == Some(*e),
                None => slot_lookup(self.slots@, slot) is None,
            },
    {
        match find_slot(&self.slots, slot) {
            Some(i) => Some(&self.slots[i]),
            None => None,
        }
    }

    /// Whether the head resolved: the one slot every avatar needs.
    pub fn head_ready(&self) -> (b: bool)
        ensures
            b == resolved_target(self.slots@, HumanoidSlot::Head) is Some,
    {
        self.target(HumanoidSlot::Head).is_some()
    }

    /// Whether the arm on `left` resolved from shoulder to hand; each arm is
    /// usable on its own.
    pub fn arm_ready(&self, left: bool) -> (b: bool)
        ensures
            b == ({
                let (upper, lower, hand) = arm_slots(left);
                &&& resolved_target(self.slots@, upper) is Some
                &&& resolved_target(self.slots@, lower) is Some
                &&& resolved_target(self.slots@, hand) is Some
            }),
    {
        let (upper, lower, hand) = if left {
            (HumanoidSlot::LeftUpperArm, HumanoidSlot::LeftLowerArm, HumanoidSlot::LeftHand)
        } else {
            (HumanoidSlot::RightUpperArm, HumanoidSlot::RightLowerArm, HumanoidSlot::RightHand)
        };
        self.target(upper).is_some() && self.target(lower).is_some() && self.target(hand).is_some()
    }
}

proof fn lemma_same_slots_same_index(a: Seq<HumanoidSlotReport>, b: Seq<HumanoidSlotReport>, slot: HumanoidSlot, i: int)
    requires
        a.len() == b.len(),
        forall|j: int| 0 <= j < a.len() ==> (#[trigger] a[j]).slot == b[j].slot,
    ensures
        slot_index_from(a, slot, i) == slot_index_from(b, slot, i),
    decreases a.len() - i,
{
    if 0 <= i < a.len() {
        lemma_same_slots_same_index(a, b, slot, i + 1);
    }
}

/// Checking one arm's chain leaves the entries of the other arm's slots as
/// they were.
pub proof fn checking_one_arm_keeps_the_other(
    world: &World,
    before: Seq<HumanoidSlotReport>,
    after: Seq<HumanoidSlotReport>,
    left: bool,
)
    requires
        arm_checked(world, before, after, !left),
    ensures
        slot_lookup(after, arm_slots(left).0) == slot_lookup(before, arm_slots(left).0),
        slot_lookup(after, arm_slots(left).1) == slot_lookup(before, arm_slots(left).1),
        slot_lookup(after, arm_slots(left).2) == slot_lookup(before, arm_slots(left).2),
{
    assert forall|j: int| 0 <= j < after.len() implies (#[trigger] after[j]).slot == before[j].slot by {
        if demoted_at(world, before, !left, j) {
            assert(topology_failure(after[j], before[j].slot));
        }
    }
    let (u, l, h) = arm_slots(left);
    let (ou, ol, oh) = arm_slots(!left);
    lemma_slot_index_bounds(before, ou, 0);
    lemma_slot_index_bounds(before, ol, 0);
    lemma_slot_index_bounds(before, oh, 0);
    lemma_same_slots_same_index(after, before, u, 0);
    lemma_same_slots_same_index(after, before, l, 0);
    lemma_same_slots_same_index(after, before, h, 0);
    lemma_slot_index_bounds(before, u, 0);
    lemma_slot_index_bounds(before, l, 0);
    lemma_slot_index_bounds(before, h, 0);
    if let Some(k) = slot_index_from(before, u, 0) {
        assert(!demoted_at(world, before, !left, k));
    }
    if let Some(k) = slot_index_from(before, l, 0) {
        assert(!demoted_at(world, before, !left, k));
    }
    if let Some(k) = slot_index_from(before, h, 0) {
        assert(!demoted_at(world, before, !left, k));
    }
}

} // verus!
