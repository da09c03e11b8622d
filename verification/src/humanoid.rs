//! Humanoid bone naming: how joint names are split into tokens, which
//! token sequences name a slot by convention, which joints are helpers, and
//! how a slot is matched by name among an armature's joints.
use vstd::prelude::*;
use crate::ids::ComponentId;
use crate::text::string_push;
use crate::world::World;

verus! {

/// How a humanoid slot's target was found.
#[derive(Debug, Clone, Copy, PartialEq, Eq, Structural)]
pub enum ResolvedHumanoidTargetKind {
    SkinJoint,
    Transform,
    GeneratedAnchor,
}

/// The component a humanoid slot resolved to.
#[derive(Debug, Clone, Copy, PartialEq, Eq, Structural)]
pub struct ResolvedHumanoidTarget {
    pub component: ComponentId,
    pub kind: ResolvedHumanoidTargetKind,
}

/// Why a humanoid slot has its status.
#[derive(Debug, Clone, Copy, PartialEq, Eq, Structural)]
pub enum HumanoidSlotProvenance {
    Explicit,
    ConventionName,
    TopologyGeometry,
    Symmetry,
    DerivedEyeMidpoint,
    HeadFallback,
    Absent,
    Unresolved,
    Ambiguous,
    InvalidExplicit,
}

/// The outcome of resolving one humanoid slot.
#[derive(Debug, Clone, PartialEq, Eq)]
pub enum HumanoidSlotStatus {
    Resolved(ResolvedHumanoidTarget),
    Absent,
    Unresolved,
    Ambiguous { candidates: Vec<ComponentId> },
    InvalidExplicit(String),
}

pub open spec fn is_upper(c: char) -> bool {
    'A' <= c <= 'Z'
}

pub open spec fn is_lower(c: char) -> bool {
    'a' <= c <= 'z'
}

pub open spec fn is_digit(c: char) -> bool {
    '0' <= c <= '9'
}

pub open spec fn is_alnum(c: char) -> bool {
    is_upper(c) || is_lower(c) || is_digit(c)
}

/// ASCII lower case of `c`.
pub open spec fn lower(c: char) -> char {
    if is_upper(c) {
        ((c as u32) + 32) as char
    } else {
        c
    }
}

/// Closes the token being built, when it is not empty.
pub open spec fn flush(cur: Seq<char>, toks: Seq<Seq<char>>) -> (Seq<char>, Seq<Seq<char>>) {
    if cur.len() > 0 {
        (Seq::empty(), toks.push(cur))
    } else {
        (cur, toks)
    }
}

/// One character of tokenisation. The state is whether the previous
/// character was a lower-case letter or digit, the token being built and
/// the tokens closed so far. A lower-to-upper case change and every
/// character that is not an ASCII letter or digit separate tokens; letters
/// are lower-cased.
pub open spec fn token_step(st: (bool, Seq<char>, Seq<Seq<char>>), c: char) -> (bool, Seq<char>, Seq<Seq<char>>) {
    let (cur1, toks1) = if is_upper(c) && st.0 { flush(st.1, st.2) } else { (st.1, st.2) };
    if is_alnum(c) {
        (is_lower(c) || is_digit(c), cur1.push(lower(c)), toks1)
    } else {
        let (cur2, toks2) = flush(cur1, toks1);
        (false, cur2, toks2)
    }
}

/// The tokenisation state after the characters of `s`.
pub open spec fn token_state(s: Seq<char>) -> (bool, Seq<char>, Seq<Seq<char>>) {
    s.fold_left((false, Seq::<char>::empty(), Seq::<Seq<char>>::empty()), |st: (bool, Seq<char>, Seq<Seq<char>>), c: char| token_step(st, c))
}

/// The tokens of a joint name.
pub open spec fn name_tokens_spec(s: Seq<char>) -> Seq<Seq<char>> {
    let st = token_state(s);
    flush(st.1, st.2).1
}

/// The views of a list of strings.
pub open spec fn views(v: Seq<String>) -> Seq<Seq<char>> {
    v.map_values(|t: String| t@)
}

fn lower_char(c: char) -> (r: char)
    ensures
        r == lower(c),
{
    if 'A' <= c && c <= 'Z' {
        let b = c as u8;
        let r = (b + 32) as char;
        proof {
            assert(r == ((c as u32) + 32) as char);
        }
        r
    } else {
        c
    }
}

fn flush_exec(cur: &mut String, toks: &mut Vec<String>)
    ensures
        (final(cur)@, views(final(toks)@)) == flush(old(cur)@, views(old(toks)@)),
{
    if cur.unicode_len() > 0 {
        let mut done = String::new();
        std::mem::swap(&mut done, cur);
        let ghost before = toks@;
        toks.push(done);
        proof {
            assert(views(toks@) =~= views(before).push(done@));
        }
    }
}

/// Splits a joint name into lower-case tokens: `mixamorig:LeftUpLeg`
/// gives `mixamorig`, `left`, `up`, `leg`.
pub fn name_tokens(name: &str) -> (tokens: Vec<String>)
    ensures
        views(tokens@) == name_tokens_spec(name@),
{
    let n = name.unicode_len();
    let mut prev_lower = false;
    let mut cur = String::new();
    let mut toks: Vec<String> = Vec::new();
    let mut i: usize = 0;
    proof {
        assert(views(toks@) =~= Seq::<Seq<char>>::empty());
        assert(name@.take(0) =~= Seq::<char>::empty());
        assert(cur@ =~= Seq::<char>::empty());
    }
    while i < n
        invariant
            i <= n,
            n == name@.len(),
            (prev_lower, cur@, views(toks@)) == token_state(name@.take(i as int)),
        decreases n - i,
    {
        let c = name.get_char(i);
        proof {
            assert(name@.take(i + 1).drop_last() =~= name@.take(i as int));
            assert(name@.take(i + 1).last() == c);
        }
        if 'A' <= c && c <= 'Z' && prev_lower {
            flush_exec(&mut cur, &mut toks);
        }
        let alnum = ('A' <= c && c <= 'Z') || ('a' <= c && c <= 'z') || ('0' <= c && c <= '9');
        if alnum {
            string_push(&mut cur, lower_char(c));
            prev_lower = ('a' <= c && c <= 'z') || ('0' <= c && c <= '9');
        } else {
            flush_exec(&mut cur, &mut toks);
            prev_lower = false;
        }
        i += 1;
    }
    proof {
        assert(name@.take(n as int) =~= name@);
    }
    flush_exec(&mut cur, &mut toks);
    toks
}


/// Tokens that may prefix a conventional bone name: rig namespaces.
pub open spec fn rig_word(t: Seq<char>) -> bool {
    t == "mixamorig"@ || t == "armature"@ || t == "skeleton"@ || t == "rig"@
}

/// Tokens that mark helper, twist or secondary joints.
pub open spec fn helper_word(t: Seq<char>) -> bool {
    t == "helper"@ || t == "twist"@ || t == "collider"@ || t == "adjust"@ || t == "adjustment"@
        || t == "secondary"@ || t == "spring"@ || t == "end"@
}

/// `tokens` spell `pattern`, possibly behind a non-empty run of rig namespace tokens.
pub open spec fn convention_match_spec(tokens: Seq<Seq<char>>, pattern: Seq<Seq<char>>) -> bool {
    tokens == pattern || {
        let k = tokens.len() - pattern.len();
        &&& k > 0
        &&& tokens.skip(k) == pattern
        &&& forall|i: int| 0 <= i < k ==> rig_word(#[trigger] tokens[i])
    }
}

/// Some token marks a helper joint.
pub open spec fn is_helper_spec(tokens: Seq<Seq<char>>) -> bool {
    exists|i: int| 0 <= i < tokens.len() && helper_word(#[trigger] tokens[i])
}

pub fn word_is(t: &String, w: &str) -> (b: bool)
    ensures
        b == (t@ == w@),
{
    *t == w.to_owned()
}

fn is_rig_word(t: &String) -> (b: bool)
    ensures
        b == rig_word(t@),
{
    word_is(t, "mixamorig") || word_is(t, "armature") || word_is(t, "skeleton") || word_is(t, "rig")
}

fn is_helper_word(t: &String) -> (b: bool)
    ensures
        b == helper_word(t@),
{
    word_is(t, "helper") || word_is(t, "twist") || word_is(t, "collider") || word_is(t, "adjust")
        || word_is(t, "adjustment") || word_is(t, "secondary") || word_is(t, "spring") || word_is(t, "end")
}

/// Whether `tokens` name `pattern` by convention: exactly, or behind rig
/// namespace tokens such as `mixamorig`.
pub fn convention_tokens_match(tokens: &Vec<String>, pattern: &Vec<String>) -> (b: bool)
    ensures
        b == convention_match_spec(views(tokens@), views(pattern@)),
{
    let ghost tv = views(tokens@);
    let ghost pv = views(pattern@);
    let nt = tokens.len();
    let np = pattern.len();
    proof {
        assert(tv.len() == nt);
        assert(pv.len() == np);
    }
    if nt < np {
        proof {
            assert(tv.len() != pv.len());
        }
        return false;
    }
    let k = nt - np;
    let mut i: usize = 0;
    while i < np
        invariant
            i <= np,
            nt == tokens@.len(),
            np == pattern@.len(),
            k == nt - np,
            tv == views(tokens@),
            pv == views(pattern@),
            tv.len() == nt,
            pv.len() == np,
            forall|j: int| 0 <= j < i ==> #[trigger] tv[k + j] == pv[j],
        decreases np - i,
    {
        if !(tokens[k + i] == pattern[i]) {
            proof {
                assert(tv[k + i] != pv[i as int]);
                if k == 0 {
                    assert(tv != pv);
                }
                assert(tv.skip(k as int)[i as int] == tv[k + i]);
            }
            return false;
        }
        i += 1;
    }
    proof {
        assert forall|j: int| 0 <= j < pv.len() implies #[trigger] tv.skip(k as int)[j] == pv[j] by {
            assert(tv[k + j] == pv[j]);
        }
        assert(tv.skip(k as int) =~= pv);
    }
    if k == 0 {
        proof {
            assert(tv =~= pv);
        }
        return true;
    }
    let mut j: usize = 0;
    while j < k
        invariant
            j <= k,
            k <= tokens@.len(),
            k > 0,
            tv == views(tokens@),
            tv.len() == tokens@.len(),
            pv == views(pattern@),
            pv.len() + k == tv.len(),
            forall|q: int| 0 <= q < j ==> rig_word(#[trigger] tv[q]),
        decreases k - j,
    {
        if !is_rig_word(&tokens[j]) {
            proof {
                assert(!rig_word(tv[j as int]));
                assert(tv.len() != pv.len());
            }
            return false;
        }
        j += 1;
    }
    true
}

/// Whether any token marks a helper joint.
pub fn is_helper(tokens: &Vec<String>) -> (b: bool)
    ensures
        b == is_helper_spec(views(tokens@)),
{
    let ghost tv = views(tokens@);
    let mut i: usize = 0;
    while i < tokens.len()
        invariant
            i <= tokens@.len(),
            tv == views(tokens@),
            forall|q: int| 0 <= q < i ==> !helper_word(#[trigger] tv[q]),
        decreases tokens@.len() - i,
    {
        if is_helper_word(&tokens[i]) {
            proof {
                assert(helper_word(tv[i as int]));
            }
            return true;
        }
        i += 1;
    }
    false
}

/// The outcome of matching one slot by joint name.
#[derive(Debug, Clone, PartialEq, Eq)]
pub struct NameMatch {
    pub status: HumanoidSlotStatus,
    pub provenance: HumanoidSlotProvenance,
    pub diagnostic: Option<String>,
}

/// The tokens of a joint's name; a joint that is not live has an empty name.
pub open spec fn joint_tokens(w: &World, j: ComponentId) -> Seq<Seq<char>> {
    name_tokens_spec(w.name_spec(j))
}

/// The token patterns of a slot.
pub open spec fn pattern_views(patterns: Seq<Vec<String>>) -> Seq<Seq<Seq<char>>> {
    patterns.map_values(|p: Vec<String>| views(p@))
}

/// Joint `j` is not a helper and its name matches one of the patterns.
pub open spec fn name_matches(w: &World, j: ComponentId, patterns: Seq<Seq<Seq<char>>>) -> bool {
    &&& !is_helper_spec(joint_tokens(w, j))
    &&& exists|k: int| 0 <= k < patterns.len() && convention_match_spec(joint_tokens(w, j), #[trigger] patterns[k])
}

/// Identities in strictly increasing slot order.
pub open spec fn increasing(s: Seq<ComponentId>) -> bool {
    forall|i: int, j: int| 0 <= i < j < s.len() ==> #[trigger] s[i].index < #[trigger] s[j].index
}

/// `new` holds what `old` holds and `x`, and nothing else.
pub open spec fn adds(new: Seq<ComponentId>, old: Seq<ComponentId>, x: ComponentId) -> bool {
    forall|y: ComponentId| new.contains(y) <==> (old.contains(y) || y == x)
}

/// Inserts `x` into a strictly increasing list, unless it is there.
#[verifier::spinoff_prover]
pub fn insert_sorted(v: &mut Vec<ComponentId>, x: ComponentId)
    requires
        increasing(old(v)@),
    ensures
        increasing(final(v)@),
        adds(final(v)@, old(v)@, x),
{
    let mut k: usize = 0;
    while k < v.len() && v[k].index < x.index
        invariant
            k <= v@.len(),
            v@ == old(v)@,
            forall|q: int| 0 <= q < k ==> #[trigger] v@[q].index < x.index,
        decreases v@.len() - k,
    {
        k += 1;
    }
    if k < v.len() && v[k].index == x.index {
        proof {
            assert(v@[k as int] == x);
        }
        return;
    }
    let ghost before = v@;
    v.insert(k, x);
    proof {
        assert forall|i: int, j: int| 0 <= i < j < v@.len() implies #[trigger] v@[i].index < #[trigger] v@[j].index by {
            if j < k {
                assert(v@[i] == before[i] && v@[j] == before[j]);
            } else if j == k {
                assert(v@[i] == before[i]);
            } else if i < k {
                assert(v@[i] == before[i] && v@[j] == before[j - 1]);
                if k < before.len() {
                    assert(before[k as int].index >= x.index);
                    if j - 1 > k {
                        assert(before[k as int].index < before[j - 1].index);
                    }
                }
            } else if i == k {
                assert(v@[j] == before[j - 1]);
                assert(before[k as int].index > x.index);
                if j - 1 > k {
                    assert(before[k as int].index < before[j - 1].index);
                }
            } else {
                assert(v@[i] == before[i - 1] && v@[j] == before[j - 1]);
            }
        }
        assert forall|y: ComponentId| v@.contains(y) <==> (before.contains(y) || y == x) by {
            if v@.contains(y) {
                let q = choose|q: int| 0 <= q < v@.len() && #[trigger] v@[q] == y;
                if q < k {
                    assert(before[q] == y);
                } else if q > k {
                    assert(before[q - 1] == y);
                }
            }
            if before.contains(y) {
                let q = choose|q: int| 0 <= q < before.len() && #[trigger] before[q] == y;
                if q < k {
                    assert(v@[q] == y);
                } else {
                    assert(v@[q + 1] == y);
                }
            }
            if y == x {
                assert(v@[k as int] == x);
            }
        }
        assert(adds(v@, before, x));
    }
}

/// `r` is the outcome of matching a slot with patterns `pv` among `joints`
/// by name: the one matching joint, or none, or every equally strong match
/// in slot order.
pub open spec fn inferred(world: &World, joints: Seq<ComponentId>, pv: Seq<Seq<Seq<char>>>, r: NameMatch) -> bool {
    exists|c: Seq<ComponentId>| {
        &&& increasing(c)
        &&& forall|x: ComponentId| #[trigger] c.contains(x) <==> joints.contains(x) && name_matches(world, x, pv)
        &&& c.len() == 0 ==> r.status == HumanoidSlotStatus::Unresolved && r.provenance == HumanoidSlotProvenance::Unresolved
            && r.diagnostic is None
        &&& c.len() == 1 ==> r.status == HumanoidSlotStatus::Resolved(ResolvedHumanoidTarget {
                component: c[0],
                kind: ResolvedHumanoidTargetKind::SkinJoint,
            }) && r.provenance == HumanoidSlotProvenance::ConventionName && r.diagnostic is None
        &&& c.len() > 1 ==> (r.status matches HumanoidSlotStatus::Ambiguous { candidates } && candidates@ == c)
            && r.provenance == HumanoidSlotProvenance::Ambiguous
            && (r.diagnostic matches Some(d) && d@ == crate::text::decimal(c.len()) + " equally strong name matches"@)
    }
}

/// The slot that `patterns` describe, matched among `joints` by name: the
/// one matching joint, or none, or every equally strong match in slot order.
pub fn infer_by_name(world: &World, joints: &Vec<ComponentId>, patterns: &Vec<Vec<String>>) -> (r: NameMatch)
    ensures
        inferred(world, joints@, pattern_views(patterns@), r),
{
    let ghost pv = pattern_views(patterns@);
    let mut cands: Vec<ComponentId> = Vec::new();
    let mut i: usize = 0;
    while i < joints.len()
        invariant
            i <= joints@.len(),
            pv == pattern_views(patterns@),
            increasing(cands@),
            forall|x: ComponentId| #[trigger] cands@.contains(x) <==> joints@.take(i as int).contains(x) && name_matches(world, x, pv),
        decreases joints@.len() - i,
    {
        let j = joints[i];
        let label = match world.component_label(j) {
            Some(name) => name,
            None => String::new(),
        };
        let toks = name_tokens(label.as_str());
        let helper = is_helper(&toks);
        let mut any = false;
        if !helper {
            let mut k: usize = 0;
            while k < patterns.len()
                invariant_except_break
                    k <= patterns@.len(),
                    pv == pattern_views(patterns@),
                    !any,
                    forall|q: int| 0 <= q < k ==> !convention_match_spec(views(toks@), #[trigger] pv[q]),
                ensures
                    pv == pattern_views(patterns@),
                    any ==> exists|q: int| 0 <= q < patterns@.len() && convention_match_spec(views(toks@), #[trigger] pv[q]),
                    !any ==> forall|q: int| 0 <= q < patterns@.len() ==> !convention_match_spec(views(toks@), #[trigger] pv[q]),
                decreases patterns@.len() - k,
            {
                proof {
                    assert(pv[k as int] == views(patterns@[k as int]@));
                }
                if convention_tokens_match(&toks, &patterns[k]) {
                    any = true;
                    break;
                }
                k += 1;
            }
        }
        proof {
            assert(views(toks@) == joint_tokens(world, j));
            assert(any == name_matches(world, j, pv));
        }
        let ghost before = cands@;
        if any {
            insert_sorted(&mut cands, j);
            proof {
                assert(adds(cands@, before, j));
            }
        }
        proof {
            assert(joints@.take(i + 1) =~= joints@.take(i as int).push(j));
            assert forall|x: ComponentId| #[trigger] cands@.contains(x) <==> joints@.take(i + 1).contains(x) && name_matches(world, x, pv) by {
                if joints@.take(i + 1).contains(x) && x != j {
                    let q = choose|q: int| 0 <= q < i + 1 && #[trigger] joints@.take(i + 1)[q] == x;
                    assert(joints@.take(i as int)[q] == x);
                }
                if joints@.take(i as int).contains(x) {
                    let q = choose|q: int| 0 <= q < i && #[trigger] joints@.take(i as int)[q] == x;
                    assert(joints@.take(i + 1)[q] == x);
                }
                assert(joints@.take(i + 1)[i as int] == j);
            }
        }
        i += 1;
    }
    proof {
        assert(joints@.take(joints@.len() as int) =~= joints@);
    }
    let n = cands.len();
    if n == 0 {
        NameMatch { status: HumanoidSlotStatus::Unresolved, provenance: HumanoidSlotProvenance::Unresolved, diagnostic: None }
    } else if n == 1 {
        NameMatch {
            status: HumanoidSlotStatus::Resolved(ResolvedHumanoidTarget { component: cands[0], kind: ResolvedHumanoidTargetKind::SkinJoint }),
            provenance: HumanoidSlotProvenance::ConventionName,
            diagnostic: None,
        }
    } else {
        let mut d = String::new();
        crate::text::push_zero_padded(&mut d, n as u64, 0);
        let suffix = " equally strong name matches";
        let m = suffix.unicode_len();
        let mut q: usize = 0;
        proof {
            assert(d@ =~= crate::text::decimal(n as nat) + suffix@.take(0));
        }
        while q < m
            invariant
                q <= m,
                m == suffix@.len(),
                d@ == crate::text::decimal(n as nat) + suffix@.take(q as int),
            decreases m - q,
        {
            let c = suffix.get_char(q);
            string_push(&mut d, c);
            q += 1;
            proof {
                assert(d@ =~= crate::text::decimal(n as nat) + suffix@.take(q as int));
            }
        }
        proof {
            assert(suffix@.take(m as int) =~= suffix@);
        }
        NameMatch {
            status: HumanoidSlotStatus::Ambiguous { candidates: cands },
            provenance: HumanoidSlotProvenance::Ambiguous,
            diagnostic: Some(d),
        }
    }
}

} // verus!
