//! Cached, transaction-based classification of planar transparent content.
//!
//! Callers publish a complete snapshot of a scope's candidates in a
//! transaction; only a successful commit replaces the scope's committed
//! classification. Coordinates and depths are single-precision values held
//! by their bit patterns.
use vstd::prelude::*;
use crate::ids::ComponentId;

verus! {

/// Stable identity of one independent planar transparency scope.
#[derive(Debug, Clone, Copy, PartialEq, Eq, Hash, Structural)]
pub struct PlanarTransparencyScopeId(pub ComponentId);

/// Opaque handle of one staged replacement of a scope snapshot.
#[derive(Debug, Clone, Copy, PartialEq, Eq, Hash, Structural)]
pub struct PlanarTransparencyTransaction {
    scope: PlanarTransparencyScopeId,
    generation: u64,
}

impl PlanarTransparencyTransaction {
    /// The scope the transaction replaces.
    pub closed spec fn scope_id(self) -> PlanarTransparencyScopeId {
        self.scope
    }

    /// The generation the transaction was begun with.
    pub closed spec fn generation(self) -> u64 {
        self.generation
    }
}

/// Axis-aligned rectangle in a scope's local planar coordinates; each field
/// is the bit pattern of a single-precision value.
#[derive(Debug, Clone, Copy, PartialEq, Eq, Structural)]
pub struct PlanarRect {
    pub min_x_bits: u32,
    pub min_y_bits: u32,
    pub max_x_bits: u32,
    pub max_y_bits: u32,
}

/// One generated or system-owned transparent renderable in a planar scope.
#[derive(Debug, Clone, Copy, PartialEq, Eq, Structural)]
pub struct PlanarTransparencyCandidate {
    /// The renderable's identity, not its owning transform.
    pub renderable: ComponentId,
    pub root_local_rect: PlanarRect,
    /// Bit pattern of the relative depth along the scope normal.
    pub stacking_depth_bits: u32,
    /// Deterministic layout order that breaks equal-depth ties.
    pub stable_order: u32,
}

/// Renderer-facing result of a committed planar classification.
#[derive(Debug, Clone, Copy, PartialEq, Eq, Structural)]
pub enum PlanarTransparencyResolution {
    /// No other candidate of the scope overlaps this candidate's rectangle.
    SingleLayer,
    /// Some other candidate of the scope overlaps this candidate's rectangle.
    MultiLayer,
}

/// A committed candidate result, kept until its scope is replaced or removed.
#[derive(Debug, Clone, Copy, PartialEq, Eq, Structural)]
pub struct ResolvedPlanarTransparencyCandidate {
    pub resolution: PlanarTransparencyResolution,
    pub stacking_depth_bits: u32,
    pub stable_order: u32,
}

/// Why a transaction step was refused.
#[derive(Debug, Clone, Copy, PartialEq, Eq, Structural)]
pub enum PlanarTransparencyTransactionError {
    /// The transaction is not the scope's current staged one.
    StaleTransaction,
    /// The renderable was already staged in this transaction.
    DuplicateCandidate { renderable: ComponentId },
    /// The renderable's rectangle or depth is not finite, or the rectangle is inverted.
    InvalidCandidate { renderable: ComponentId },
}

/// A single-precision bit pattern encodes a finite value.
pub open spec fn f32_finite(bits: u32) -> bool {
    bits & 0x7f80_0000u32 != 0x7f80_0000u32
}

/// An integer that orders finite single-precision values as the values
/// themselves are ordered: the magnitude bits, negated for negative values,
/// so that both zeros map to 0.
pub open spec fn f32_order_key(bits: u32) -> int {
    let magnitude = (bits & 0x7fff_ffffu32) as int;
    if bits & 0x8000_0000u32 != 0u32 {
        -magnitude
    } else {
        magnitude
    }
}

/// Finite coordinates with `min <= max` on both axes.
pub open spec fn rect_valid(r: PlanarRect) -> bool {
    &&& f32_finite(r.min_x_bits)
    &&& f32_finite(r.min_y_bits)
    &&& f32_finite(r.max_x_bits)
    &&& f32_finite(r.max_y_bits)
    &&& f32_order_key(r.min_x_bits) <= f32_order_key(r.max_x_bits)
    &&& f32_order_key(r.min_y_bits) <= f32_order_key(r.max_y_bits)
}

/// The rectangles overlap with positive area; touching at an edge or a
/// corner is no overlap.
pub open spec fn rects_overlap(a: PlanarRect, b: PlanarRect) -> bool {
    &&& f32_order_key(a.min_x_bits) < f32_order_key(b.max_x_bits)
    &&& f32_order_key(b.min_x_bits) < f32_order_key(a.max_x_bits)
    &&& f32_order_key(a.min_y_bits) < f32_order_key(b.max_y_bits)
    &&& f32_order_key(b.min_y_bits) < f32_order_key(a.max_y_bits)
}

/// A candidate can be committed: a valid rectangle and a finite depth.
pub open spec fn candidate_valid(c: PlanarTransparencyCandidate) -> bool {
    rect_valid(c.root_local_rect) && f32_finite(c.stacking_depth_bits)
}

/// Candidate `i` overlaps some other candidate of `cands`.
pub open spec fn overlaps_another(cands: Seq<PlanarTransparencyCandidate>, i: int) -> bool {
    exists|j: int|
        0 <= j < cands.len() && j != i && #[trigger] rects_overlap(cands[i].root_local_rect, cands[j].root_local_rect)
}

/// The committed result of candidate `i` of a snapshot.
pub open spec fn resolved_at(cands: Seq<PlanarTransparencyCandidate>, i: int) -> ResolvedPlanarTransparencyCandidate {
    ResolvedPlanarTransparencyCandidate {
        resolution: if overlaps_another(cands, i) {
            PlanarTransparencyResolution::MultiLayer
        } else {
            PlanarTransparencyResolution::SingleLayer
        },
        stacking_depth_bits: cands[i].stacking_depth_bits,
        stable_order: cands[i].stable_order,
    }
}

/// The committed entries of a snapshot, in staging order.
pub open spec fn resolve_all(cands: Seq<PlanarTransparencyCandidate>) -> Seq<(ComponentId, ResolvedPlanarTransparencyCandidate)> {
    Seq::new(cands.len(), |i: int| (cands[i].renderable, resolved_at(cands, i)))
}

/// No renderable is staged twice.
pub open spec fn distinct_renderables(cands: Seq<PlanarTransparencyCandidate>) -> bool {
    forall|i: int, j: int|
        0 <= i < cands.len() && 0 <= j < cands.len() && i != j ==> #[trigger] cands[i].renderable != #[trigger] cands[j].renderable
}

/// `r` is staged in `cands`.
pub open spec fn staged_contains(cands: Seq<PlanarTransparencyCandidate>, r: ComponentId) -> bool {
    exists|i: int| 0 <= i < cands.len() && #[trigger] cands[i].renderable == r
}

/// The result committed for `r` among `entries`.
pub open spec fn entry_lookup(
    entries: Seq<(ComponentId, ResolvedPlanarTransparencyCandidate)>,
    r: ComponentId,
) -> Option<ResolvedPlanarTransparencyCandidate> {
    if exists|i: int| 0 <= i < entries.len() && #[trigger] entries[i].0 == r {
        Some(entries[choose|i: int| 0 <= i < entries.len() && #[trigger] entries[i].0 == r].1)
    } else {
        None
    }
}

/// `cands[i]` is the first candidate that cannot be committed.
pub open spec fn first_invalid_at(cands: Seq<PlanarTransparencyCandidate>, i: int) -> bool {
    &&& 0 <= i < cands.len()
    &&& !candidate_valid(cands[i])
    &&& forall|j: int| 0 <= j < i ==> candidate_valid(#[trigger] cands[j])
}

/// The generation after `g`, saturating at the largest value.
pub open spec fn next_generation(g: u64) -> u64 {
    if g == u64::MAX {
        g
    } else {
        (g + 1) as u64
    }
}

/// Order key of a single-precision bit pattern.
pub fn order_key(bits: u32) -> (k: i64)
    ensures
        k == f32_order_key(bits),
{
    let magnitude = (bits & 0x7fff_ffffu32) as i64;
    if bits & 0x8000_0000u32 != 0u32 {
        -magnitude
    } else {
        magnitude
    }
}

/// The bit pattern encodes a finite value.
pub fn is_finite_bits(bits: u32) -> (b: bool)
    ensures
        b == f32_finite(bits),
{
    bits & 0x7f80_0000u32 != 0x7f80_0000u32
}

impl PlanarRect {
    /// Both rectangles overlap with positive area.
    pub fn overlaps_open_area(self, other: Self) -> (b: bool)
        ensures
            b == rects_overlap(self, other),
    {
        order_key(self.min_x_bits) < order_key(other.max_x_bits)
            && order_key(other.min_x_bits) < order_key(self.max_x_bits)
            && order_key(self.min_y_bits) < order_key(other.max_y_bits)
            && order_key(other.min_y_bits) < order_key(self.max_y_bits)
    }

    /// Finite coordinates, not inverted.
    pub fn is_valid(self) -> (b: bool)
        ensures
            b == rect_valid(self),
    {
        is_finite_bits(self.min_x_bits) && is_finite_bits(self.min_y_bits) && is_finite_bits(
            self.max_x_bits,
        ) && is_finite_bits(self.max_y_bits) && order_key(self.min_x_bits) <= order_key(
            self.max_x_bits,
        ) && order_key(self.min_y_bits) <= order_key(self.max_y_bits)
    }
}

/// Everything kept for one scope: the last generation handed out, the
/// staged snapshot of the current transaction, and the committed results.
#[derive(Debug)]
struct ScopeState {
    scope: PlanarTransparencyScopeId,
    generation: u64,
    staged: Option<Vec<PlanarTransparencyCandidate>>,
    committed: Option<Vec<(ComponentId, ResolvedPlanarTransparencyCandidate)>>,
}

/// Pure CPU optimizer for declared planar transparency scopes.
///
/// A new transaction supersedes any earlier uncommitted transaction of the
/// same scope; until a commit succeeds, the committed results stay unchanged.
#[derive(Debug)]
pub struct PlanarTransparencyOptimizer {
    scopes: Vec<ScopeState>,
}

/// The state kept for `scope` among `s`.
spec fn seq_state(s: Seq<ScopeState>, scope: PlanarTransparencyScopeId) -> Option<ScopeState> {
    if exists|i: int| 0 <= i < s.len() && #[trigger] s[i].scope == scope {
        Some(s[choose|i: int| 0 <= i < s.len() && #[trigger] s[i].scope == scope])
    } else {
        None
    }
}

spec fn distinct_scopes(s: Seq<ScopeState>) -> bool {
    forall|i: int, j: int|
        0 <= i < s.len() && 0 <= j < s.len() && i != j ==> #[trigger] s[i].scope != #[trigger] s[j].scope
}

spec fn committed_distinct(e: Seq<(ComponentId, ResolvedPlanarTransparencyCandidate)>) -> bool {
    forall|i: int, j: int| 0 <= i < e.len() && 0 <= j < e.len() && i != j ==> #[trigger] e[i].0 != #[trigger] e[j].0
}

spec fn state_ok(st: ScopeState) -> bool {
    &&& (st.staged matches Some(v) ==> distinct_renderables(v@))
    &&& (st.committed matches Some(v) ==> committed_distinct(v@))
}

proof fn lemma_state_at(s: Seq<ScopeState>, i: int)
    requires
        distinct_scopes(s),
        0 <= i < s.len(),
    ensures
        seq_state(s, s[i].scope) == Some(s[i]),
{
    let scope = s[i].scope;
    assert(0 <= i < s.len() && s[i].scope == scope);
    let k = choose|k: int| 0 <= k < s.len() && #[trigger] s[k].scope == scope;
    assert(k == i);
}

proof fn lemma_state_absent(s: Seq<ScopeState>, scope: PlanarTransparencyScopeId)
    requires
        forall|i: int| 0 <= i < s.len() ==> #[trigger] s[i].scope != scope,
    ensures
        seq_state(s, scope) is None,
{
}

/// Replacing the state at `i` by one for the same scope changes nothing else.
proof fn lemma_state_update(s: Seq<ScopeState>, i: int, x: ScopeState, other: PlanarTransparencyScopeId)
    requires
        distinct_scopes(s),
        0 <= i < s.len(),
        x.scope == s[i].scope,
    ensures
        distinct_scopes(s.update(i, x)),
        seq_state(s.update(i, x), x.scope) == Some(x),
        other != x.scope ==> seq_state(s.update(i, x), other) == seq_state(s, other),
{
    let t = s.update(i, x);
    assert(distinct_scopes(t)) by {
        assert forall|a: int, b: int| 0 <= a < t.len() && 0 <= b < t.len() && a != b implies #[trigger] t[a].scope
            != #[trigger] t[b].scope by {
            assert(t[a].scope == s[a].scope);
            assert(t[b].scope == s[b].scope);
        }
    }
    lemma_state_at(t, i);
    if other != x.scope {
        if exists|k: int| 0 <= k < s.len() && #[trigger] s[k].scope == other {
            let k = choose|k: int| 0 <= k < s.len() && #[trigger] s[k].scope == other;
            assert(k != i);
            lemma_state_at(s, k);
            assert(t[k] == s[k]);
            lemma_state_at(t, k);
        } else {
            assert forall|k: int| 0 <= k < t.len() implies #[trigger] t[k].scope != other by {
                if k != i {
                    assert(t[k] == s[k]);
                }
            }
        }
    }
}

/// Appending the state of a new scope changes nothing else.
proof fn lemma_state_push(s: Seq<ScopeState>, x: ScopeState, other: PlanarTransparencyScopeId)
    requires
        distinct_scopes(s),
        seq_state(s, x.scope) is None,
    ensures
        distinct_scopes(s.push(x)),
        seq_state(s.push(x), x.scope) == Some(x),
        other != x.scope ==> seq_state(s.push(x), other) == seq_state(s, other),
{
    let t = s.push(x);
    assert forall|k: int| 0 <= k < s.len() implies #[trigger] s[k].scope != x.scope by {
        if s[k].scope == x.scope {
            assert(0 <= k < s.len() && s[k].scope == x.scope);
        }
    }
    assert(distinct_scopes(t)) by {
        assert forall|a: int, b: int| 0 <= a < t.len() && 0 <= b < t.len() && a != b implies #[trigger] t[a].scope
            != #[trigger] t[b].scope by {
            if a < s.len() {
                assert(t[a] == s[a]);
            }
            if b < s.len() {
                assert(t[b] == s[b]);
            }
        }
    }
    lemma_state_at(t, s.len() as int);
    if other != x.scope {
        if exists|k: int| 0 <= k < s.len() && #[trigger] s[k].scope == other {
            let k = choose|k: int| 0 <= k < s.len() && #[trigger] s[k].scope == other;
            lemma_state_at(s, k);
            assert(t[k] == s[k]);
            lemma_state_at(t, k);
        } else {
            assert forall|k: int| 0 <= k < t.len() implies #[trigger] t[k].scope != other by {
                if k < s.len() {
                    assert(t[k] == s[k]);
                }
            }
        }
    }
}

/// Removing the state at `i` forgets its scope and changes nothing else.
proof fn lemma_state_remove(s: Seq<ScopeState>, i: int, other: PlanarTransparencyScopeId)
    requires
        distinct_scopes(s),
        0 <= i < s.len(),
    ensures
        distinct_scopes(s.remove(i)),
        seq_state(s.remove(i), s[i].scope) is None,
        other != s[i].scope ==> seq_state(s.remove(i), other) == seq_state(s, other),
{
    let t = s.remove(i);
    assert forall|k: int| 0 <= k < t.len() implies t[k] == (if k < i { s[k] } else { s[k + 1] }) by {}
    assert(distinct_scopes(t)) by {
        assert forall|a: int, b: int| 0 <= a < t.len() && 0 <= b < t.len() && a != b implies #[trigger] t[a].scope
            != #[trigger] t[b].scope by {
            let sa = if a < i { a } else { a + 1 };
            let sb = if b < i { b } else { b + 1 };
            assert(t[a] == s[sa]);
            assert(t[b] == s[sb]);
        }
    }
    assert forall|k: int| 0 <= k < t.len() implies #[trigger] t[k].scope != s[i].scope by {
        let sk = if k < i { k } else { k + 1 };
        assert(t[k] == s[sk]);
    }
    if other != s[i].scope {
        if exists|k: int| 0 <= k < s.len() && #[trigger] s[k].scope == other {
            let k = choose|k: int| 0 <= k < s.len() && #[trigger] s[k].scope == other;
            assert(k != i);
            lemma_state_at(s, k);
            let tk = if k < i { k } else { k - 1 };
            assert(t[tk] == s[k]);
            lemma_state_at(t, tk);
        } else {
            assert forall|k: int| 0 <= k < t.len() implies #[trigger] t[k].scope != other by {
                let sk = if k < i { k } else { k + 1 };
                assert(t[k] == s[sk]);
            }
        }
    }
}

proof fn lemma_first_invalid_unique(cands: Seq<PlanarTransparencyCandidate>, i: int, k: int)
    requires
        first_invalid_at(cands, i),
        first_invalid_at(cands, k),
    ensures
        i == k,
{
    if i < k {
        assert(candidate_valid(cands[i]));
    } else if k < i {
        assert(candidate_valid(cands[k]));
    }
}

/// A staged renderable is found in its own committed entries.
proof fn lemma_lookup_at(e: Seq<(ComponentId, ResolvedPlanarTransparencyCandidate)>, i: int)
    requires
        committed_distinct(e),
        0 <= i < e.len(),
    ensures
        entry_lookup(e, e[i].0) == Some(e[i].1),
{
    let r = e[i].0;
    assert(0 <= i < e.len() && e[i].0 == r);
    let k = choose|k: int| 0 <= k < e.len() && #[trigger] e[k].0 == r;
    assert(k == i);
}

proof fn lemma_resolve_all_distinct(cands: Seq<PlanarTransparencyCandidate>)
    requires
        distinct_renderables(cands),
    ensures
        committed_distinct(resolve_all(cands)),
        resolve_all(cands).len() == cands.len(),
{
    let e = resolve_all(cands);
    assert forall|i: int, j: int| 0 <= i < e.len() && 0 <= j < e.len() && i != j implies #[trigger] e[i].0
        != #[trigger] e[j].0 by {
        assert(e[i].0 == cands[i].renderable);
        assert(e[j].0 == cands[j].renderable);
    }
}

impl PlanarTransparencyOptimizer {
    /// Scopes are kept once each, and no renderable is staged or committed
    /// twice in one scope.
    pub closed spec fn wf(self) -> bool {
        &&& distinct_scopes(self.scopes@)
        &&& forall|i: int| 0 <= i < self.scopes@.len() ==> state_ok(#[trigger] self.scopes@[i])
    }

    /// The last generation handed out for `scope`; 0 for a scope never begun
    /// or removed since.
    pub closed spec fn generation_of(self, scope: PlanarTransparencyScopeId) -> u64 {
        match seq_state(self.scopes@, scope) {
            Some(st) => st.generation,
            None => 0,
        }
    }

    /// The snapshot staged by the scope's current transaction.
    pub closed spec fn staged_of(self, scope: PlanarTransparencyScopeId) -> Option<Seq<PlanarTransparencyCandidate>> {
        match seq_state(self.scopes@, scope) {
            Some(st) => match st.staged {
                Some(v) => Some(v@),
                None => None,
            },
            None => None,
        }
    }

    /// The scope's committed results, in the order they were staged.
    pub closed spec fn committed_of(self, scope: PlanarTransparencyScopeId) -> Option<
        Seq<(ComponentId, ResolvedPlanarTransparencyCandidate)>,
    > {
        match seq_state(self.scopes@, scope) {
            Some(st) => match st.committed {
                Some(v) => Some(v@),
                None => None,
            },
            None => None,
        }
    }

    /// `tx` is the current transaction of its scope.
    pub open spec fn accepts(self, tx: PlanarTransparencyTransaction) -> bool {
        &&& self.staged_of(tx.scope_id()) is Some
        &&& self.generation_of(tx.scope_id()) == tx.generation()
    }

    /// Every scope other than `scope` reads the same in `self` and `other`.
    pub open spec fn agrees_outside(self, other: Self, scope: PlanarTransparencyScopeId) -> bool {
        &&& forall|s: PlanarTransparencyScopeId| s != scope ==> #[trigger] self.generation_of(s) == other.generation_of(s)
        &&& forall|s: PlanarTransparencyScopeId| s != scope ==> #[trigger] self.staged_of(s) == other.staged_of(s)
        &&& forall|s: PlanarTransparencyScopeId| s != scope ==> #[trigger] self.committed_of(s) == other.committed_of(s)
    }

    /// `self` is `pre` after beginning transaction `tx` for `scope`.
    pub open spec fn began(self, pre: Self, scope: PlanarTransparencyScopeId, tx: PlanarTransparencyTransaction) -> bool {
        &&& tx.scope_id() == scope
        &&& tx.generation() == next_generation(pre.generation_of(scope))
        &&& self.generation_of(scope) == tx.generation()
        &&& self.staged_of(scope) == Some(Seq::<PlanarTransparencyCandidate>::empty())
        &&& self.committed_of(scope) == pre.committed_of(scope)
        &&& self.agrees_outside(pre, scope)
    }

    /// What adding `c` under `tx` answers.
    pub open spec fn add_outcome(self, tx: PlanarTransparencyTransaction, c: PlanarTransparencyCandidate) -> Result<
        (),
        PlanarTransparencyTransactionError,
    > {
        if !self.accepts(tx) {
            Err(PlanarTransparencyTransactionError::StaleTransaction)
        } else if staged_contains(self.staged_of(tx.scope_id()).unwrap(), c.renderable) {
            Err(PlanarTransparencyTransactionError::DuplicateCandidate { renderable: c.renderable })
        } else {
            Ok(())
        }
    }

    /// What committing `tx` answers.
    pub open spec fn commit_outcome(self, tx: PlanarTransparencyTransaction) -> Result<
        usize,
        PlanarTransparencyTransactionError,
    > {
        if !self.accepts(tx) {
            Err(PlanarTransparencyTransactionError::StaleTransaction)
        } else {
            let cands = self.staged_of(tx.scope_id()).unwrap();
            if exists|i: int| first_invalid_at(cands, i) {
                Err(
                    PlanarTransparencyTransactionError::InvalidCandidate {
                        renderable: cands[choose|i: int| first_invalid_at(cands, i)].renderable,
                    },
                )
            } else {
                Ok(cands.len() as usize)
            }
        }
    }

    fn find(&self, scope: PlanarTransparencyScopeId) -> (r: Option<usize>)
        ensures
            r matches Some(i) ==> i < self.scopes@.len() && self.scopes@[i as int].scope == scope,
            r is None ==> forall|i: int| 0 <= i < self.scopes@.len() ==> #[trigger] self.scopes@[i].scope != scope,
    {
        let mut i: usize = 0;
        while i < self.scopes.len()
            invariant
                i <= self.scopes@.len(),
                forall|k: int| 0 <= k < i ==> #[trigger] self.scopes@[k].scope != scope,
            decreases self.scopes@.len() - i,
        {
            if self.scopes[i].scope == scope {
                return Some(i);
            }
            i += 1;
        }
        None
    }

    /// An optimizer with no scopes.
    pub fn new() -> (o: Self)
        ensures
            o.wf(),
            forall|s: PlanarTransparencyScopeId| #[trigger] o.generation_of(s) == 0,
            forall|s: PlanarTransparencyScopeId| #[trigger] o.staged_of(s) is None,
            forall|s: PlanarTransparencyScopeId| #[trigger] o.committed_of(s) is None,
    {
        PlanarTransparencyOptimizer { scopes: Vec::new() }
    }

    /// Begins a staged full replacement of `scope`; any earlier transaction of
    /// the scope becomes stale.
    pub fn begin_scope_update(&mut self, scope: PlanarTransparencyScopeId) -> (tx: PlanarTransparencyTransaction)
        requires
            old(self).wf(),
        ensures
            final(self).wf(),
            final(self).began(*old(self), scope, tx),
    {
        let ghost pre = self.scopes@;
        match self.find(scope) {
            Some(i) => {
                let st = self.scopes.remove(i);
                let generation = if st.generation == u64::MAX {
                    st.generation
                } else {
                    st.generation + 1
                };
                let ns = ScopeState { scope, generation, staged: Some(Vec::new()), committed: st.committed };
                self.scopes.insert(i, ns);
                proof {
                    assert(self.scopes@ =~= pre.update(i as int, ns));
                    lemma_state_at(pre, i as int);
                    lemma_state_update(pre, i as int, ns, scope);
                    assert forall|o: PlanarTransparencyScopeId| o != scope implies seq_state(self.scopes@, o)
                        == seq_state(pre, o) by {
                        lemma_state_update(pre, i as int, ns, o);
                    }
                    assert(self.scopes@[i as int] == ns);
                    assert forall|k: int| 0 <= k < self.scopes@.len() implies state_ok(#[trigger] self.scopes@[k]) by {
                        if k != i {
                            assert(self.scopes@[k] == pre[k]);
                        }
                    }
                    assert(ns.staged.unwrap()@ =~= Seq::<PlanarTransparencyCandidate>::empty());
                }
                PlanarTransparencyTransaction { scope, generation }
            },
            None => {
                let ns = ScopeState { scope, generation: 1, staged: Some(Vec::new()), committed: None };
                self.scopes.push(ns);
                proof {
                    lemma_state_absent(pre, scope);
                    lemma_state_push(pre, ns, scope);
                    assert forall|o: PlanarTransparencyScopeId| o != scope implies seq_state(self.scopes@, o)
                        == seq_state(pre, o) by {
                        lemma_state_push(pre, ns, o);
                    }
                    assert forall|k: int| 0 <= k < self.scopes@.len() implies state_ok(#[trigger] self.scopes@[k]) by {
                        if k < pre.len() {
                            assert(self.scopes@[k] == pre[k]);
                        }
                    }
                    assert(ns.staged.unwrap()@ =~= Seq::<PlanarTransparencyCandidate>::empty());
                }
                PlanarTransparencyTransaction { scope, generation: 1 }
            },
        }
    }

    /// Removes the committed and staged state of a destroyed scope.
    pub fn remove_scope(&mut self, scope: PlanarTransparencyScopeId)
        requires
            old(self).wf(),
        ensures
            final(self).wf(),
            final(self).generation_of(scope) == 0,
            final(self).staged_of(scope) is None,
            final(self).committed_of(scope) is None,
            final(self).agrees_outside(*old(self), scope),
    {
        let ghost pre = self.scopes@;
        match self.find(scope) {
            Some(i) => {
                let _ = self.scopes.remove(i);
                proof {
                    lemma_state_remove(pre, i as int, scope);
                    assert forall|o: PlanarTransparencyScopeId| o != scope implies seq_state(self.scopes@, o)
                        == seq_state(pre, o) by {
                        lemma_state_remove(pre, i as int, o);
                    }
                    assert forall|k: int| 0 <= k < self.scopes@.len() implies state_ok(#[trigger] self.scopes@[k]) by {
                        let sk = if k < i { k } else { k + 1 };
                        assert(self.scopes@[k] == pre[sk]);
                    }
                }
            },
            None => {
                proof {
                    lemma_state_absent(pre, scope);
                }
            },
        }
    }

    /// The committed result of `renderable` in `scope`; staged data is not visible here.
    pub fn resolution_for(&self, scope: PlanarTransparencyScopeId, renderable: ComponentId) -> (r: Option<
        ResolvedPlanarTransparencyCandidate,
    >)
        requires
            self.wf(),
        ensures
            r == match self.committed_of(scope) {
                Some(e) => entry_lookup(e, renderable),
                None => None,
            },
    {
        match self.find(scope) {
            None => {
                proof {
                    lemma_state_absent(self.scopes@, scope);
                }
                None
            },
            Some(i) => {
                proof {
                    lemma_state_at(self.scopes@, i as int);
                    assert(state_ok(self.scopes@[i as int]));
                }
                match &self.scopes[i].committed {
                    None => None,
                    Some(entries) => {
                        assert(committed_distinct(entries@));
                        assert(self.committed_of(scope) == Some(entries@));
                        let mut k: usize = 0;
                        while k < entries.len()
                            invariant
                                k <= entries@.len(),
                                committed_distinct(entries@),
                                self.committed_of(scope) == Some(entries@),
                                forall|m: int| 0 <= m < k ==> #[trigger] entries@[m].0 != renderable,
                            decreases entries@.len() - k,
                        {
                            if entries[k].0 == renderable {
                                proof {
                                    lemma_lookup_at(entries@, k as int);
                                }
                                return Some(entries[k].1);
                            }
                            k += 1;
                        }
                        None
                    },
                }
            },
        }
    }

    /// How many results `scope` has committed.
    pub fn committed_candidate_count(&self, scope: PlanarTransparencyScopeId) -> (n: usize)
        requires
            self.wf(),
        ensures
            n == match self.committed_of(scope) {
                Some(e) => e.len(),
                None => 0,
            },
    {
        match self.find(scope) {
            None => {
                proof {
                    lemma_state_absent(self.scopes@, scope);
                }
                0
            },
            Some(i) => {
                proof {
                    lemma_state_at(self.scopes@, i as int);
                }
                match &self.scopes[i].committed {
                    None => 0,
                    Some(entries) => entries.len(),
                }
            },
        }
    }

    /// Adds one candidate to the snapshot staged by `tx`.
    pub fn add_candidate(&mut self, tx: PlanarTransparencyTransaction, candidate: PlanarTransparencyCandidate) -> (r:
        Result<(), PlanarTransparencyTransactionError>)
        requires
            old(self).wf(),
        ensures
            final(self).wf(),
            r == old(self).add_outcome(tx, candidate),
            r is Err ==> *final(self) == *old(self),
            r is Ok ==> final(self).staged_of(tx.scope_id()) == Some(
                old(self).staged_of(tx.scope_id()).unwrap().push(candidate),
            ),
            final(self).generation_of(tx.scope_id()) == old(self).generation_of(tx.scope_id()),
            final(self).committed_of(tx.scope_id()) == old(self).committed_of(tx.scope_id()),
            final(self).agrees_outside(*old(self), tx.scope_id()),
    {
        let ghost pre = self.scopes@;
        let scope = tx.scope;
        let i = match self.find(scope) {
            None => {
                proof {
                    lemma_state_absent(pre, scope);
                }
                return Err(PlanarTransparencyTransactionError::StaleTransaction);
            },
            Some(i) => i,
        };
        proof {
            lemma_state_at(pre, i as int);
            assert(state_ok(pre[i as int]));
        }
        if self.scopes[i].generation != tx.generation {
            return Err(PlanarTransparencyTransactionError::StaleTransaction);
        }
        match &self.scopes[i].staged {
            None => {
                return Err(PlanarTransparencyTransactionError::StaleTransaction);
            },
            Some(v) => {
                assert(old(self).accepts(tx) && old(self).staged_of(scope) == Some(v@));
                let mut k: usize = 0;
                while k < v.len()
                    invariant
                        k <= v@.len(),
                        *self == *old(self),
                        old(self).wf(),
                        old(self).accepts(tx) && old(self).staged_of(scope) == Some(v@),
                        tx.scope_id() == scope,
                        forall|m: int| 0 <= m < k ==> #[trigger] v@[m].renderable != candidate.renderable,
                    decreases v@.len() - k,
                {
                    if v[k].renderable == candidate.renderable {
                        proof {
                            assert(staged_contains(v@, candidate.renderable));
                        }
                        return Err(
                            PlanarTransparencyTransactionError::DuplicateCandidate { renderable: candidate.renderable },
                        );
                    }
                    k += 1;
                }
            },
        }
        let st = self.scopes.remove(i);
        let ScopeState { scope: st_scope, generation, staged, committed } = st;
        let mut v = match staged {
            Some(v) => v,
            None => Vec::new(),
        };
        v.push(candidate);
        let ns = ScopeState { scope: st_scope, generation, staged: Some(v), committed };
        self.scopes.insert(i, ns);
        proof {
            let old_v = pre[i as int].staged.unwrap()@;
            assert(!staged_contains(old_v, candidate.renderable));
            assert(v@ == old_v.push(candidate));
            assert(distinct_renderables(v@)) by {
                assert forall|a: int, b: int| 0 <= a < v@.len() && 0 <= b < v@.len() && a != b implies #[trigger] v@[a].renderable
                    != #[trigger] v@[b].renderable by {
                    if a < old_v.len() && b < old_v.len() {
                        assert(v@[a] == old_v[a]);
                        assert(v@[b] == old_v[b]);
                    } else if a < old_v.len() {
                        assert(v@[a] == old_v[a]);
                    } else {
                        assert(v@[b] == old_v[b]);
                    }
                }
            }
            assert(self.scopes@ =~= pre.update(i as int, ns));
            lemma_state_update(pre, i as int, ns, scope);
            assert forall|o: PlanarTransparencyScopeId| o != scope implies seq_state(self.scopes@, o) == seq_state(
                pre,
                o,
            ) by {
                lemma_state_update(pre, i as int, ns, o);
            }
            assert forall|k: int| 0 <= k < self.scopes@.len() implies state_ok(#[trigger] self.scopes@[k]) by {
                if k != i {
                    assert(self.scopes@[k] == pre[k]);
                }
            }
        }
        Ok(())
    }

    /// Atomically replaces the committed results of the transaction's scope by
    /// the classification of its staged snapshot, and answers how many results
    /// it committed. A refused commit changes nothing.
    pub fn commit_scope_update(&mut self, tx: PlanarTransparencyTransaction) -> (r: Result<
        usize,
        PlanarTransparencyTransactionError,
    >)
        requires
            old(self).wf(),
        ensures
            final(self).wf(),
            r == old(self).commit_outcome(tx),
            r is Err ==> *final(self) == *old(self),
            r is Ok ==> {
                &&& final(self).staged_of(tx.scope_id()) is None
                &&& final(self).committed_of(tx.scope_id()) == Some(
                    resolve_all(old(self).staged_of(tx.scope_id()).unwrap()),
                )
                &&& final(self).generation_of(tx.scope_id()) == old(self).generation_of(tx.scope_id())
                &&& final(self).agrees_outside(*old(self), tx.scope_id())
            },
    {
        let ghost pre = self.scopes@;
        let scope = tx.scope;
        let i = match self.find(scope) {
            None => {
                proof {
                    lemma_state_absent(pre, scope);
                }
                return Err(PlanarTransparencyTransactionError::StaleTransaction);
            },
            Some(i) => i,
        };
        proof {
            lemma_state_at(pre, i as int);
            assert(state_ok(pre[i as int]));
        }
        if self.scopes[i].generation != tx.generation {
            return Err(PlanarTransparencyTransactionError::StaleTransaction);
        }
        match &self.scopes[i].staged {
            None => {
                return Err(PlanarTransparencyTransactionError::StaleTransaction);
            },
            Some(v) => {
                assert(old(self).accepts(tx) && old(self).staged_of(scope) == Some(v@));
                let mut k: usize = 0;
                while k < v.len()
                    invariant
                        k <= v@.len(),
                        *self == *old(self),
                        old(self).wf(),
                        old(self).accepts(tx) && old(self).staged_of(scope) == Some(v@),
                        tx.scope_id() == scope,
                        forall|m: int| 0 <= m < k ==> candidate_valid(#[trigger] v@[m]),
                    decreases v@.len() - k,
                {
                    let c = v[k];
                    if !c.root_local_rect.is_valid() || !is_finite_bits(c.stacking_depth_bits) {
                        proof {
                            assert(first_invalid_at(v@, k as int));
                            assert forall|j: int| first_invalid_at(v@, j) implies j == k by {
                                lemma_first_invalid_unique(v@, j, k as int);
                            }
                        }
                        return Err(PlanarTransparencyTransactionError::InvalidCandidate { renderable: c.renderable });
                    }
                    k += 1;
                }
            },
        }
        let st = self.scopes.remove(i);
        let ScopeState { scope: st_scope, generation, staged, committed: _ } = st;
        let v = match staged {
            Some(v) => v,
            None => Vec::new(),
        };
        let resolved = resolve_scope_candidates(&v);
        let count = resolved.len();
        let ns = ScopeState { scope: st_scope, generation, staged: None, committed: Some(resolved) };
        self.scopes.insert(i, ns);
        proof {
            let cands = pre[i as int].staged.unwrap()@;
            assert(v@ == cands);
            lemma_resolve_all_distinct(cands);
            assert(self.scopes@ =~= pre.update(i as int, ns));
            lemma_state_update(pre, i as int, ns, scope);
            assert forall|o: PlanarTransparencyScopeId| o != scope implies seq_state(self.scopes@, o) == seq_state(
                pre,
                o,
            ) by {
                lemma_state_update(pre, i as int, ns, o);
            }
            assert forall|k: int| 0 <= k < self.scopes@.len() implies state_ok(#[trigger] self.scopes@[k]) by {
                if k != i {
                    assert(self.scopes@[k] == pre[k]);
                }
            }
            assert(!exists|j: int| first_invalid_at(cands, j));
        }
        Ok(count)
    }
}

/// Classifies a validated snapshot: a candidate is multi-layer exactly when
/// its rectangle overlaps another candidate's.
fn resolve_scope_candidates(cands: &Vec<PlanarTransparencyCandidate>) -> (out: Vec<
    (ComponentId, ResolvedPlanarTransparencyCandidate),
>)
    ensures
        out@ == resolve_all(cands@),
{
    let n = cands.len();
    let mut out: Vec<(ComponentId, ResolvedPlanarTransparencyCandidate)> = Vec::new();
    let mut i: usize = 0;
    while i < n
        invariant
            n == cands@.len(),
            i <= n,
            out@.len() == i,
            forall|k: int| 0 <= k < i ==> #[trigger] out@[k] == resolve_all(cands@)[k],
        decreases n - i,
    {
        let mut overlapping = false;
        let mut j: usize = 0;
        while j < n
            invariant
                n == cands@.len(),
                i < n,
                j <= n,
                overlapping <==> exists|m: int|
                    0 <= m < j && m != i && #[trigger] rects_overlap(
                        cands@[i as int].root_local_rect,
                        cands@[m].root_local_rect,
                    ),
            decreases n - j,
        {
            if j != i && cands[i].root_local_rect.overlaps_open_area(cands[j].root_local_rect) {
                overlapping = true;
            }
            j += 1;
        }
        let c = cands[i];
        let resolution = if overlapping {
            PlanarTransparencyResolution::MultiLayer
        } else {
            PlanarTransparencyResolution::SingleLayer
        };
        out.push(
            (
                c.renderable,
                ResolvedPlanarTransparencyCandidate {
                    resolution,
                    stacking_depth_bits: c.stacking_depth_bits,
                    stable_order: c.stable_order,
                },
            ),
        );
        proof {
            assert(overlapping == overlaps_another(cands@, i as int));
            assert(out@[i as int] == resolve_all(cands@)[i as int]);
        }
        i += 1;
    }
    assert(out@ =~= resolve_all(cands@));
    out

}

impl Default for PlanarTransparencyOptimizer {
    fn default() -> (o: Self)
        ensures
            o.wf(),
            forall|s: PlanarTransparencyScopeId| #[trigger] o.generation_of(s) == 0,
            forall|s: PlanarTransparencyScopeId| #[trigger] o.staged_of(s) is None,
            forall|s: PlanarTransparencyScopeId| #[trigger] o.committed_of(s) is None,
    {
        PlanarTransparencyOptimizer::new()
    }
}

/// Beginning a transaction makes every earlier transaction of the scope stale
/// and the new one current, as long as the scope's generation has not
/// reached its largest value.
pub proof fn newer_transaction_makes_older_stale(
    pre: PlanarTransparencyOptimizer,
    post: PlanarTransparencyOptimizer,
    older: PlanarTransparencyTransaction,
    newer: PlanarTransparencyTransaction,
)
    requires
        post.began(pre, older.scope_id(), newer),
        older.generation() <= pre.generation_of(older.scope_id()),
        pre.generation_of(older.scope_id()) < u64::MAX,
    ensures
        !post.accepts(older),
        post.accepts(newer),
{
}

/// A commit replaces the scope's results by exactly the staged snapshot:
/// a renderable has a result afterwards exactly when it was staged, and that
/// result is the classification of its staged candidate.
pub proof fn commit_keeps_exactly_the_staged_renderables(
    cands: Seq<PlanarTransparencyCandidate>,
    renderable: ComponentId,
)
    requires
        distinct_renderables(cands),
    ensures
        entry_lookup(resolve_all(cands), renderable) is Some <==> staged_contains(cands, renderable),
        forall|i: int|
            0 <= i < cands.len() && #[trigger] cands[i].renderable == renderable ==> entry_lookup(
                resolve_all(cands),
                renderable,
            ) == Some(resolved_at(cands, i)),
{
    let e = resolve_all(cands);
    lemma_resolve_all_distinct(cands);
    assert forall|i: int| 0 <= i < cands.len() && #[trigger] cands[i].renderable == renderable implies entry_lookup(
        e,
        renderable,
    ) == Some(resolved_at(cands, i)) by {
        assert(e[i].0 == renderable);
        lemma_lookup_at(e, i);
    }
    if entry_lookup(e, renderable) is Some {
        let i = choose|i: int| 0 <= i < e.len() && #[trigger] e[i].0 == renderable;
        assert(cands[i].renderable == renderable);
    }
    if staged_contains(cands, renderable) {
        let i = choose|i: int| 0 <= i < cands.len() && #[trigger] cands[i].renderable == renderable;
        assert(e[i].0 == renderable);
    }
}

/// Overlap of open areas is symmetric, so a candidate overlapping another
/// makes both of them multi-layer.
pub proof fn overlap_marks_both_candidates(cands: Seq<PlanarTransparencyCandidate>, i: int, j: int)
    requires
        0 <= i < cands.len(),
        0 <= j < cands.len(),
        i != j,
        rects_overlap(cands[i].root_local_rect, cands[j].root_local_rect),
    ensures
        resolved_at(cands, i).resolution == PlanarTransparencyResolution::MultiLayer,
        resolved_at(cands, j).resolution == PlanarTransparencyResolution::MultiLayer,
{
    assert(rects_overlap(cands[j].root_local_rect, cands[i].root_local_rect));
}


} // verus!
