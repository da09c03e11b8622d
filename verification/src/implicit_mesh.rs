//! Integer checks of implicit-surface meshing: the sample count a grid of
//! cells needs, and the closed-surface test of an indexed triangle list.
use vstd::prelude::*;
use std::collections::HashMap;
use crate::text::{decimal, push_chars, push_signed, push_zero_padded, signed_zero_padded};

verus! {

/// Why building an implicit-surface mesh failed, with a human-readable reason.
#[derive(Debug, Clone, PartialEq, Eq)]
pub enum ImplicitMeshError {
    InvalidGrid(String),
    InvalidSamples(String),
    Backend(String),
    InvalidOutput(String),
}

/// Folds the node counts of `cells[k..]` into `count`: each axis has one
/// node more than cells; a dimension or product that leaves `usize` is
/// reported by its reason.
pub open spec fn node_count_from(cells: Seq<usize>, k: int, count: int) -> Result<int, Seq<char>>
    decreases cells.len() - k,
{
    if k < 0 || k >= cells.len() {
        Ok(count)
    } else if cells[k] == usize::MAX {
        Err("sample dimension overflow"@)
    } else if count * (cells[k] + 1) > usize::MAX {
        Err("sample count overflow"@)
    } else {
        node_count_from(cells, k + 1, count * (cells[k] + 1))
    }
}

/// The number of samples a grid of `cells` needs, `(x+1)(y+1)(z+1)`.
pub fn checked_node_count(cells: [usize; 3]) -> (r: Result<usize, ImplicitMeshError>)
    ensures
        match r {
            Ok(n) => node_count_from(cells@, 0, 1) == Ok::<int, Seq<char>>(n as int),
            Err(ImplicitMeshError::InvalidGrid(m)) => node_count_from(cells@, 0, 1) == Err::<int, Seq<char>>(m@),
            Err(_) => false,
        },
{
    let mut count: usize = 1;
    let mut k: usize = 0;
    while k < 3
        invariant
            k <= 3,
            cells@.len() == 3,
            node_count_from(cells@, k as int, count as int) == node_count_from(cells@, 0, 1),
        decreases 3 - k,
    {
        let c = cells[k];
        if c == usize::MAX {
            return Err(ImplicitMeshError::InvalidGrid("sample dimension overflow".to_owned()));
        }
        match count.checked_mul(c + 1) {
            Some(next) => {
                count = next;
            },
            None => {
                return Err(ImplicitMeshError::InvalidGrid("sample count overflow".to_owned()));
            },
        }
        k += 1;
    }
    Ok(count)
}

/// The number of directed edges of the whole triangles of `ix`.
pub open spec fn edge_count(ix: Seq<u32>) -> int {
    ((ix.len() / 3) * 3) as int
}

/// Start of directed edge `e`: triangle `e / 3` walks its corners in order.
pub open spec fn edge_from(ix: Seq<u32>, e: int) -> u32 {
    ix[e]
}

/// End of directed edge `e`: the next corner of its triangle, cyclically.
pub open spec fn edge_to(ix: Seq<u32>, e: int) -> u32 {
    if e % 3 == 2 {
        ix[e - 2]
    } else {
        ix[e + 1]
    }
}

/// The undirected edge of directed edge `e`, smaller vertex first.
pub open spec fn edge_key(ix: Seq<u32>, e: int) -> (u32, u32) {
    if edge_from(ix, e) < edge_to(ix, e) {
        (edge_from(ix, e), edge_to(ix, e))
    } else {
        (edge_to(ix, e), edge_from(ix, e))
    }
}

/// +1 when directed edge `e` runs from the smaller vertex, else -1.
pub open spec fn edge_dir(ix: Seq<u32>, e: int) -> int {
    if edge_from(ix, e) < edge_to(ix, e) {
        1
    } else {
        -1
    }
}

/// How many of the first `n` directed edges lie on undirected edge `k`.
pub open spec fn edge_uses(ix: Seq<u32>, k: (u32, u32), n: int) -> int
    decreases n,
{
    if n <= 0 {
        0
    } else {
        edge_uses(ix, k, n - 1) + if edge_key(ix, n - 1) == k {
            1int
        } else {
            0int
        }
    }
}

/// The sum of the directions of the first `n` directed edges on `k`.
pub open spec fn edge_balance(ix: Seq<u32>, k: (u32, u32), n: int) -> int
    decreases n,
{
    if n <= 0 {
        0
    } else {
        edge_balance(ix, k, n - 1) + if edge_key(ix, n - 1) == k {
            edge_dir(ix, n - 1)
        } else {
            0int
        }
    }
}

/// Directed edge `e` lies on an undirected edge not used by exactly two
/// opposing directed edges.
pub open spec fn edge_bad(ix: Seq<u32>, e: int) -> bool {
    let k = edge_key(ix, e);
    edge_uses(ix, k, edge_count(ix)) != 2 || edge_balance(ix, k, edge_count(ix)) != 0
}

/// Every edge of the triangle list is shared by exactly two triangles that
/// run along it in opposite directions: a closed, consistently oriented surface.
pub open spec fn closed_surface(ix: Seq<u32>) -> bool {
    forall|e: int| 0 <= e < edge_count(ix) ==> !#[trigger] edge_bad(ix, e)
}

/// Directed edge `e` is the first bad one.
pub open spec fn first_bad_edge(ix: Seq<u32>, e: int) -> bool {
    &&& 0 <= e < edge_count(ix)
    &&& edge_bad(ix, e)
    &&& forall|f: int| 0 <= f < e ==> !#[trigger] edge_bad(ix, f)
}

/// The reason reported for an edge that is not closed.
pub open spec fn bad_edge_message(k: (u32, u32), uses: int, balance: int) -> Seq<char> {
    "edge ("@ + decimal(k.0 as nat) + ", "@ + decimal(k.1 as nat) + ") has "@ + decimal(uses as nat)
        + " uses and directed balance "@ + signed_zero_padded(balance, 0)
        + "; expected two opposing uses"@
}

/// What `validate_closed` answers for `ix`.
pub open spec fn closed_outcome(ix: Seq<u32>) -> Result<(), Seq<char>> {
    if exists|e: int| first_bad_edge(ix, e) {
        let e = choose|e: int| first_bad_edge(ix, e);
        let k = edge_key(ix, e);
        Err(bad_edge_message(k, edge_uses(ix, k, edge_count(ix)), edge_balance(ix, k, edge_count(ix))))
    } else {
        Ok(())
    }
}

/// The map key of an undirected edge.
pub open spec fn pack_edge(k: (u32, u32)) -> u64 {
    (k.0 as int * 0x1_0000_0000 + k.1 as int) as u64
}

proof fn lemma_pack_injective(a: (u32, u32), b: (u32, u32))
    requires
        pack_edge(a) == pack_edge(b),
    ensures
        a == b,
{
    assert(a.0 as int * 0x1_0000_0000 + a.1 as int <= 0xFFFF_FFFF_FFFF_FFFF) by (nonlinear_arith);
    assert(b.0 as int * 0x1_0000_0000 + b.1 as int <= 0xFFFF_FFFF_FFFF_FFFF) by (nonlinear_arith);
    assert(a.0 == b.0 && a.1 == b.1) by (nonlinear_arith)
        requires
            a.0 as int * 0x1_0000_0000 + a.1 as int == b.0 as int * 0x1_0000_0000 + b.1 as int,
            a.1 < 0x1_0000_0000,
            b.1 < 0x1_0000_0000,
            a.0 >= 0,
            b.0 >= 0,
    ;
}

proof fn lemma_uses_bounds(ix: Seq<u32>, k: (u32, u32), n: int)
    requires
        n >= 0,
    ensures
        0 <= edge_uses(ix, k, n) <= n,
        -n <= edge_balance(ix, k, n) <= n,
    decreases n,
{
    if n > 0 {
        lemma_uses_bounds(ix, k, n - 1);
    }
}

proof fn lemma_unused_edge(ix: Seq<u32>, k: (u32, u32), n: int)
    requires
        forall|f: int| 0 <= f < n ==> #[trigger] edge_key(ix, f) != k,
    ensures
        edge_uses(ix, k, n) == 0,
        edge_balance(ix, k, n) == 0,
    decreases n,
{
    if n > 0 {
        lemma_unused_edge(ix, k, n - 1);
    }
}

proof fn lemma_edge_in_range(len: int, e: int)
    requires
        len >= 0,
        0 <= e < (len / 3) * 3,
    ensures
        e < len,
        e % 3 == 2 ==> e >= 2,
        e % 3 != 2 ==> e + 1 < len,
{
    assert((len / 3) * 3 <= len) by (nonlinear_arith)
        requires
            len >= 0,
    ;
    assert(e % 3 != 2 ==> e + 1 < (len / 3) * 3) by (nonlinear_arith)
        requires
            0 <= e < (len / 3) * 3,
            len >= 0,
    ;
}

proof fn lemma_first_bad_unique(ix: Seq<u32>, e: int, f: int)
    requires
        first_bad_edge(ix, e),
        first_bad_edge(ix, f),
    ensures
        e == f,
{
    if e < f {
        assert(!edge_bad(ix, e));
    } else if f < e {
        assert(!edge_bad(ix, f));
    }
}

/// The undirected edge of directed edge `e` and whether `e` runs from its
/// smaller vertex.
fn directed_edge(ix: &[u32], e: usize) -> (r: ((u32, u32), bool))
    requires
        e < edge_count(ix@),
    ensures
        r.0 == edge_key(ix@, e as int),
        r.1 == (edge_dir(ix@, e as int) == 1),
{
    proof {
        lemma_edge_in_range(ix@.len() as int, e as int);
    }
    let from = ix[e];
    let to = if e % 3 == 2 {
        ix[e - 2]
    } else {
        ix[e + 1]
    };
    if from < to {
        ((from, to), true)
    } else {
        ((to, from), false)
    }
}

fn pack(k: (u32, u32)) -> (p: u64)
    ensures
        p == pack_edge(k),
{
    proof {
        assert(k.0 as int * 0x1_0000_0000 + k.1 as int <= 0xFFFF_FFFF_FFFF_FFFF) by (nonlinear_arith);
    }
    (k.0 as u64) * 0x1_0000_0000u64 + (k.1 as u64)
}

/// Checks that the triangle list `indices` (whole triangles; a trailing
/// partial one is ignored) describes a closed, consistently oriented
/// surface: every undirected edge is used by exactly two triangles running
/// along it in opposite directions. The first directed edge, in triangle
/// order, whose edge fails is reported with its use count and balance.
pub fn validate_closed(indices: &[u32]) -> (r: Result<(), ImplicitMeshError>)
    ensures
        match r {
            Ok(()) => closed_outcome(indices@) == Ok::<(), Seq<char>>(()),
            Err(ImplicitMeshError::InvalidOutput(m)) => closed_outcome(indices@) == Err::<(), Seq<char>>(m@),
            Err(_) => false,
        },
{
    broadcast use vstd::std_specs::hash::group_hash_axioms;

    let ghost ix = indices@;
    let n = (indices.len() / 3) * 3;
    let mut counts: HashMap<u64, (u64, i128)> = HashMap::new();
    let mut e: usize = 0;
    while e < n
        invariant
            ix == indices@,
            n == edge_count(ix),
            n <= ix.len(),
            e <= n,
            forall|k: u64| #[trigger] counts@.contains_key(k) ==> exists|f: int|
                0 <= f < e && pack_edge(#[trigger] edge_key(ix, f)) == k,
            forall|f: int| 0 <= f < e ==> {
                let k = #[trigger] edge_key(ix, f);
                &&& counts@.contains_key(pack_edge(k))
                &&& counts@[pack_edge(k)] == (edge_uses(ix, k, e as int) as u64, edge_balance(ix, k, e as int) as i128)
            },
        decreases n - e,
    {
        let (k, forward) = directed_edge(indices, e);
        let key = pack(k);
        let ghost m0 = counts@;
        let (u, b) = match counts.get(&key) {
            Some(v) => *v,
            None => (0u64, 0i128),
        };
        proof {
            lemma_uses_bounds(ix, k, e as int);
            if m0.contains_key(key) {
                let f = choose|f: int| 0 <= f < e && pack_edge(#[trigger] edge_key(ix, f)) == key;
                lemma_pack_injective(edge_key(ix, f), k);
            } else {
                assert forall|f: int| 0 <= f < e implies #[trigger] edge_key(ix, f) != k by {
                    if edge_key(ix, f) == k {
                        assert(m0.contains_key(pack_edge(edge_key(ix, f))));
                    }
                }
                lemma_unused_edge(ix, k, e as int);
            }
            assert(u == edge_uses(ix, k, e as int) && b == edge_balance(ix, k, e as int));
        }
        let nb = if forward {
            b + 1
        } else {
            b - 1
        };
        counts.insert(key, (u + 1, nb));
        proof {
            assert forall|f: int| 0 <= f < e + 1 implies {
                let kf = #[trigger] edge_key(ix, f);
                &&& counts@.contains_key(pack_edge(kf))
                &&& counts@[pack_edge(kf)] == (edge_uses(ix, kf, e + 1) as u64, edge_balance(ix, kf, e + 1) as i128)
            } by {
                let kf = edge_key(ix, f);
                if kf == k {
                } else {
                    if pack_edge(kf) == key {
                        lemma_pack_injective(kf, k);
                    }
                }
            }
            assert forall|q: u64| #[trigger] counts@.contains_key(q) implies exists|f: int|
                0 <= f < e + 1 && pack_edge(#[trigger] edge_key(ix, f)) == q by {
                if q == key {
                    assert(pack_edge(edge_key(ix, e as int)) == q);
                } else {
                    assert(m0.contains_key(q));
                }
            }
        }
        e += 1;
    }
    let mut e: usize = 0;
    while e < n
        invariant
            ix == indices@,
            n == edge_count(ix),
            e <= n,
            forall|f: int| 0 <= f < n ==> {
                let k = #[trigger] edge_key(ix, f);
                &&& counts@.contains_key(pack_edge(k))
                &&& counts@[pack_edge(k)] == (edge_uses(ix, k, n as int) as u64, edge_balance(ix, k, n as int) as i128)
            },
            forall|f: int| 0 <= f < e ==> !#[trigger] edge_bad(ix, f),
        decreases n - e,
    {
        let (k, _) = directed_edge(indices, e);
        let key = pack(k);
        proof {
            assert(counts@.contains_key(pack_edge(edge_key(ix, e as int))));
            lemma_uses_bounds(ix, k, n as int);
        }
        let (u, b) = match counts.get(&key) {
            Some(v) => *v,
            None => (0u64, 0i128),
        };
        if u != 2 || b != 0 {
            let mut m = String::new();
            push_chars(&mut m, "edge (");
            push_zero_padded(&mut m, k.0 as u64, 0);
            push_chars(&mut m, ", ");
            push_zero_padded(&mut m, k.1 as u64, 0);
            push_chars(&mut m, ") has ");
            push_zero_padded(&mut m, u, 0);
            push_chars(&mut m, " uses and directed balance ");
            push_signed(&mut m, b);
            push_chars(&mut m, "; expected two opposing uses");
            proof {
                assert(first_bad_edge(ix, e as int));
                assert forall|f: int| first_bad_edge(ix, f) implies f == e by {
                    lemma_first_bad_unique(ix, f, e as int);
                }
                assert(m@ =~= bad_edge_message(k, u as int, b as int));
            }
            return Err(ImplicitMeshError::InvalidOutput(m));
        }
        e += 1;
    }
    proof {
        assert(!exists|f: int| first_bad_edge(ix, f));
    }
    Ok(())
}

proof fn lemma_some_first_bad(ix: Seq<u32>, e: int)
    requires
        0 <= e < edge_count(ix),
        edge_bad(ix, e),
    ensures
        exists|f: int| first_bad_edge(ix, f),
    decreases e,
{
    if forall|f: int| 0 <= f < e ==> !#[trigger] edge_bad(ix, f) {
        assert(first_bad_edge(ix, e));
    } else {
        let f = choose|f: int| 0 <= f < e && #[trigger] edge_bad(ix, f);
        lemma_some_first_bad(ix, f);
    }
}

/// The closed-surface check accepts a triangle list exactly when every edge
/// is shared by two triangles running along it in opposite directions.
pub proof fn closed_check_accepts_exactly_closed_surfaces(ix: Seq<u32>)
    ensures
        closed_outcome(ix) is Ok <==> closed_surface(ix),
{
    if !closed_surface(ix) {
        let e = choose|e: int| 0 <= e < edge_count(ix) && #[trigger] edge_bad(ix, e);
        lemma_some_first_bad(ix, e);
    }
}

} // verus!
