//! The registry of bounds of mesh-backed runtime outputs (combined meshes,
//! implicit surfaces): one entry per owner, replaced on registration,
//! re-placed on a model update, dropped on removal.
//!
//! The bounds and the model are the caller's values (`L` and `M`); turning
//! them into world bounds is single-precision work outside the library.
use vstd::prelude::*;
use crate::ids::ComponentId;

verus! {

/// The type of runtime mesh output providing an aggregate bound.
#[derive(Debug, Clone, Copy, PartialEq, Eq, Structural)]
pub enum MeshOutputKind {
    CombineMesh,
    ImplicitSurface,
}

/// Local bounds and placement for one mesh-backed runtime output.
#[derive(Debug, Clone, Copy, PartialEq, Eq)]
pub struct MeshOutputBounds<L, M> {
    pub owner: ComponentId,
    pub local: L,
    pub model: M,
    pub kind: MeshOutputKind,
}

/// The entry of `owner`: the first one in `s`.
pub open spec fn bounds_of<L, M>(s: Seq<MeshOutputBounds<L, M>>, owner: ComponentId) -> Option<MeshOutputBounds<L, M>>
    decreases s.len(),
{
    if s.len() == 0 {
        None
    } else {
        match bounds_of(s.drop_last(), owner) {
            Some(b) => Some(b),
            None => if s.last().owner == owner { Some(s.last()) } else { None },
        }
    }
}

/// `s` without the entries of `owner`, order kept.
pub open spec fn bounds_without<L, M>(s: Seq<MeshOutputBounds<L, M>>, owner: ComponentId) -> Seq<MeshOutputBounds<L, M>>
    decreases s.len(),
{
    if s.len() == 0 {
        Seq::empty()
    } else {
        let rest = bounds_without(s.drop_last(), owner);
        if s.last().owner == owner { rest } else { rest.push(s.last()) }
    }
}

proof fn lemma_without_lookup<L, M>(s: Seq<MeshOutputBounds<L, M>>, owner: ComponentId, x: ComponentId)
    ensures
        bounds_of(bounds_without(s, owner), x) == if x == owner { None } else { bounds_of(s, x) },
    decreases s.len(),
{
    if s.len() > 0 {
        lemma_without_lookup(s.drop_last(), owner, x);
        let rest = bounds_without(s.drop_last(), owner);
        if s.last().owner != owner {
            assert(rest.push(s.last()).drop_last() =~= rest);
        }
    }
}

proof fn lemma_lookup_owner<L, M>(s: Seq<MeshOutputBounds<L, M>>, owner: ComponentId)
    ensures
        bounds_of(s, owner) matches Some(b) ==> b.owner == owner,
    decreases s.len(),
{
    if s.len() > 0 {
        lemma_lookup_owner(s.drop_last(), owner);
    }
}

proof fn lemma_push_lookup<L, M>(s: Seq<MeshOutputBounds<L, M>>, b: MeshOutputBounds<L, M>, x: ComponentId)
    requires
        bounds_of(s, b.owner) is None,
    ensures
        bounds_of(s.push(b), x) == if x == b.owner { Some(b) } else { bounds_of(s, x) },
{
    assert(s.push(b).drop_last() =~= s);
}

/// The bounds of every mesh-backed output, one entry per owner.
pub struct MeshBoundsSystem<L, M> {
    pub outputs: Vec<MeshOutputBounds<L, M>>,
}

impl<L: Copy, M: Copy> MeshBoundsSystem<L, M> {
    /// What the registry holds for `owner`.
    pub open spec fn entry(&self, owner: ComponentId) -> Option<MeshOutputBounds<L, M>> {
        bounds_of(self.outputs@, owner)
    }

    /// An empty registry.
    pub fn new() -> (s: Self)
        ensures
            forall|x: ComponentId| s.entry(x) is None,
    {
        MeshBoundsSystem { outputs: Vec::new() }
    }

    fn drop_owner(&mut self, owner: ComponentId)
        ensures
            final(self).outputs@ == bounds_without(old(self).outputs@, owner),
    {
        let mut kept: Vec<MeshOutputBounds<L, M>> = Vec::new();
        let mut i: usize = 0;
        while i < self.outputs.len()
            invariant
                i <= self.outputs@.len(),
                kept@ == bounds_without(self.outputs@.take(i as int), owner),
            decreases self.outputs@.len() - i,
        {
            proof {
                assert(self.outputs@.take(i + 1).drop_last() =~= self.outputs@.take(i as int));
            }
            if self.outputs[i].owner != owner {
                kept.push(self.outputs[i]);
            }
            i += 1;
        }
        proof {
            assert(self.outputs@.take(self.outputs@.len() as int) =~= self.outputs@);
        }
        self.outputs = kept;
    }

    /// Records (or replaces) the bounds of `owner`.
    pub fn register_or_update(&mut self, owner: ComponentId, local: L, model: M, kind: MeshOutputKind)
        ensures
            forall|x: ComponentId| #[trigger] final(self).entry(x) == if x == owner {
                Some(MeshOutputBounds { owner, local, model, kind })
            } else {
                old(self).entry(x)
            },
    {
        let ghost s0 = self.outputs@;
        self.drop_owner(owner);
        let ghost s1 = self.outputs@;
        let b = MeshOutputBounds { owner, local, model, kind };
        proof {
            lemma_without_lookup(s0, owner, owner);
        }
        self.outputs.push(b);
        proof {
            assert forall|x: ComponentId| #[trigger] self.entry(x) == if x == owner { Some(b) } else { bounds_of(s0, x) } by {
                lemma_without_lookup(s0, owner, x);
                lemma_push_lookup(s1, b, x);
            }
        }
    }

    /// Moves the bounds of `owner`, if registered, to `model`.
    pub fn update_model(&mut self, owner: ComponentId, model: M)
        ensures
            forall|x: ComponentId| #[trigger] final(self).entry(x) == if x == owner {
                match old(self).entry(owner) {
                    Some(b) => Some(MeshOutputBounds { model, ..b }),
                    None => None,
                }
            } else {
                old(self).entry(x)
            },
    {
        proof {
            lemma_lookup_owner(self.outputs@, owner);
        }
        match self.output(owner) {
            Some(b) => self.register_or_update(owner, b.local, model, b.kind),
            None => {},
        }
    }

    /// Forgets the bounds of `owner`.
    pub fn remove(&mut self, owner: ComponentId)
        ensures
            forall|x: ComponentId| #[trigger] final(self).entry(x) == if x == owner { None } else { old(self).entry(x) },
    {
        let ghost s0 = self.outputs@;
        self.drop_owner(owner);
        proof {
            assert forall|x: ComponentId| #[trigger] self.entry(x) == if x == owner { None } else { bounds_of(s0, x) } by {
                lemma_without_lookup(s0, owner, x);
            }
        }
    }

    /// The bounds of `owner`.
    pub fn output(&self, owner: ComponentId) -> (r: Option<MeshOutputBounds<L, M>>)
        ensures
            r == self.entry(owner),
    {
        let mut r: Option<MeshOutputBounds<L, M>> = None;
        let mut i: usize = 0;
        while i < self.outputs.len()
            invariant
                i <= self.outputs@.len(),
                r == bounds_of(self.outputs@.take(i as int), owner),
            decreases self.outputs@.len() - i,
        {
            proof {
                assert(self.outputs@.take(i + 1).drop_last() =~= self.outputs@.take(i as int));
            }
            if r.is_none() && self.outputs[i].owner == owner {
                r = Some(self.outputs[i]);
            }
            i += 1;
        }
        proof {
            assert(self.outputs@.take(self.outputs@.len() as int) =~= self.outputs@);
        }
        r
    }

    /// Every registered entry, in registration order.
    pub fn outputs(&self) -> (r: Vec<MeshOutputBounds<L, M>>)
        ensures
            r@ == self.outputs@,
    {
        let mut r: Vec<MeshOutputBounds<L, M>> = Vec::new();
        let mut i: usize = 0;
        while i < self.outputs.len()
            invariant
                i <= self.outputs@.len(),
                r@ == self.outputs@.take(i as int),
            decreases self.outputs@.len() - i,
        {
            r.push(self.outputs[i]);
            i += 1;
            proof {
                assert(r@ =~= self.outputs@.take(i as int));
            }
        }
        proof {
            assert(self.outputs@.take(self.outputs@.len() as int) =~= self.outputs@);
        }
        r
    }
}

} // verus!
