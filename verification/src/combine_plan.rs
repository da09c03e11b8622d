//! Reconciling combined meshes with the scene: which outputs go, which are
//! kept, which follow their root's model, and which roots are baked again.
//!
//! Matrices, baking and uploads are the caller's: per root it hands in what
//! it found (a model, whether it inverts, whether it moved since the output
//! was made) and the fingerprint of the root's sources; the system answers
//! with the actions to take and records each bake that succeeded.
use vstd::prelude::*;
use std::hash::Hasher;
use std::collections::hash_map::DefaultHasher;
use vstd::std_specs::hash::DefaultHasherAdditionalSpecFns;
use crate::combine_mesh::{sources_for_root, sources_for_root_spec};
use crate::components::Component;
use crate::ids::ComponentId;
use crate::world::World;

verus! {

/// What the system keeps of one combined mesh it made.
#[derive(Debug, Clone, Copy, PartialEq, Eq, Structural)]
pub struct CombinedOutput {
    pub root: ComponentId,
    pub fingerprint: u64,
    /// The sources were collapsed into the mesh (their transforms dropped).
    pub collapsed: bool,
}

/// What the caller found for one combined-mesh root this frame.
#[derive(Debug, Clone, Copy, PartialEq, Eq, Structural)]
pub struct RootFacts {
    pub root: ComponentId,
    /// The root has a world model.
    pub has_model: bool,
    /// That model is invertible.
    pub invertible: bool,
    /// That model differs from the one its current output was drawn with.
    pub model_changed: bool,
    /// Fingerprint of the root's sources, from `fingerprint`.
    pub fingerprint: u64,
}

/// One thing the caller does for the system.
#[derive(Debug, Clone, Copy, PartialEq, Eq, Structural)]
pub enum CombineAction {
    /// Remove the output drawn for this root.
    RemoveOutput(ComponentId),
    /// Hide this source renderable: the combined mesh draws it.
    Suppress(ComponentId),
    /// Move this root's output to the root's current model.
    UpdateModel(ComponentId),
    /// Bake this root's sources into a new output; on success call
    /// `record_bake`.
    Bake { root: ComponentId, fingerprint: u64, keep_transforms: bool },
}

/// What one source contributes to a fingerprint: its mesh and material, when
/// it is a renderable, and the bit patterns of its world model, when it has one.
pub struct SourceFacts {
    pub mesh_material: Option<(u64, u64)>,
    pub model_bits: Option<Vec<u32>>,
}

pub open spec fn is_combine_root(w: &World) -> spec_fn(ComponentId) -> bool {
    |x: ComponentId| w.component_spec(x) matches Some(Component::CombineMesh(_))
}

/// Every combined-mesh root, in slot order.
pub open spec fn combine_roots_spec(w: &World) -> Seq<ComponentId> {
    World::ids_where(w.slots() as int, is_combine_root(w))
}

/// Whether the combined mesh at `root` keeps its sources' transforms.
pub open spec fn keep_transforms_spec(w: &World, root: ComponentId) -> bool {
    w.component_spec(root) matches Some(Component::CombineMesh(c)) && c.keep_transforms
}

/// The first output made for `root`.
pub open spec fn output_for(outs: Seq<CombinedOutput>, root: ComponentId) -> Option<CombinedOutput>
    decreases outs.len(),
{
    if outs.len() == 0 {
        None
    } else {
        match output_for(outs.drop_last(), root) {
            Some(o) => Some(o),
            None => if outs.last().root == root { Some(outs.last()) } else { None },
        }
    }
}

/// `outs` without the outputs of `root`, order kept.
pub open spec fn outputs_without(outs: Seq<CombinedOutput>, root: ComponentId) -> Seq<CombinedOutput>
    decreases outs.len(),
{
    if outs.len() == 0 {
        Seq::empty()
    } else {
        let rest = outputs_without(outs.drop_last(), root);
        if outs.last().root == root { rest } else { rest.push(outs.last()) }
    }
}

pub open spec fn facts_roots(facts: Seq<RootFacts>) -> Seq<ComponentId> {
    facts.map_values(|f: RootFacts| f.root)
}

/// The outputs whose root is still a combined-mesh root, and the removals
/// for the others, both in the order the outputs were made.
pub open spec fn retain_spec(outs: Seq<CombinedOutput>, roots: Seq<ComponentId>) -> (Seq<CombinedOutput>, Seq<CombineAction>)
    decreases outs.len(),
{
    if outs.len() == 0 {
        (Seq::empty(), Seq::empty())
    } else {
        let (kept, acts) = retain_spec(outs.drop_last(), roots);
        if roots.contains(outs.last().root) {
            (kept.push(outs.last()), acts)
        } else {
            (kept, acts.push(CombineAction::RemoveOutput(outs.last().root)))
        }
    }
}

pub open spec fn suppress_all(sources: Seq<ComponentId>) -> Seq<CombineAction> {
    sources.map_values(|s: ComponentId| CombineAction::Suppress(s))
}

/// What reconciling one root does: its sources are suppressed, then
/// - with no sources, a collapsed output follows the root's model and any
///   other output is removed;
/// - without an invertible model nothing more happens;
/// - an output with the same fingerprint only follows the root's model;
/// - otherwise the root is baked again.
pub open spec fn root_step(w: &World, outs: Seq<CombinedOutput>, f: RootFacts) -> (Seq<CombinedOutput>, Seq<CombineAction>) {
    let sources = sources_for_root_spec(w, f.root);
    let sup = suppress_all(sources);
    let follow = if f.has_model && f.model_changed { seq![CombineAction::UpdateModel(f.root)] } else { Seq::empty() };
    if sources.len() == 0 {
        match output_for(outs, f.root) {
            Some(o) => if o.collapsed {
                (outs, sup + follow)
            } else {
                (outputs_without(outs, f.root), sup.push(CombineAction::RemoveOutput(f.root)))
            },
            None => (outs, sup),
        }
    } else if !f.has_model || !f.invertible {
        (outs, sup)
    } else {
        match output_for(outs, f.root) {
            Some(o) if o.fingerprint == f.fingerprint => (outs, sup + follow),
            _ => (outs, sup.push(CombineAction::Bake {
                root: f.root,
                fingerprint: f.fingerprint,
                keep_transforms: keep_transforms_spec(w, f.root),
            })),
        }
    }
}

/// Reconciling the roots of `facts` one after the other.
pub open spec fn roots_steps(w: &World, outs: Seq<CombinedOutput>, facts: Seq<RootFacts>) -> (Seq<CombinedOutput>, Seq<CombineAction>)
    decreases facts.len(),
{
    if facts.len() == 0 {
        (outs, Seq::empty())
    } else {
        let (o, a) = roots_steps(w, outs, facts.drop_last());
        let (o2, a2) = root_step(w, o, facts.last());
        (o2, a + a2)
    }
}

/// A whole reconciliation: stale outputs go first, then each root in turn.
pub open spec fn reconcile_spec(w: &World, outs: Seq<CombinedOutput>, facts: Seq<RootFacts>) -> (Seq<CombinedOutput>, Seq<CombineAction>) {
    let (kept, removed) = retain_spec(outs, facts_roots(facts));
    let (o, a) = roots_steps(w, kept, facts);
    (o, removed + a)
}

/// The writes a fingerprint hashes: the root, then for each source its
/// identity, its mesh and material, and, when `with_models`, its model bits.
pub open spec fn model_writes(bits: Seq<u32>) -> Seq<Seq<u8>> {
    bits.map_values(|b: u32| vstd::bytes::spec_u32_to_le_bytes(b))
}

pub open spec fn source_writes(id: ComponentId, f: (Option<(u64, u64)>, Option<Seq<u32>>), with_models: bool) -> Seq<Seq<u8>> {
    let head = seq![vstd::bytes::spec_u64_to_le_bytes(id.index)];
    let rend = match f.0 {
        Some((m, t)) => seq![vstd::bytes::spec_u64_to_le_bytes(m), vstd::bytes::spec_u64_to_le_bytes(t)],
        None => Seq::empty(),
    };
    let model = match f.1 {
        Some(b) => if with_models { model_writes(b) } else { Seq::empty() },
        None => Seq::empty(),
    };
    head + rend + model
}

pub open spec fn facts_view(f: SourceFacts) -> (Option<(u64, u64)>, Option<Seq<u32>>) {
    (f.mesh_material, match f.model_bits { Some(v) => Some(v@), None => None })
}

pub open spec fn sources_writes(ids: Seq<ComponentId>, facts: Seq<SourceFacts>, with_models: bool) -> Seq<Seq<u8>>
    decreases ids.len(),
{
    if ids.len() == 0 || facts.len() < ids.len() {
        Seq::empty()
    } else {
        let k = ids.len() - 1;
        sources_writes(ids.drop_last(), facts.take(k), with_models) + source_writes(ids[k], facts_view(facts[k]), with_models)
    }
}

pub open spec fn fingerprint_writes(root: ComponentId, ids: Seq<ComponentId>, facts: Seq<SourceFacts>, with_models: bool) -> Seq<Seq<u8>> {
    seq![vstd::bytes::spec_u64_to_le_bytes(root.index)] + sources_writes(ids, facts, with_models)
}

proof fn lemma_writes_step(ids: Seq<ComponentId>, f: Seq<SourceFacts>, j: int, with_models: bool)
    requires
        0 <= j < ids.len(),
        f.len() == ids.len(),
    ensures
        sources_writes(ids.take(j + 1), f.take(j + 1), with_models)
            == sources_writes(ids.take(j), f.take(j), with_models) + source_writes(ids[j], facts_view(f[j]), with_models),
{
    assert(ids.take(j + 1).drop_last() =~= ids.take(j));
    assert(f.take(j + 1).take(j) =~= f.take(j));
    assert(ids.take(j + 1)[j] == ids[j]);
    assert(f.take(j + 1)[j] == f[j]);
}

proof fn lemma_writes_agree_before(ids: Seq<ComponentId>, f1: Seq<SourceFacts>, f2: Seq<SourceFacts>, j: int, with_models: bool)
    requires
        0 <= j <= ids.len(),
        f1.len() == ids.len(),
        f2.len() == ids.len(),
        forall|i: int| 0 <= i < j ==> #[trigger] facts_view(f1[i]) == facts_view(f2[i]),
    ensures
        sources_writes(ids.take(j), f1.take(j), with_models) == sources_writes(ids.take(j), f2.take(j), with_models),
    decreases j,
{
    if j > 0 {
        lemma_writes_agree_before(ids, f1, f2, j - 1, with_models);
        lemma_writes_step(ids, f1, j - 1, with_models);
        lemma_writes_step(ids, f2, j - 1, with_models);
        assert(facts_view(f1[j - 1]) == facts_view(f2[j - 1]));
    } else {
        assert(ids.take(0).len() == 0);
    }
}

proof fn lemma_writes_differ_after(ids: Seq<ComponentId>, f1: Seq<SourceFacts>, f2: Seq<SourceFacts>, k: int, j: int, pos: int, with_models: bool)
    requires
        0 <= k < j <= ids.len(),
        f1.len() == ids.len(),
        f2.len() == ids.len(),
        forall|i: int| k < i < ids.len() ==> #[trigger] facts_view(f1[i]) == facts_view(f2[i]),
        ({
            let a = sources_writes(ids.take(k + 1), f1.take(k + 1), with_models);
            let b = sources_writes(ids.take(k + 1), f2.take(k + 1), with_models);
            a.len() == b.len() && 0 <= pos < a.len() && a[pos] != b[pos]
        }),
    ensures
        ({
            let a = sources_writes(ids.take(j), f1.take(j), with_models);
            let b = sources_writes(ids.take(j), f2.take(j), with_models);
            a.len() == b.len() && 0 <= pos < a.len() && a[pos] != b[pos]
        }),
    decreases j - k,
{
    if j > k + 1 {
        lemma_writes_differ_after(ids, f1, f2, k, j - 1, pos, with_models);
        lemma_writes_step(ids, f1, j - 1, with_models);
        lemma_writes_step(ids, f2, j - 1, with_models);
        assert(facts_view(f1[j - 1]) == facts_view(f2[j - 1]));
    }
}

/// The fingerprint reads each source's mesh and material: two fact lists
/// that agree everywhere but in one renderable source's mesh or material
/// hash different inputs, so that change rebakes the combined mesh.
pub proof fn mesh_and_material_reach_the_fingerprint(
    root: ComponentId,
    ids: Seq<ComponentId>,
    f1: Seq<SourceFacts>,
    f2: Seq<SourceFacts>,
    k: int,
    with_models: bool,
)
    requires
        f1.len() == ids.len(),
        f2.len() == ids.len(),
        0 <= k < ids.len(),
        forall|i: int| 0 <= i < ids.len() && i != k ==> #[trigger] f1[i].mesh_material == f2[i].mesh_material
            && facts_view(f1[i]).1 == facts_view(f2[i]).1,
        facts_view(f1[k]).1 == facts_view(f2[k]).1,
        f1[k].mesh_material is Some,
        f2[k].mesh_material is Some,
        f1[k].mesh_material != f2[k].mesh_material,
    ensures
        fingerprint_writes(root, ids, f1, with_models) != fingerprint_writes(root, ids, f2, with_models),
{
    vstd::bytes::lemma_auto_spec_u64_to_from_le_bytes();
    assert forall|i: int| 0 <= i < ids.len() && i != k implies #[trigger] facts_view(f1[i]) == facts_view(f2[i]) by {
        assert(f1[i].mesh_material == f2[i].mesh_material);
    }
    lemma_writes_agree_before(ids, f1, f2, k, with_models);
    lemma_writes_step(ids, f1, k, with_models);
    lemma_writes_step(ids, f2, k, with_models);
    let base = sources_writes(ids.take(k), f1.take(k), with_models);
    let (m1, t1) = f1[k].mesh_material.unwrap();
    let (m2, t2) = f2[k].mesh_material.unwrap();
    let s1 = source_writes(ids[k], facts_view(f1[k]), with_models);
    let s2 = source_writes(ids[k], facts_view(f2[k]), with_models);
    let model = match facts_view(f1[k]).1 {
        Some(b) => if with_models { model_writes(b) } else { Seq::empty() },
        None => Seq::empty(),
    };
    let head = seq![vstd::bytes::spec_u64_to_le_bytes(ids[k].index)];
    assert(s1 == head + seq![vstd::bytes::spec_u64_to_le_bytes(m1), vstd::bytes::spec_u64_to_le_bytes(t1)] + model);
    assert(s2 == head + seq![vstd::bytes::spec_u64_to_le_bytes(m2), vstd::bytes::spec_u64_to_le_bytes(t2)] + model);
    let pos: int = if m1 != m2 { base.len() as int + 1 } else { base.len() as int + 2 };
    let a = base + s1;
    let b = base + s2;
    if m1 != m2 {
        assert(a[pos] == vstd::bytes::spec_u64_to_le_bytes(m1));
        assert(b[pos] == vstd::bytes::spec_u64_to_le_bytes(m2));
        assert(vstd::bytes::spec_u64_from_le_bytes(a[pos]) == m1);
    } else {
        assert(t1 != t2);
        assert(a[pos] == vstd::bytes::spec_u64_to_le_bytes(t1));
        assert(b[pos] == vstd::bytes::spec_u64_to_le_bytes(t2));
        assert(vstd::bytes::spec_u64_from_le_bytes(a[pos]) == t1);
    }
    lemma_writes_differ_after(ids, f1, f2, k, ids.len() as int, pos, with_models);
    assert(ids.take(ids.len() as int) =~= ids);
    assert(f1.take(f1.len() as int) =~= f1);
    assert(f2.take(f2.len() as int) =~= f2);
    let w1 = fingerprint_writes(root, ids, f1, with_models);
    let w2 = fingerprint_writes(root, ids, f2, with_models);
    assert(w1[pos + 1] == sources_writes(ids, f1, with_models)[pos]);
    assert(w2[pos + 1] == sources_writes(ids, f2, with_models)[pos]);
}

fn write_u64(h: &mut DefaultHasher, x: u64)
    ensures
        final(h)@ == old(h)@.push(vstd::bytes::spec_u64_to_le_bytes(x)),
{
    let b = vstd::bytes::u64_to_le_bytes(x);
    h.write(b.as_slice());
}

fn write_u32(h: &mut DefaultHasher, x: u32)
    ensures
        final(h)@ == old(h)@.push(vstd::bytes::spec_u32_to_le_bytes(x)),
{
    let b = vstd::bytes::u32_to_le_bytes(x);
    h.write(b.as_slice());
}

/// The fingerprint of a combined mesh's sources: the root, and each source's
/// identity, mesh and material, and (when transforms are kept) model bits,
/// hashed with the standard library's default hasher. `facts[i]` describes
/// `sources[i]`.
pub fn fingerprint(root: ComponentId, sources: &Vec<ComponentId>, facts: &Vec<SourceFacts>, include_source_transforms: bool) -> (r: u64)
    requires
        facts@.len() == sources@.len(),
    ensures
        r == DefaultHasher::spec_finish(fingerprint_writes(root, sources@, facts@, include_source_transforms)),
{
    let mut h = DefaultHasher::new();
    write_u64(&mut h, root.index);
    let mut i: usize = 0;
    while i < sources.len()
        invariant
            i <= sources@.len(),
            facts@.len() == sources@.len(),
            h@ == seq![vstd::bytes::spec_u64_to_le_bytes(root.index)] + sources_writes(sources@.take(i as int), facts@.take(i as int), include_source_transforms),
        decreases sources@.len() - i,
    {
        let ghost before = h@;
        write_u64(&mut h, sources[i].index);
        match facts[i].mesh_material {
            Some((m, t)) => {
                write_u64(&mut h, m);
                write_u64(&mut h, t);
            },
            None => {},
        }
        let ghost mid = h@;
        if include_source_transforms {
            match &facts[i].model_bits {
                Some(bits) => {
                    let mut j: usize = 0;
                    while j < bits.len()
                        invariant
                            j <= bits@.len(),
                            h@ == mid + model_writes(bits@.take(j as int)),
                        decreases bits@.len() - j,
                    {
                        write_u32(&mut h, bits[j]);
                        j += 1;
                        proof {
                            assert(model_writes(bits@.take(j as int)) =~= model_writes(bits@.take(j - 1)).push(vstd::bytes::spec_u32_to_le_bytes(bits@[j - 1])));
                        }
                    }
                    proof {
                        assert(bits@.take(bits@.len() as int) =~= bits@);
                    }
                },
                None => {},
            }
        }
        proof {
            let ids = sources@.take(i + 1);
            let fs = facts@.take(i + 1);
            assert(ids.drop_last() =~= sources@.take(i as int));
            assert(fs.take(i as int) =~= facts@.take(i as int));
            assert(ids[i as int] == sources@[i as int]);
            assert(fs[i as int] == facts@[i as int]);
            assert(h@ =~= before + source_writes(sources@[i as int], facts_view(facts@[i as int]), include_source_transforms));
        }
        i += 1;
    }
    proof {
        assert(sources@.take(sources@.len() as int) =~= sources@);
        assert(facts@.take(facts@.len() as int) =~= facts@);
    }
    h.finish()
}


fn find_output(outs: &Vec<CombinedOutput>, root: ComponentId) -> (r: Option<CombinedOutput>)
    ensures
        r == output_for(outs@, root),
{
    let mut r: Option<CombinedOutput> = None;
    let mut i: usize = 0;
    while i < outs.len()
        invariant
            i <= outs@.len(),
            r == output_for(outs@.take(i as int), root),
        decreases outs@.len() - i,
    {
        proof {
            assert(outs@.take(i + 1).drop_last() =~= outs@.take(i as int));
        }
        if r.is_none() && outs[i].root == root {
            r = Some(outs[i]);
        }
        i += 1;
    }
    proof {
        assert(outs@.take(outs@.len() as int) =~= outs@);
    }
    r
}

fn drop_output(outs: &Vec<CombinedOutput>, root: ComponentId) -> (r: Vec<CombinedOutput>)
    ensures
        r@ == outputs_without(outs@, root),
{
    let mut r: Vec<CombinedOutput> = Vec::new();
    let mut i: usize = 0;
    while i < outs.len()
        invariant
            i <= outs@.len(),
            r@ == outputs_without(outs@.take(i as int), root),
        decreases outs@.len() - i,
    {
        proof {
            assert(outs@.take(i + 1).drop_last() =~= outs@.take(i as int));
        }
        if outs[i].root != root {
            r.push(outs[i]);
        }
        i += 1;
    }
    proof {
        assert(outs@.take(outs@.len() as int) =~= outs@);
    }
    r
}

fn facts_contain(facts: &Vec<RootFacts>, root: ComponentId) -> (b: bool)
    ensures
        b == facts_roots(facts@).contains(root),
{
    let mut i: usize = 0;
    while i < facts.len()
        invariant
            i <= facts@.len(),
            forall|k: int| 0 <= k < i ==> facts@[k].root != root,
        decreases facts@.len() - i,
    {
        if facts[i].root == root {
            proof {
                assert(facts_roots(facts@)[i as int] == root);
            }
            return true;
        }
        i += 1;
    }
    proof {
        if facts_roots(facts@).contains(root) {
            let k = choose|k: int| 0 <= k < facts_roots(facts@).len() && facts_roots(facts@)[k] == root;
            assert(facts@[k].root == root);
        }
    }
    false
}

/// Every combined-mesh root, in slot order.
pub fn combine_roots(world: &World) -> (roots: Vec<ComponentId>)
    ensures
        roots@ == combine_roots_spec(world),
{
    let n = world.slot_count();
    let mut roots: Vec<ComponentId> = Vec::new();
    let mut i: usize = 0;
    while i < n
        invariant
            i <= n,
            n == world.slots(),
            roots@ == World::ids_where(i as int, is_combine_root(world)),
        decreases n - i,
    {
        let id = ComponentId { index: i as u64 };
        match world.component(id) {
            Some(Component::CombineMesh(_)) => roots.push(id),
            _ => {},
        }
        i += 1;
    }
    roots
}

/// Whether the combined mesh at `root` keeps its sources' transforms.
pub fn keep_transforms(world: &World, root: ComponentId) -> (b: bool)
    ensures
        b == keep_transforms_spec(world, root),
{
    match world.component(root) {
        Some(Component::CombineMesh(c)) => c.keep_transforms,
        _ => false,
    }
}

/// The combined meshes made so far.
pub struct CombineMeshSystem {
    pub outputs: Vec<CombinedOutput>,
}

impl CombineMeshSystem {
    /// No outputs yet.
    pub fn new() -> (s: Self)
        ensures
            s.outputs@ == Seq::<CombinedOutput>::empty(),
    {
        CombineMeshSystem { outputs: Vec::new() }
    }

    /// The nearest combined mesh above `component`; none when a gizmo comes
    /// first.
    pub fn owner_of(&self, world: &World, component: ComponentId) -> (r: Option<ComponentId>)
        ensures
            r == crate::combine_mesh::owner_of_spec(world, component),
    {
        crate::combine_mesh::owner_of(world, component)
    }

    fn root_step(&mut self, world: &World, f: RootFacts, acts: &mut Vec<CombineAction>)
        ensures
            ({
                let (o, a) = root_step(world, old(self).outputs@, f);
                final(self).outputs@ == o && final(acts)@ == old(acts)@ + a
            }),
    {
        let sources = sources_for_root(world, f.root);
        let ghost a0 = acts@;
        let mut i: usize = 0;
        while i < sources.len()
            invariant
                i <= sources@.len(),
                acts@ == a0 + suppress_all(sources@.take(i as int)),
            decreases sources@.len() - i,
        {
            acts.push(CombineAction::Suppress(sources[i]));
            i += 1;
            proof {
                assert(suppress_all(sources@.take(i as int)) =~= suppress_all(sources@.take(i - 1)).push(CombineAction::Suppress(sources@[i - 1])));
                assert(acts@ =~= a0 + suppress_all(sources@.take(i as int)));
            }
        }
        proof {
            assert(sources@.take(sources@.len() as int) =~= sources@);
        }
        let ghost sup = acts@;
        let current = find_output(&self.outputs, f.root);
        if sources.len() == 0 {
            match current {
                Some(o) => {
                    if o.collapsed {
                        if f.has_model && f.model_changed {
                            acts.push(CombineAction::UpdateModel(f.root));
                        }
                    } else {
                        self.outputs = drop_output(&self.outputs, f.root);
                        acts.push(CombineAction::RemoveOutput(f.root));
                    }
                },
                None => {},
            }
        } else if !f.has_model || !f.invertible {
        } else {
            let same = match current {
                Some(o) => o.fingerprint == f.fingerprint,
                None => false,
            };
            if same {
                if f.has_model && f.model_changed {
                    acts.push(CombineAction::UpdateModel(f.root));
                }
            } else {
                let keep = keep_transforms(world, f.root);
                acts.push(CombineAction::Bake { root: f.root, fingerprint: f.fingerprint, keep_transforms: keep });
            }
        }
        proof {
            let (o, a) = root_step(world, old(self).outputs@, f);
            assert(final(acts)@ =~= a0 + a);
        }
    }

    /// Reconciles the outputs with this frame's roots. `facts` holds one
    /// entry per combined-mesh root (see `combine_roots`), in that order.
    /// Outputs of roots that are gone are removed first; then each root is
    /// reconciled in turn (see `root_step`). The returned actions are the
    /// work for the caller, in order; a `Bake` that succeeds is recorded with
    /// `record_bake`.
    pub fn reconcile_and_build(&mut self, world: &World, facts: &Vec<RootFacts>) -> (acts: Vec<CombineAction>)
        ensures
            (final(self).outputs@, acts@) == reconcile_spec(world, old(self).outputs@, facts@),
    {
        let mut kept: Vec<CombinedOutput> = Vec::new();
        let mut acts: Vec<CombineAction> = Vec::new();
        let ghost roots = facts_roots(facts@);
        let mut i: usize = 0;
        while i < self.outputs.len()
            invariant
                i <= self.outputs@.len(),
                self.outputs@ == old(self).outputs@,
                roots == facts_roots(facts@),
                (kept@, acts@) == retain_spec(self.outputs@.take(i as int), roots),
            decreases self.outputs@.len() - i,
        {
            proof {
                assert(self.outputs@.take(i + 1).drop_last() =~= self.outputs@.take(i as int));
            }
            let o = self.outputs[i];
            if facts_contain(facts, o.root) {
                kept.push(o);
            } else {
                acts.push(CombineAction::RemoveOutput(o.root));
            }
            i += 1;
        }
        proof {
            assert(self.outputs@.take(self.outputs@.len() as int) =~= self.outputs@);
        }
        let ghost removed = acts@;
        self.outputs = kept;
        let mut k: usize = 0;
        while k < facts.len()
            invariant
                k <= facts@.len(),
                ({
                    let (o, a) = roots_steps(world, retain_spec(old(self).outputs@, roots).0, facts@.take(k as int));
                    self.outputs@ == o && acts@ == removed + a
                }),
                removed == retain_spec(old(self).outputs@, roots).1,
                roots == facts_roots(facts@),
            decreases facts@.len() - k,
        {
            proof {
                assert(facts@.take(k + 1).drop_last() =~= facts@.take(k as int));
            }
            self.root_step(world, facts[k], &mut acts);
            k += 1;
            proof {
                let (o, a) = roots_steps(world, retain_spec(old(self).outputs@, roots).0, facts@.take(k - 1));
                let (o2, a2) = root_step(world, o, facts@[k - 1]);
                assert(facts@.take(k as int).last() == facts@[k - 1]);
                assert(acts@ =~= removed + (a + a2));
            }
        }
        proof {
            assert(facts@.take(facts@.len() as int) =~= facts@);
        }
        acts
    }

    /// Records a bake that succeeded: the root's previous output (if any) is
    /// replaced by one with `fingerprint`. Returns whether an output was
    /// replaced, and the children of the root when its sources were
    /// collapsed (they stop being drawn on their own).
    pub fn record_bake(&mut self, world: &World, root: ComponentId, fingerprint: u64, keep_transforms: bool) -> (r: (bool, Vec<ComponentId>))
        ensures
            r.0 == output_for(old(self).outputs@, root) is Some,
            final(self).outputs@ == outputs_without(old(self).outputs@, root).push(
                CombinedOutput { root, fingerprint, collapsed: !keep_transforms },
            ),
            r.1@ == if keep_transforms { Seq::<ComponentId>::empty() } else { world.children_spec(root) },
    {
        let replaced = find_output(&self.outputs, root).is_some();
        let mut outs = drop_output(&self.outputs, root);
        outs.push(CombinedOutput { root, fingerprint, collapsed: !keep_transforms });
        self.outputs = outs;
        let collapse = if keep_transforms { Vec::new() } else { world.children_of(root) };
        (replaced, collapse)
    }
}

} // verus!
