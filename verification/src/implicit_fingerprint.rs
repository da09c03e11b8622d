//! The authored fingerprint of an implicit surface: what its extraction
//! depends on, hashed so that an unchanged surface is not extracted again.
//!
//! The float inputs (surface parameters, root placement, each sphere's
//! radius and placement) come in as bit patterns from the caller; which
//! components are visited, in which order, is decided here.
use vstd::prelude::*;
use std::hash::Hasher;
use std::collections::hash_map::DefaultHasher;
use vstd::std_specs::hash::DefaultHasherAdditionalSpecFns;
use crate::components::Component;
use crate::ids::ComponentId;
use crate::world::World;

verus! {

/// A component the fingerprint visits below the surface root.
#[derive(Debug, Clone, Copy, PartialEq, Eq, Structural)]
pub enum FingerprintItem {
    /// A nested surface: its identity counts, its subtree is not visited.
    Nested(ComponentId),
    /// A sphere field: its identity, radius and placement count.
    Sphere(ComponentId),
}

/// The items of the subtree of `id`, in depth-first preorder, `fuel` levels deep.
pub open spec fn node_items(w: &World, id: ComponentId, fuel: nat) -> Seq<FingerprintItem>
    decreases fuel, 0nat,
{
    if fuel == 0 || !w.live(id) {
        Seq::empty()
    } else if w.component_spec(id) matches Some(Component::ImplicitSurface) {
        seq![FingerprintItem::Nested(id)]
    } else {
        let here = if w.component_spec(id) matches Some(Component::ImplicitSphere) {
            seq![FingerprintItem::Sphere(id)]
        } else {
            Seq::empty()
        };
        here + forest_items(w, w.children_spec(id), (fuel - 1) as nat)
    }
}

/// The items of the subtrees of `roots`, in order.
pub open spec fn forest_items(w: &World, roots: Seq<ComponentId>, fuel: nat) -> Seq<FingerprintItem>
    decreases fuel, roots.len(),
{
    if roots.len() == 0 {
        Seq::empty()
    } else {
        forest_items(w, roots.drop_last(), fuel) + node_items(w, roots.last(), fuel)
    }
}

/// What the fingerprint of the surface at `root` visits.
pub open spec fn items_spec(w: &World, root: ComponentId) -> Seq<FingerprintItem> {
    forest_items(w, w.children_spec(root), w.slots())
}

proof fn lemma_items_step(w: &World, roots: Seq<ComponentId>, k: int, fuel: nat)
    requires
        0 <= k < roots.len(),
    ensures
        forest_items(w, roots.take(k + 1), fuel) == forest_items(w, roots.take(k), fuel) + node_items(w, roots[k], fuel),
{
    assert(roots.take(k + 1).drop_last() =~= roots.take(k));
}

fn gather_items(w: &World, id: ComponentId, fuel: usize, out: &mut Vec<FingerprintItem>)
    ensures
        final(out)@ == old(out)@ + node_items(w, id, fuel as nat),
    decreases fuel,
{
    if fuel == 0 || !w.contains(id) {
        proof {
            assert(old(out)@ + Seq::<FingerprintItem>::empty() =~= old(out)@);
        }
        return;
    }
    let ghost start = out@;
    match w.component(id) {
        Some(Component::ImplicitSurface) => {
            out.push(FingerprintItem::Nested(id));
            proof {
                assert(out@ =~= start + seq![FingerprintItem::Nested(id)]);
            }
            return;
        },
        Some(Component::ImplicitSphere) => out.push(FingerprintItem::Sphere(id)),
        _ => {},
    }
    let ghost here = out@;
    let children = w.children_of(id);
    let mut k: usize = 0;
    proof {
        assert(children@.take(0) =~= Seq::<ComponentId>::empty());
        assert(out@ =~= here + forest_items(w, children@.take(0), (fuel - 1) as nat));
    }
    while k < children.len()
        invariant
            fuel > 0,
            k <= children@.len(),
            children@ == w.children_spec(id),
            out@ == here + forest_items(w, children@.take(k as int), (fuel - 1) as nat),
        decreases children@.len() - k,
    {
        proof {
            lemma_items_step(w, children@, k as int, (fuel - 1) as nat);
        }
        gather_items(w, children[k], fuel - 1, out);
        proof {
            assert(out@ =~= here + forest_items(w, children@.take(k + 1), (fuel - 1) as nat));
        }
        k += 1;
    }
    proof {
        assert(children@.take(children@.len() as int) =~= children@);
        assert(out@ =~= start + node_items(w, id, fuel as nat));
    }
}

/// What the fingerprint of the surface at `root` visits below it, in
/// depth-first preorder: nested surfaces (not entered) and sphere fields.
pub fn fingerprint_items(world: &World, root: ComponentId) -> (items: Vec<FingerprintItem>)
    ensures
        items@ == items_spec(world, root),
{
    let children = world.children_of(root);
    let fuel = world.slot_count();
    let mut out: Vec<FingerprintItem> = Vec::new();
    let mut k: usize = 0;
    proof {
        assert(children@.take(0) =~= Seq::<ComponentId>::empty());
    }
    while k < children.len()
        invariant
            k <= children@.len(),
            children@ == world.children_spec(root),
            fuel == world.slots(),
            out@ == forest_items(world, children@.take(k as int), fuel as nat),
        decreases children@.len() - k,
    {
        proof {
            lemma_items_step(world, children@, k as int, fuel as nat);
        }
        gather_items(world, children[k], fuel, &mut out);
        k += 1;
    }
    proof {
        assert(children@.take(children@.len() as int) =~= children@);
    }
    out
}

pub open spec fn words(bits: Seq<u32>) -> Seq<Seq<u8>> {
    bits.map_values(|b: u32| vstd::bytes::spec_u32_to_le_bytes(b))
}

pub open spec fn item_writes(item: FingerprintItem, bits: Seq<u32>) -> Seq<Seq<u8>> {
    match item {
        FingerprintItem::Nested(id) => seq![vstd::bytes::spec_u64_to_le_bytes(id.index)],
        FingerprintItem::Sphere(id) => seq![vstd::bytes::spec_u64_to_le_bytes(id.index)] + words(bits),
    }
}

pub open spec fn items_writes(items: Seq<FingerprintItem>, bits: Seq<Seq<u32>>) -> Seq<Seq<u8>>
    decreases items.len(),
{
    if items.len() == 0 || bits.len() < items.len() {
        Seq::empty()
    } else {
        let k = items.len() - 1;
        items_writes(items.drop_last(), bits.take(k)) + item_writes(items[k], bits[k])
    }
}

/// The writes of an authored fingerprint: the root, the surface's
/// parameters (when it has them), the root's placement, then each item.
pub open spec fn authored_writes(root: ComponentId, surface: Option<Seq<u32>>, placement: Seq<u32>, items: Seq<FingerprintItem>, bits: Seq<Seq<u32>>) -> Seq<Seq<u8>> {
    seq![vstd::bytes::spec_u64_to_le_bytes(root.index)]
        + (match surface { Some(s) => words(s), None => Seq::empty() })
        + words(placement)
        + items_writes(items, bits)
}

fn write_words(h: &mut DefaultHasher, bits: &Vec<u32>)
    ensures
        final(h)@ == old(h)@ + words(bits@),
{
    let ghost h0 = h@;
    let mut j: usize = 0;
    while j < bits.len()
        invariant
            j <= bits@.len(),
            h@ == h0 + words(bits@.take(j as int)),
        decreases bits@.len() - j,
    {
        let b = vstd::bytes::u32_to_le_bytes(bits[j]);
        h.write(b.as_slice());
        j += 1;
        proof {
            assert(words(bits@.take(j as int)) =~= words(bits@.take(j - 1)).push(vstd::bytes::spec_u32_to_le_bytes(bits@[j - 1])));
            assert(h@ =~= h0 + words(bits@.take(j as int)));
        }
    }
    proof {
        assert(bits@.take(bits@.len() as int) =~= bits@);
    }
}

/// The authored fingerprint of the surface at `root`. `surface` holds the
/// bit patterns of its bounds, voxel size, iso level and blend radius when
/// it is a surface; `placement` those of its root's scale (or, when the
/// scale is not uniform, its whole model); `bits[i]` those of the radius
/// and placement of `items[i]` when it is a sphere (see `fingerprint_items`).
pub fn authored_fingerprint(root: ComponentId, surface: &Option<Vec<u32>>, placement: &Vec<u32>, items: &Vec<FingerprintItem>, bits: &Vec<Vec<u32>>) -> (r: u64)
    requires
        bits@.len() == items@.len(),
    ensures
        r == DefaultHasher::spec_finish(authored_writes(
            root,
            match surface { Some(s) => Some(s@), None => None },
            placement@,
            items@,
            bits@.map_values(|v: Vec<u32>| v@),
        )),
{
    let ghost bv = bits@.map_values(|v: Vec<u32>| v@);
    let mut h = DefaultHasher::new();
    let b = vstd::bytes::u64_to_le_bytes(root.index);
    h.write(b.as_slice());
    match surface {
        Some(s) => write_words(&mut h, s),
        None => {},
    }
    write_words(&mut h, placement);
    let ghost head = h@;
    let mut i: usize = 0;
    while i < items.len()
        invariant
            i <= items@.len(),
            bits@.len() == items@.len(),
            bv == bits@.map_values(|v: Vec<u32>| v@),
            h@ == head + items_writes(items@.take(i as int), bv.take(i as int)),
        decreases items@.len() - i,
    {
        let ghost before = h@;
        match items[i] {
            FingerprintItem::Nested(id) => {
                let b = vstd::bytes::u64_to_le_bytes(id.index);
                h.write(b.as_slice());
            },
            FingerprintItem::Sphere(id) => {
                let b = vstd::bytes::u64_to_le_bytes(id.index);
                h.write(b.as_slice());
                write_words(&mut h, &bits[i]);
            },
        }
        proof {
            let its = items@.take(i + 1);
            let bs = bv.take(i + 1);
            assert(its.drop_last() =~= items@.take(i as int));
            assert(bs.take(i as int) =~= bv.take(i as int));
            assert(its[i as int] == items@[i as int]);
            assert(bs[i as int] == bits@[i as int]@);
            assert(h@ =~= before + item_writes(items@[i as int], bits@[i as int]@));
        }
        i += 1;
    }
    proof {
        assert(items@.take(items@.len() as int) =~= items@);
        assert(bv.take(bv.len() as int) =~= bv);
    }
    h.finish()
}

} // verus!
