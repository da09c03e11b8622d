//! Searches below a component: the sphere fields of an implicit surface and
//! the first skinned glTF import.
use vstd::prelude::*;
use crate::components::Component;
use crate::ids::ComponentId;
use crate::world::World;

verus! {

/// Everything below `root` in depth-first preorder, `root` left out.
pub open spec fn below(w: &World, root: ComponentId) -> Seq<ComponentId> {
    let ds = w.descendants_or_self(root);
    if ds.len() > 0 { ds.subrange(1, ds.len() as int) } else { Seq::empty() }
}

pub open spec fn is_surface(w: &World) -> spec_fn(ComponentId) -> bool {
    |x: ComponentId| w.component_spec(x) matches Some(Component::ImplicitSurface)
}

pub open spec fn is_sphere(w: &World) -> spec_fn(ComponentId) -> bool {
    |x: ComponentId| w.component_spec(x) matches Some(Component::ImplicitSphere)
}

/// The first element of `s` that satisfies `p`.
pub open spec fn first_in(s: Seq<ComponentId>, p: spec_fn(ComponentId) -> bool) -> Option<ComponentId>
    decreases s.len(),
{
    if s.len() == 0 {
        None
    } else {
        match first_in(s.drop_last(), p) {
            Some(x) => Some(x),
            None => if p(s.last()) { Some(s.last()) } else { None },
        }
    }
}

/// The spheres below an implicit surface in discovery order, or the first
/// surface nested below it, which is not supported.
pub open spec fn sphere_descendants_spec(w: &World, root: ComponentId) -> Result<Seq<ComponentId>, ComponentId> {
    match first_in(below(w, root), is_surface(w)) {
        Some(nested) => Err(nested),
        None => Ok(below(w, root).filter(is_sphere(w))),
    }
}

fn below_of(world: &World, root: ComponentId) -> (r: Vec<ComponentId>)
    ensures
        r@ == below(world, root),
{
    let all = world.subtree_of(root);
    let mut r: Vec<ComponentId> = Vec::new();
    if all.len() == 0 {
        return r;
    }
    let mut i: usize = 1;
    while i < all.len()
        invariant
            1 <= i <= all@.len(),
            r@ == all@.subrange(1, i as int),
        decreases all@.len() - i,
    {
        r.push(all[i]);
        i += 1;
        proof {
            assert(r@ =~= all@.subrange(1, i as int));
        }
    }
    r
}

/// The sphere fields below an implicit surface, in depth-first preorder;
/// the first implicit surface nested below it is an error.
pub fn sphere_descendants(world: &World, root: ComponentId) -> (r: Result<Vec<ComponentId>, ComponentId>)
    ensures
        match r {
            Ok(v) => sphere_descendants_spec(world, root) == Ok::<Seq<ComponentId>, ComponentId>(v@),
            Err(e) => sphere_descendants_spec(world, root) == Err::<Seq<ComponentId>, ComponentId>(e),
        },
{
    let nodes = below_of(world, root);
    let ghost surf = is_surface(world);
    let ghost sph = is_sphere(world);
    let mut spheres: Vec<ComponentId> = Vec::new();
    let mut i: usize = 0;
    while i < nodes.len()
        invariant
            i <= nodes@.len(),
            surf == is_surface(world),
            sph == is_sphere(world),
            nodes@ == below(world, root),
            first_in(nodes@.take(i as int), surf) is None,
            spheres@ == nodes@.take(i as int).filter(sph),
        decreases nodes@.len() - i,
    {
        let id = nodes[i];
        proof {
            assert(nodes@.take(i + 1).drop_last() =~= nodes@.take(i as int));
            assert(nodes@.take(i + 1) =~= nodes@.take(i as int).push(id));
            nodes@.take(i as int).lemma_filter_push(id, sph);
        }
        match world.component(id) {
            Some(Component::ImplicitSurface) => {
                proof {
                    assert(nodes@.take(i + 1).last() == id);
                    assert(surf(id));
                    assert(first_in(nodes@.take(i + 1), surf) == Some(id));
                    lemma_first_in_prefix(nodes@, i as int + 1, surf);
                }
                return Err(id);
            },
            Some(Component::ImplicitSphere) => spheres.push(id),
            _ => {},
        }
        i += 1;
    }
    proof {
        assert(nodes@.take(nodes@.len() as int) =~= nodes@);
    }
    Ok(spheres)
}

proof fn lemma_first_in_prefix(s: Seq<ComponentId>, k: int, p: spec_fn(ComponentId) -> bool)
    requires
        0 <= k <= s.len(),
        first_in(s.take(k), p) is Some,
    ensures
        first_in(s, p) == first_in(s.take(k), p),
    decreases s.len() - k,
{
    if k < s.len() {
        assert(s.take(k + 1).drop_last() =~= s.take(k));
        lemma_first_in_prefix(s, k + 1, p);
    } else {
        assert(s.take(k) =~= s);
    }
}

pub open spec fn is_skinned_gltf(w: &World) -> spec_fn(ComponentId) -> bool {
    |x: ComponentId| w.component_spec(x) matches Some(Component::Gltf(g)) && g.armature_joint_transforms@.len() > 0
}

/// The first glTF import at or below `root`, in depth-first preorder, that
/// has armature joints.
pub fn first_skinned_gltf_below(world: &World, root: ComponentId) -> (r: Option<ComponentId>)
    ensures
        r == first_in(world.descendants_or_self(root), is_skinned_gltf(world)),
{
    let nodes = world.subtree_of(root);
    let ghost p = is_skinned_gltf(world);
    let mut i: usize = 0;
    while i < nodes.len()
        invariant
            i <= nodes@.len(),
            p == is_skinned_gltf(world),
            nodes@ == world.descendants_or_self(root),
            first_in(nodes@.take(i as int), p) is None,
        decreases nodes@.len() - i,
    {
        let id = nodes[i];
        proof {
            assert(nodes@.take(i + 1).drop_last() =~= nodes@.take(i as int));
        }
        let hit = match world.component(id) {
            Some(Component::Gltf(g)) => g.armature_joint_transforms.len() > 0,
            _ => false,
        };
        proof {
            assert(hit == p(id));
        }
        if hit {
            proof {
                assert(nodes@.take(i + 1).last() == id);
                assert(first_in(nodes@.take(i + 1), p) == Some(id));
                lemma_first_in_prefix(nodes@, i as int + 1, p);
            }
            return Some(id);
        }
        i += 1;
    }
    proof {
        assert(nodes@.take(nodes@.len() as int) =~= nodes@);
    }
    None
}

} // verus!
