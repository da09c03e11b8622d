//! Which renderables a combined mesh gathers, and which combined mesh owns a
//! component.
use vstd::prelude::*;
use crate::components::Component;
use crate::ids::ComponentId;
use crate::world::World;

verus! {

/// A walk for combined-mesh sources stops at gizmos and at nested combined
/// meshes, whose subtrees are not gathered.
pub open spec fn blocks_gathering(c: Option<Component>) -> bool {
    c matches Some(Component::TransformGizmo) || c matches Some(Component::CombineMesh(_))
}

/// The renderables gathered from the subtree of `id`, in depth-first
/// preorder, `fuel` levels deep.
pub open spec fn node_sources(w: &World, id: ComponentId, fuel: nat) -> Seq<ComponentId>
    decreases fuel, 0nat,
{
    if fuel == 0 || blocks_gathering(w.component_spec(id)) {
        Seq::empty()
    } else {
        let here = if w.component_spec(id) matches Some(Component::Renderable) {
            seq![id]
        } else {
            Seq::empty()
        };
        here + forest_sources(w, w.children_spec(id), (fuel - 1) as nat)
    }
}

/// The renderables gathered from the subtrees of `roots`, in order.
pub open spec fn forest_sources(w: &World, roots: Seq<ComponentId>, fuel: nat) -> Seq<ComponentId>
    decreases fuel, roots.len(),
{
    if roots.len() == 0 {
        Seq::empty()
    } else {
        forest_sources(w, roots.drop_last(), fuel) + node_sources(w, roots.last(), fuel)
    }
}

/// The renderables a combined mesh at `root` gathers: those beneath it,
/// in depth-first preorder, outside gizmos and nested combined meshes.
pub open spec fn sources_for_root_spec(w: &World, root: ComponentId) -> Seq<ComponentId> {
    forest_sources(w, w.children_spec(root), w.slots())
}

proof fn lemma_forest_step(w: &World, roots: Seq<ComponentId>, k: int, fuel: nat)
    requires
        0 <= k < roots.len(),
    ensures
        forest_sources(w, roots.take(k + 1), fuel) == forest_sources(w, roots.take(k), fuel) + node_sources(w, roots[k], fuel),
{
    assert(roots.take(k + 1).drop_last() =~= roots.take(k));
}

fn gather(w: &World, id: ComponentId, fuel: usize, out: &mut Vec<ComponentId>)
    ensures
        final(out)@ == old(out)@ + node_sources(w, id, fuel as nat),
    decreases fuel,
{
    if fuel == 0 {
        proof {
            assert(old(out)@ + Seq::<ComponentId>::empty() =~= old(out)@);
        }
        return;
    }
    let blocked = match w.component(id) {
        Some(Component::TransformGizmo) => true,
        Some(Component::CombineMesh(_)) => true,
        _ => false,
    };
    if blocked {
        proof {
            assert(old(out)@ + Seq::<ComponentId>::empty() =~= old(out)@);
        }
        return;
    }
    let ghost start = out@;
    let renderable = match w.component(id) {
        Some(Component::Renderable) => true,
        _ => false,
    };
    if renderable {
        out.push(id);
    }
    let ghost here = out@;
    let children = w.children_of(id);
    let mut k: usize = 0;
    proof {
        assert(children@.take(0) =~= Seq::<ComponentId>::empty());
        assert(out@ =~= here + forest_sources(w, children@.take(0), (fuel - 1) as nat));
    }
    while k < children.len()
        invariant
            fuel > 0,
            k <= children@.len(),
            children@ == w.children_spec(id),
            out@ == here + forest_sources(w, children@.take(k as int), (fuel - 1) as nat),
        decreases children@.len() - k,
    {
        proof {
            lemma_forest_step(w, children@, k as int, (fuel - 1) as nat);
        }
        let ghost before = out@;
        gather(w, children[k], fuel - 1, out);
        proof {
            assert(out@ =~= here + forest_sources(w, children@.take(k + 1), (fuel - 1) as nat));
        }
        k += 1;
    }
    proof {
        assert(children@.take(children@.len() as int) =~= children@);
        assert(out@ =~= start + node_sources(w, id, fuel as nat));
    }
}

/// The renderables a combined mesh at `root` gathers: those beneath it, in
/// depth-first preorder, leaving out gizmos and nested combined meshes with
/// everything beneath them.
pub fn sources_for_root(world: &World, root: ComponentId) -> (sources: Vec<ComponentId>)
    ensures
        sources@ == sources_for_root_spec(world, root),
{
    let children = world.children_of(root);
    let fuel = world.slot_count();
    let mut out: Vec<ComponentId> = Vec::new();
    let mut k: usize = 0;
    proof {
        assert(children@.take(0) =~= Seq::<ComponentId>::empty());
    }
    while k < children.len()
        invariant
            k <= children@.len(),
            children@ == world.children_spec(root),
            fuel == world.slots(),
            out@ == forest_sources(world, children@.take(k as int), fuel as nat),
        decreases children@.len() - k,
    {
        proof {
            lemma_forest_step(world, children@, k as int, fuel as nat);
        }
        gather(world, children[k], fuel, &mut out);
        k += 1;
    }
    proof {
        assert(children@.take(children@.len() as int) =~= children@);
    }
    out
}

/// The nearest combined mesh above `component`; none when a gizmo comes
/// first, since gizmo geometry keeps its own renderables.
pub open spec fn owner_of_spec(w: &World, component: ComponentId) -> Option<ComponentId> {
    match w.first_up(w.parent_spec(component), w.slots(), |c: Component| blocks_gathering(Some(c))) {
        Some(n) => if w.component_spec(n) matches Some(Component::CombineMesh(_)) {
            Some(n)
        } else {
            None
        },
        None => None,
    }
}

/// The nearest combined mesh above `component`; none when a gizmo comes
/// first.
pub fn owner_of(world: &World, component: ComponentId) -> (r: Option<ComponentId>)
    ensures
        r == owner_of_spec(world, component),
{
    let ghost pred = |c: Component| blocks_gathering(Some(c));
    let mut current = world.parent_of(component);
    let mut fuel = world.slot_count();
    while fuel > 0
        invariant
            pred == (|c: Component| blocks_gathering(Some(c))),
            world.first_up(current, fuel as nat, pred) == world.first_up(world.parent_spec(component), world.slots(), pred),
        decreases fuel,
    {
        match current {
            None => {
                return None;
            },
            Some(node) => {
                match world.component(node) {
                    None => {
                        return None;
                    },
                    Some(Component::TransformGizmo) => {
                        return None;
                    },
                    Some(Component::CombineMesh(_)) => {
                        return Some(node);
                    },
                    Some(_) => {},
                }
                current = world.parent_of(node);
            },
        }
        fuel = fuel - 1;
    }
    None
}

} // verus!
