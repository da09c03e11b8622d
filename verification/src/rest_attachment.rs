//! Rest attachments: locating the imported glTF scene under a node, and
//! resolving the anchor and target nodes an attachment joins.
use vstd::prelude::*;
use crate::components::{Component, ComponentRef};
use crate::ids::ComponentId;
use crate::query::{ref_hits, ref_pred, ref_surface};
use crate::world::{first_where, lemma_first_where_prefix, lemma_first_where_step, World};

verus! {

/// The order in which the search visits the subtree of `id`: `id`, then the
/// subtrees of its children from the last child to the first.
pub open spec fn search_order(w: &World, id: ComponentId, fuel: nat) -> Seq<ComponentId>
    decreases fuel, 0nat,
{
    if fuel == 0 || !w.live(id) {
        seq![id]
    } else {
        seq![id] + search_forest(w, w.children_spec(id), (fuel - 1) as nat)
    }
}

/// The search order of the subtrees of `roots`, last root first.
pub open spec fn search_forest(w: &World, roots: Seq<ComponentId>, fuel: nat) -> Seq<ComponentId>
    decreases fuel, roots.len(),
{
    if roots.len() == 0 {
        Seq::empty()
    } else {
        search_order(w, roots.last(), fuel) + search_forest(w, roots.drop_last(), fuel)
    }
}

pub open spec fn is_gltf(w: &World) -> spec_fn(ComponentId) -> bool {
    |c: ComponentId| w.component_spec(c) matches Some(Component::Gltf(_))
}

proof fn lemma_forest_back_step(w: &World, roots: Seq<ComponentId>, i: int, fuel: nat)
    requires
        0 < i <= roots.len(),
    ensures
        search_forest(w, roots.take(i), fuel) == search_order(w, roots[i - 1], fuel) + search_forest(w, roots.take(i - 1), fuel),
{
    assert(roots.take(i).drop_last() =~= roots.take(i - 1));
}

fn collect_search_order(w: &World, id: ComponentId, fuel: usize, out: &mut Vec<ComponentId>)
    ensures
        final(out)@ == old(out)@ + search_order(w, id, fuel as nat),
    decreases fuel,
{
    out.push(id);
    if fuel == 0 {
        return;
    }
    match w.record(id) {
        None => {},
        Some(r) => {
            let ghost start = old(out)@;
            let children = &r.children;
            let n = children.len();
            let mut done: usize = 0;
            proof {
                assert(children@.take(n as int) =~= children@);
                assert(out@ =~= start + seq![id]);
            }
            while done < n
                invariant
                    done <= n,
                    n == children@.len(),
                    children@ == w.children_spec(id),
                    fuel > 0,
                    out@ == start + seq![id] + (search_forest(w, children@, (fuel - 1) as nat).subrange(0,
                        search_forest(w, children@, (fuel - 1) as nat).len() - search_forest(w, children@.take(n - done), (fuel - 1) as nat).len())),
                    search_forest(w, children@, (fuel - 1) as nat).len() >= search_forest(w, children@.take(n - done), (fuel - 1) as nat).len(),
                    search_forest(w, children@, (fuel - 1) as nat) == search_forest(w, children@, (fuel - 1) as nat).subrange(0,
                        search_forest(w, children@, (fuel - 1) as nat).len() - search_forest(w, children@.take(n - done), (fuel - 1) as nat).len())
                        + search_forest(w, children@.take(n - done), (fuel - 1) as nat),
                decreases n - done,
            {
                let k = n - done;
                let ghost f = (fuel - 1) as nat;
                let ghost all = search_forest(w, children@, f);
                let ghost rest = search_forest(w, children@.take(k as int), f);
                let ghost next = search_order(w, children@[k - 1], f);
                let ghost after = search_forest(w, children@.take(k - 1), f);
                proof {
                    lemma_forest_back_step(w, children@, k as int, f);
                    assert(rest == next + after);
                }
                collect_search_order(w, children[k - 1], fuel - 1, out);
                done += 1;
                proof {
                    let prefix_len = all.len() - rest.len();
                    assert(all.subrange(0, prefix_len + next.len()) =~= all.subrange(0, prefix_len) + next) by {
                        assert(all =~= all.subrange(0, prefix_len) + rest);
                    }
                    assert(all =~= all.subrange(0, all.len() - after.len()) + after) by {
                        assert(all =~= all.subrange(0, prefix_len) + rest);
                        assert(all.subrange(0, all.len() - after.len()) =~= all.subrange(0, prefix_len) + next);
                    }
                    assert(out@ =~= start + seq![id] + all.subrange(0, all.len() - after.len()));
                }
            }
            proof {
                let all = search_forest(w, children@, (fuel - 1) as nat);
                assert(children@.take(0) =~= Seq::<ComponentId>::empty());
                assert(all.subrange(0, all.len() as int) =~= all);
                assert(out@ =~= start + search_order(w, id, fuel as nat));
            }
        },
    }
}

/// The first glTF scene found by a depth-first search from `root`, `root`
/// included, that visits the last child first.
pub fn find_descendant_gltf(world: &World, root: ComponentId) -> (r: Option<ComponentId>)
    ensures
        r == first_where(search_order(world, root, world.slots()), is_gltf(world)),
{
    let mut order: Vec<ComponentId> = Vec::new();
    collect_search_order(world, root, world.slot_count(), &mut order);
    proof {
        assert(order@ =~= search_order(world, root, world.slots()));
    }
    let ghost pred = is_gltf(world);
    let mut i: usize = 0;
    while i < order.len()
        invariant
            i <= order@.len(),
            order@ == search_order(world, root, world.slots()),
            pred == is_gltf(world),
            first_where(order@.take(i as int), pred) is None,
        decreases order@.len() - i,
    {
        proof {
            lemma_first_where_step(order@, i as int, pred);
        }
        let hit = match world.component(order[i]) {
            Some(Component::Gltf(_)) => true,
            _ => false,
        };
        if hit {
            proof {
                lemma_first_where_prefix(order@, i + 1, pred);
            }
            return Some(order[i]);
        }
        i += 1;
    }
    proof {
        assert(order@.take(order@.len() as int) =~= order@);
    }
    None
}

/// The imported nodes a rest attachment joins: the anchor, and the target
/// at or beneath it.
#[derive(Debug, Clone, Copy, PartialEq, Eq, Structural)]
pub struct RestAttachmentNodes {
    pub anchor: ComponentId,
    pub target: ComponentId,
}

/// Reference `r` resolved among the imported `nodes`: the one node it
/// picks, or why not.
pub open spec fn resolve_node(w: &World, nodes: Seq<ComponentId>, r: ComponentRef) -> Result<ComponentId, Seq<char>> {
    let hits = nodes.filter(ref_pred(w, r));
    if hits.len() == 1 {
        Ok(hits[0])
    } else {
        Err(
            "rest attachment reference "@ + ref_surface(r) + " matched "@ + crate::text::decimal(hits.len())
                + " imported nodes (expected exactly one)"@,
        )
    }
}

/// What resolving a rest attachment declared on glTF root `owner` gives:
/// nothing yet while the import is in flight; otherwise the anchor and the
/// target, each resolved strictly among the imported nodes, the target at
/// or beneath the anchor.
pub open spec fn rest_attachment_outcome(w: &World, owner: ComponentId, anchor: ComponentRef, target: ComponentRef) -> Result<
    Option<RestAttachmentNodes>,
    Seq<char>,
> {
    match w.component_spec(owner) {
        Some(Component::Gltf(g)) => if g.spawned_node_transforms@.len() == 0 {
            Ok(None)
        } else {
            match resolve_node(w, g.spawned_node_transforms@, anchor) {
                Err(e) => Err(e),
                Ok(a) => match resolve_node(w, g.spawned_node_transforms@, target) {
                    Err(e) => Err(e),
                    Ok(t) => if w.reaches_up(t, a, w.slots()) {
                        Ok(Some(RestAttachmentNodes { anchor: a, target: t }))
                    } else {
                        Err("rest attachment target is not beneath its anchor"@)
                    },
                },
            }
        },
        _ => Err("rest attachment owner is not a GLTF"@),
    }
}

fn text(a: &str) -> (r: String)
    ensures
        r@ == a@,
{
    a.to_owned()
}

fn resolve_in_gltf(w: &World, nodes: &Vec<ComponentId>, r: &ComponentRef) -> (res: Result<ComponentId, String>)
    ensures
        match res {
            Ok(id) => resolve_node(w, nodes@, *r) == Ok::<ComponentId, Seq<char>>(id),
            Err(e) => resolve_node(w, nodes@, *r) == Err::<ComponentId, Seq<char>>(e@),
        },
{
    let hits = ref_hits(w, nodes, r);
    if hits.len() == 1 {
        return Ok(hits[0]);
    }
    let mut msg = text("rest attachment reference ");
    match r {
        ComponentRef::Guid(g) => {
            crate::text::push_chars(&mut msg, "@uuid:");
            crate::text::push_zero_padded(&mut msg, *g, 0);
        },
        ComponentRef::Query(q) => {
            crate::text::push_chars(&mut msg, q.as_str());
        },
    }
    crate::text::push_chars(&mut msg, " matched ");
    crate::text::push_zero_padded(&mut msg, hits.len() as u64, 0);
    crate::text::push_chars(&mut msg, " imported nodes (expected exactly one)");
    proof {
        assert(msg@ =~= "rest attachment reference "@ + ref_surface(*r) + " matched "@ + crate::text::decimal(hits@.len())
            + " imported nodes (expected exactly one)"@);
    }
    Err(msg)
}

/// Whether `anchor` is `target` or one of its ancestors.
pub fn is_at_or_above(w: &World, anchor: ComponentId, target: ComponentId) -> (b: bool)
    ensures
        b == w.reaches_up(target, anchor, w.slots()),
{
    let mut current = target;
    let mut fuel = w.slot_count();
    while current != anchor
        invariant
            w.reaches_up(current, anchor, fuel as nat) == w.reaches_up(target, anchor, w.slots()),
        decreases fuel,
    {
        if fuel == 0 {
            return false;
        }
        match w.parent_of(current) {
            None => {
                return false;
            },
            Some(p) => {
                current = p;
            },
        }
        fuel = fuel - 1;
    }
    true
}

/// Resolves a rest attachment declared on glTF root `owner`: `Ok(None)`
/// while its nodes are still being imported, the anchor and target nodes
/// once they are, or why not.
pub fn resolve_rest_attachment(world: &World, owner: ComponentId, anchor: &ComponentRef, target: &ComponentRef) -> (r: Result<
    Option<RestAttachmentNodes>,
    String,
>)
    ensures
        match r {
            Ok(x) => rest_attachment_outcome(world, owner, *anchor, *target) == Ok::<Option<RestAttachmentNodes>, Seq<char>>(x),
            Err(e) => rest_attachment_outcome(world, owner, *anchor, *target) == Err::<Option<RestAttachmentNodes>, Seq<char>>(e@),
        },
{
    let nodes = match world.component(owner) {
        Some(Component::Gltf(g)) => &g.spawned_node_transforms,
        _ => {
            return Err(text("rest attachment owner is not a GLTF"));
        },
    };
    if nodes.len() == 0 {
        return Ok(None);
    }
    let a = match resolve_in_gltf(world, nodes, anchor) {
        Ok(id) => id,
        Err(e) => {
            return Err(e);
        },
    };
    let t = match resolve_in_gltf(world, nodes, target) {
        Ok(id) => id,
        Err(e) => {
            return Err(e);
        },
    };
    if is_at_or_above(world, a, t) {
        Ok(Some(RestAttachmentNodes { anchor: a, target: t }))
    } else {
        Err(text("rest attachment target is not beneath its anchor"))
    }
}

} // verus!
