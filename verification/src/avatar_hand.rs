//! The avatar nodes a hand pose basis and its palm diagnostics are measured
//! from: each configured selector resolved strictly among the nodes the
//! avatar's glTF import spawned.
use vstd::prelude::*;
use crate::components::{Component, ComponentRef};
use crate::ids::ComponentId;
use crate::query::{ref_hits, ref_pred, ref_surface};
use crate::rest_attachment::{find_descendant_gltf, is_gltf, search_order};
use crate::world::{first_where, World};

verus! {

/// The nodes a hand pose basis is derived from: the middle finger's root,
/// middle and tip joints, and the optional hand-up or palm-width landmarks
/// (index root, then little root).
#[derive(Debug, Clone, Copy, PartialEq, Eq)]
pub struct AvatarHandNodes {
    pub finger: [ComponentId; 3],
    pub hand_up: Option<ComponentId>,
    pub palm_width: Option<[ComponentId; 2]>,
}

/// The nodes palm diagnostics measure: the middle finger's root, middle and
/// tip, the thumb root, and the index and little roots.
#[derive(Debug, Clone, Copy, PartialEq, Eq)]
pub struct AvatarPalmNodes {
    pub finger: [ComponentId; 3],
    pub thumb_root: ComponentId,
    pub palm: [ComponentId; 2],
}

/// What a selector of avatar nodes is called in diagnostics.
pub enum SelectorRole {
    Finger,
    PalmDiagnostic,
}

pub open spec fn role_name(role: SelectorRole) -> Seq<char> {
    match role {
        SelectorRole::Finger => "finger"@,
        SelectorRole::PalmDiagnostic => "palm diagnostic"@,
    }
}

/// Selector `r` resolved among the avatar's spawned `nodes`.
pub open spec fn resolve_avatar_node(w: &World, nodes: Seq<ComponentId>, r: ComponentRef, role: SelectorRole) -> Result<
    ComponentId,
    Seq<char>,
> {
    let hits = nodes.filter(ref_pred(w, r));
    if hits.len() == 1 {
        Ok(hits[0])
    } else {
        Err(
            role_name(role) + " selector "@ + ref_surface(r) + " matched "@ + crate::text::decimal(hits.len())
                + " avatar nodes (expected exactly one)"@,
        )
    }
}

/// The avatar's glTF scene: the first found beneath `model_root`.
pub open spec fn avatar_gltf(w: &World, model_root: ComponentId) -> Option<ComponentId> {
    first_where(search_order(w, model_root, w.slots()), is_gltf(w))
}

/// The spawned nodes of the avatar's glTF scene, or why they cannot be
/// searched; `Ok(None)` while the import is in flight.
pub open spec fn avatar_nodes(w: &World, model_root: ComponentId) -> Result<Option<Seq<ComponentId>>, Seq<char>> {
    match avatar_gltf(w, model_root) {
        None => Err("avatar GLTF was not found"@),
        Some(g) => match w.component_spec(g) {
            Some(Component::Gltf(c)) => if c.spawned_node_transforms@.len() == 0 {
                Ok(None)
            } else {
                Ok(Some(c.spawned_node_transforms@))
            },
            _ => Err("avatar GLTF disappeared"@),
        },
    }
}

/// The three finger selectors resolved in order; the first failure decides.
pub open spec fn resolve_finger(w: &World, nodes: Seq<ComponentId>, finger: [ComponentRef; 3], role: SelectorRole) -> Result<
    [ComponentId; 3],
    Seq<char>,
> {
    match resolve_avatar_node(w, nodes, finger[0], role) {
        Err(e) => Err(e),
        Ok(root) => match resolve_avatar_node(w, nodes, finger[1], role) {
            Err(e) => Err(e),
            Ok(middle) => match resolve_avatar_node(w, nodes, finger[2], role) {
                Err(e) => Err(e),
                Ok(tip) => Ok([root, middle, tip]),
            },
        },
    }
}

/// What resolving a hand pose basis' nodes gives: the finger, then the
/// hand-up landmark, then the palm width, each resolved among the avatar's
/// spawned nodes.
pub open spec fn hand_nodes_outcome(
    w: &World,
    model_root: ComponentId,
    finger: [ComponentRef; 3],
    hand_up: Option<ComponentRef>,
    palm_width: Option<[ComponentRef; 2]>,
) -> Result<Option<AvatarHandNodes>, Seq<char>> {
    match avatar_nodes(w, model_root) {
        Err(e) => Err(e),
        Ok(None) => Ok(None),
        Ok(Some(nodes)) => match resolve_finger(w, nodes, finger, SelectorRole::Finger) {
            Err(e) => Err(e),
            Ok(f) => match hand_up {
                Some(r) => match resolve_avatar_node(w, nodes, r, SelectorRole::Finger) {
                    Err(e) => Err(e),
                    Ok(up) => palm_width_outcome(w, nodes, f, Some(up), palm_width),
                },
                None => palm_width_outcome(w, nodes, f, None, palm_width),
            },
        },
    }
}

pub open spec fn palm_width_outcome(
    w: &World,
    nodes: Seq<ComponentId>,
    finger: [ComponentId; 3],
    hand_up: Option<ComponentId>,
    palm_width: Option<[ComponentRef; 2]>,
) -> Result<Option<AvatarHandNodes>, Seq<char>> {
    match palm_width {
        None => Ok(Some(AvatarHandNodes { finger, hand_up, palm_width: None })),
        Some(p) => match resolve_avatar_node(w, nodes, p[0], SelectorRole::Finger) {
            Err(e) => Err(e),
            Ok(index) => match resolve_avatar_node(w, nodes, p[1], SelectorRole::Finger) {
                Err(e) => Err(e),
                Ok(little) => Ok(Some(AvatarHandNodes { finger, hand_up, palm_width: Some([index, little]) })),
            },
        },
    }
}

/// What resolving palm diagnostics' nodes gives: the finger, the thumb
/// root, then the index and little roots, each resolved among the avatar's
/// spawned nodes.
pub open spec fn palm_nodes_outcome(
    w: &World,
    model_root: ComponentId,
    finger: [ComponentRef; 3],
    thumb_root: ComponentRef,
    palm: [ComponentRef; 2],
) -> Result<Option<AvatarPalmNodes>, Seq<char>> {
    match avatar_nodes(w, model_root) {
        Err(e) => Err(e),
        Ok(None) => Ok(None),
        Ok(Some(nodes)) => match resolve_finger(w, nodes, finger, SelectorRole::PalmDiagnostic) {
            Err(e) => Err(e),
            Ok(f) => match resolve_avatar_node(w, nodes, thumb_root, SelectorRole::PalmDiagnostic) {
                Err(e) => Err(e),
                Ok(thumb) => match resolve_avatar_node(w, nodes, palm[0], SelectorRole::PalmDiagnostic) {
                    Err(e) => Err(e),
                    Ok(index) => match resolve_avatar_node(w, nodes, palm[1], SelectorRole::PalmDiagnostic) {
                        Err(e) => Err(e),
                        Ok(little) => Ok(Some(AvatarPalmNodes { finger: f, thumb_root: thumb, palm: [index, little] })),
                    },
                },
            },
        },
    }
}

fn resolve_node(w: &World, nodes: &Vec<ComponentId>, r: &ComponentRef, palm: bool) -> (res: Result<ComponentId, String>)
    ensures
        ({
            let role = if palm { SelectorRole::PalmDiagnostic } else { SelectorRole::Finger };
            match res {
                Ok(id) => resolve_avatar_node(w, nodes@, *r, role) == Ok::<ComponentId, Seq<char>>(id),
                Err(e) => resolve_avatar_node(w, nodes@, *r, role) == Err::<ComponentId, Seq<char>>(e@),
            }
        }),
{
    let ghost role = if palm { SelectorRole::PalmDiagnostic } else { SelectorRole::Finger };
    let hits = ref_hits(w, nodes, r);
    if hits.len() == 1 {
        return Ok(hits[0]);
    }
    let mut msg = String::new();
    if palm {
        crate::text::push_chars(&mut msg, "palm diagnostic");
    } else {
        crate::text::push_chars(&mut msg, "finger");
    }
    crate::text::push_chars(&mut msg, " selector ");
    match r {
        ComponentRef::Guid(g) => {
            crate::text::push_chars(&mut msg, "@uuid:");
            crate::text::push_zero_padded(&mut msg, *g, 0);
        },
        ComponentRef::Query(q) => {
            crate::text::push_chars(&mut msg, q.as_str());
        },
    }
    crate::text::push_chars(&mut msg, " matched ");
    crate::text::push_zero_padded(&mut msg, hits.len() as u64, 0);
    crate::text::push_chars(&mut msg, " avatar nodes (expected exactly one)");
    proof {
        assert(msg@ =~= role_name(role) + " selector "@ + ref_surface(*r) + " matched "@ + crate::text::decimal(hits@.len())
            + " avatar nodes (expected exactly one)"@);
    }
    Err(msg)
}

fn text(a: &str) -> (r: String)
    ensures
        r@ == a@,
{
    a.to_owned()
}

fn spawned_avatar_nodes(world: &World, model_root: ComponentId) -> (r: Result<Option<&Vec<ComponentId>>, String>)
    ensures
        match r {
            Ok(Some(v)) => avatar_nodes(world, model_root) == Ok::<Option<Seq<ComponentId>>, Seq<char>>(Some(v@)),
            Ok(None) => avatar_nodes(world, model_root) == Ok::<Option<Seq<ComponentId>>, Seq<char>>(None),
            Err(e) => avatar_nodes(world, model_root) == Err::<Option<Seq<ComponentId>>, Seq<char>>(e@),
        },
{
    let g = match find_descendant_gltf(world, model_root) {
        Some(g) => g,
        None => {
            return Err(text("avatar GLTF was not found"));
        },
    };
    match world.component(g) {
        Some(Component::Gltf(c)) => if c.spawned_node_transforms.len() == 0 {
            Ok(None)
        } else {
            Ok(Some(&c.spawned_node_transforms))
        },
        _ => Err(text("avatar GLTF disappeared")),
    }
}

fn resolve_finger_nodes(w: &World, nodes: &Vec<ComponentId>, finger: &[ComponentRef; 3], palm: bool) -> (res: Result<
    [ComponentId; 3],
    String,
>)
    ensures
        ({
            let role = if palm { SelectorRole::PalmDiagnostic } else { SelectorRole::Finger };
            match res {
                Ok(f) => resolve_finger(w, nodes@, *finger, role) == Ok::<[ComponentId; 3], Seq<char>>(f),
                Err(e) => resolve_finger(w, nodes@, *finger, role) == Err::<[ComponentId; 3], Seq<char>>(e@),
            }
        }),
{
    let root = match resolve_node(w, nodes, &finger[0], palm) {
        Ok(id) => id,
        Err(e) => {
            return Err(e);
        },
    };
    let middle = match resolve_node(w, nodes, &finger[1], palm) {
        Ok(id) => id,
        Err(e) => {
            return Err(e);
        },
    };
    let tip = match resolve_node(w, nodes, &finger[2], palm) {
        Ok(id) => id,
        Err(e) => {
            return Err(e);
        },
    };
    Ok([root, middle, tip])
}

/// Resolves the nodes of a hand pose basis among the spawned nodes of the
/// avatar's glTF scene beneath `model_root`: `Ok(None)` while the import is
/// in flight, the nodes once it has run, or the first selector that does
/// not pick exactly one node.
pub fn resolve_avatar_hand_nodes(
    world: &World,
    model_root: ComponentId,
    finger: &[ComponentRef; 3],
    hand_up: Option<&ComponentRef>,
    palm_width: Option<&[ComponentRef; 2]>,
) -> (r: Result<Option<AvatarHandNodes>, String>)
    ensures
        ({
            let up = match hand_up {
                Some(x) => Some(*x),
                None => None::<ComponentRef>,
            };
            let width = match palm_width {
                Some(x) => Some(*x),
                None => None::<[ComponentRef; 2]>,
            };
            match r {
                Ok(x) => hand_nodes_outcome(world, model_root, *finger, up, width) == Ok::<Option<AvatarHandNodes>, Seq<char>>(x),
                Err(e) => hand_nodes_outcome(world, model_root, *finger, up, width) == Err::<Option<AvatarHandNodes>, Seq<char>>(
                    e@,
                ),
            }
        }),
{
    let nodes = match spawned_avatar_nodes(world, model_root) {
        Ok(Some(v)) => v,
        Ok(None) => {
            return Ok(None);
        },
        Err(e) => {
            return Err(e);
        },
    };
    let f = match resolve_finger_nodes(world, nodes, finger, false) {
        Ok(f) => f,
        Err(e) => {
            return Err(e);
        },
    };
    let up = match hand_up {
        Some(r) => match resolve_node(world, nodes, r, false) {
            Ok(id) => Some(id),
            Err(e) => {
                return Err(e);
            },
        },
        None => None,
    };
    let width = match palm_width {
        Some(p) => {
            let index = match resolve_node(world, nodes, &p[0], false) {
                Ok(id) => id,
                Err(e) => {
                    return Err(e);
                },
            };
            let little = match resolve_node(world, nodes, &p[1], false) {
                Ok(id) => id,
                Err(e) => {
                    return Err(e);
                },
            };
            Some([index, little])
        },
        None => None,
    };
    Ok(Some(AvatarHandNodes { finger: f, hand_up: up, palm_width: width }))
}

/// Resolves the nodes palm diagnostics measure among the spawned nodes of
/// the avatar's glTF scene beneath `model_root`: `Ok(None)` while the import
/// is in flight, the nodes once it has run, or the first selector that does
/// not pick exactly one node.
pub fn resolve_avatar_palm_nodes(
    world: &World,
    model_root: ComponentId,
    finger: &[ComponentRef; 3],
    thumb_root: &ComponentRef,
    palm: &[ComponentRef; 2],
) -> (r: Result<Option<AvatarPalmNodes>, String>)
    ensures
        match r {
            Ok(x) => palm_nodes_outcome(world, model_root, *finger, *thumb_root, *palm) == Ok::<Option<AvatarPalmNodes>, Seq<char>>(x),
            Err(e) => palm_nodes_outcome(world, model_root, *finger, *thumb_root, *palm) == Err::<Option<AvatarPalmNodes>, Seq<char>>(
                e@,
            ),
        },
{
    let nodes = match spawned_avatar_nodes(world, model_root) {
        Ok(Some(v)) => v,
        Ok(None) => {
            return Ok(None);
        },
        Err(e) => {
            return Err(e);
        },
    };
    let f = match resolve_finger_nodes(world, nodes, finger, true) {
        Ok(f) => f,
        Err(e) => {
            return Err(e);
        },
    };
    let thumb = match resolve_node(world, nodes, thumb_root, true) {
        Ok(id) => id,
        Err(e) => {
            return Err(e);
        },
    };
    let index = match resolve_node(world, nodes, &palm[0], true) {
        Ok(id) => id,
        Err(e) => {
            return Err(e);
        },
    };
    let little = match resolve_node(world, nodes, &palm[1], true) {
        Ok(id) => id,
        Err(e) => {
            return Err(e);
        },
    };
    Ok(Some(AvatarPalmNodes { finger: f, thumb_root: thumb, palm: [index, little] }))
}

} // verus!
