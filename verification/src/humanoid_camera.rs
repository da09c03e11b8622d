//! Choosing a humanoid's camera anchor: an explicit anchor that resolved
//! stays; otherwise a uniquely named camera node under the head, then an
//! anchor generated between the eyes, then the head itself.
//!
//! Where the eye midpoint lies is the caller's arithmetic; the library
//! decides which anchor is used and which generated anchor is reused.
use vstd::prelude::*;
use crate::components::Component;
use crate::humanoid::{name_tokens, name_tokens_spec, word_is};
use crate::humanoid_map::{ancestor_within, is_ancestor};
use crate::ids::ComponentId;
use crate::world::World;

verus! {

/// A name token that marks a camera node.
pub open spec fn camera_word(t: Seq<char>) -> bool {
    t == "camera"@ || t == "view"@ || t == "eyes"@
}

pub open spec fn names_camera(tokens: Seq<Seq<char>>) -> bool {
    exists|i: int| 0 <= i < tokens.len() && camera_word(#[trigger] tokens[i])
}

/// A spawned node that may be the camera: a transform whose name has a
/// camera token, at or below the head when there is one.
pub open spec fn camera_candidate(w: &World, head: Option<ComponentId>) -> spec_fn(ComponentId) -> bool {
    |id: ComponentId| {
        &&& w.component_spec(id) matches Some(Component::Transform(_))
        &&& names_camera(name_tokens_spec(w.name_spec(id)))
        &&& match head {
            None => true,
            Some(h) => id == h || ancestor_within(w, h, id, 32),
        }
    }
}

/// Where the camera anchor comes from.
#[derive(Debug, Clone, Copy, PartialEq, Eq, Structural)]
pub enum CameraPlan {
    /// The explicit anchor resolved; it stays.
    KeepExplicit,
    /// The one spawned node named as a camera.
    Named(ComponentId),
    /// An anchor at the eye midpoint, under `head`: `reuse` is the anchor
    /// generated before, when it is still a transform; otherwise a new one.
    EyeMidpoint { head: ComponentId, reuse: Option<ComponentId> },
    /// The head joint itself.
    HeadFallback(ComponentId),
    /// No anchor.
    Unresolved,
}

/// What the camera slot becomes.
#[derive(Debug, Clone, Copy, PartialEq, Eq, Structural)]
pub struct CameraDecision {
    pub plan: CameraPlan,
    /// The explicit anchor is invalid: the fallback carries a diagnostic.
    pub explicit_invalid: bool,
}

/// What the camera slot and its neighbours look like before the choice.
#[derive(Debug, Clone, Copy, PartialEq, Eq, Structural)]
pub struct CameraInputs {
    /// The map names the camera anchor by reference.
    pub authored_reference: bool,
    /// The camera slot resolved.
    pub camera_resolved: bool,
    /// The camera slot is an invalid explicit reference.
    pub camera_invalid: bool,
    /// The map infers unspecified slots by name.
    pub automap: bool,
    pub head: Option<ComponentId>,
    pub left_eye: Option<ComponentId>,
    pub right_eye: Option<ComponentId>,
    /// Both eyes have a rest pose relative to the armature's root.
    pub eyes_rest_known: bool,
    /// The anchor generated for this armature before.
    pub retained: Option<ComponentId>,
}

pub open spec fn plan_camera_spec(w: &World, spawned: Seq<ComponentId>, i: CameraInputs) -> CameraDecision {
    let named = spawned.filter(camera_candidate(w, i.head));
    if i.authored_reference && i.camera_resolved {
        CameraDecision { plan: CameraPlan::KeepExplicit, explicit_invalid: i.camera_invalid }
    } else if i.automap && named.len() == 1 {
        CameraDecision { plan: CameraPlan::Named(named[0]), explicit_invalid: i.camera_invalid }
    } else if i.left_eye is Some && i.right_eye is Some && i.head is Some && i.eyes_rest_known {
        let reuse = match i.retained {
            Some(a) => if w.component_spec(a) matches Some(Component::Transform(_)) { Some(a) } else { None },
            None => None,
        };
        CameraDecision { plan: CameraPlan::EyeMidpoint { head: i.head.unwrap(), reuse }, explicit_invalid: i.camera_invalid }
    } else if i.head is Some {
        CameraDecision { plan: CameraPlan::HeadFallback(i.head.unwrap()), explicit_invalid: i.camera_invalid }
    } else {
        CameraDecision { plan: CameraPlan::Unresolved, explicit_invalid: i.camera_invalid }
    }
}

fn is_transform(w: &World, id: ComponentId) -> (b: bool)
    ensures
        b == (w.component_spec(id) matches Some(Component::Transform(_))),
{
    match w.component(id) {
        Some(Component::Transform(_)) => true,
        _ => false,
    }
}

fn has_camera_token(tokens: &Vec<String>) -> (b: bool)
    ensures
        b == names_camera(crate::humanoid::views(tokens@)),
{
    let ghost v = crate::humanoid::views(tokens@);
    let mut i: usize = 0;
    while i < tokens.len()
        invariant
            i <= tokens@.len(),
            v == crate::humanoid::views(tokens@),
            forall|k: int| 0 <= k < i ==> !camera_word(#[trigger] v[k]),
        decreases tokens@.len() - i,
    {
        proof {
            assert(v[i as int] == tokens@[i as int]@);
        }
        if word_is(&tokens[i], "camera") || word_is(&tokens[i], "view") || word_is(&tokens[i], "eyes") {
            return true;
        }
        i += 1;
    }
    false
}

/// The spawned nodes that may be the camera, in order.
pub fn camera_candidates(world: &World, spawned: &Vec<ComponentId>, head: Option<ComponentId>) -> (r: Vec<ComponentId>)
    ensures
        r@ == spawned@.filter(camera_candidate(world, head)),
{
    let ghost pred = camera_candidate(world, head);
    let mut r: Vec<ComponentId> = Vec::new();
    let mut i: usize = 0;
    while i < spawned.len()
        invariant
            i <= spawned@.len(),
            pred == camera_candidate(world, head),
            r@ == spawned@.take(i as int).filter(pred),
        decreases spawned@.len() - i,
    {
        let id = spawned[i];
        proof {
            assert(spawned@.take(i + 1) =~= spawned@.take(i as int).push(id));
            spawned@.take(i as int).lemma_filter_push(id, pred);
        }
        let ok = if is_transform(world, id) {
            let label = match world.component_label(id) {
                Some(name) => name,
                None => String::new(),
            };
            let toks = name_tokens(label.as_str());
            if has_camera_token(&toks) {
                match head {
                    None => true,
                    Some(h) => id == h || is_ancestor(world, h, id),
                }
            } else {
                false
            }
        } else {
            false
        };
        if ok {
            r.push(id);
        }
        i += 1;
    }
    proof {
        assert(spawned@.take(spawned@.len() as int) =~= spawned@);
    }
    r
}

/// Chooses the camera anchor of an armature whose spawned nodes are
/// `spawned`.
pub fn plan_camera(world: &World, spawned: &Vec<ComponentId>, inputs: CameraInputs) -> (d: CameraDecision)
    ensures
        d == plan_camera_spec(world, spawned@, inputs),
{
    if inputs.authored_reference && inputs.camera_resolved {
        return CameraDecision { plan: CameraPlan::KeepExplicit, explicit_invalid: inputs.camera_invalid };
    }
    if inputs.automap {
        let named = camera_candidates(world, spawned, inputs.head);
        if named.len() == 1 {
            return CameraDecision { plan: CameraPlan::Named(named[0]), explicit_invalid: inputs.camera_invalid };
        }
    }
    match (inputs.left_eye, inputs.right_eye, inputs.head) {
        (Some(_), Some(_), Some(head)) => {
            if inputs.eyes_rest_known {
                let reuse = match inputs.retained {
                    Some(a) => if is_transform(world, a) { Some(a) } else { None },
                    None => None,
                };
                return CameraDecision { plan: CameraPlan::EyeMidpoint { head, reuse }, explicit_invalid: inputs.camera_invalid };
            }
        },
        _ => {},
    }
    match inputs.head {
        Some(h) => CameraDecision { plan: CameraPlan::HeadFallback(h), explicit_invalid: inputs.camera_invalid },
        None => CameraDecision { plan: CameraPlan::Unresolved, explicit_invalid: inputs.camera_invalid },
    }
}

} // verus!
