//! Resolving an explicitly authored humanoid slot: the reference's matches
//! among the armature's scope, kept when they are transforms that the slot
//! may use, must come down to exactly one component.
use vstd::prelude::*;
use crate::components::{Component, ComponentRef};
use crate::humanoid::{increasing, insert_sorted, ResolvedHumanoidTarget, ResolvedHumanoidTargetKind};
use crate::humanoid_map::HumanoidSlot;
use crate::ids::ComponentId;
use crate::query::{by_guid_spec, find_by_guid, matches_under};
use crate::world::{contains_id, World};

verus! {

/// What an explicit reference came to.
#[derive(Debug, Clone, Copy, PartialEq, Eq, Structural)]
pub enum ExplicitOutcome {
    /// Exactly one eligible component.
    Resolved(ResolvedHumanoidTarget),
    /// No eligible component.
    NoMatch,
    /// This many different eligible components.
    Ambiguous(usize),
}

/// What the reference matches before eligibility: the component holding
/// its identifier, or its selector's matches under each scope root.
pub open spec fn explicit_matches(w: &World, roots: Seq<ComponentId>, r: ComponentRef) -> Seq<ComponentId> {
    match r {
        ComponentRef::Guid(g) => match by_guid_spec(w, g) {
            Some(x) => seq![x],
            None => Seq::empty(),
        },
        ComponentRef::Query(q) => matches_under(w, roots, q@),
    }
}

/// A match the slot may use: a transform, and for every slot but the
/// camera anchor one of the armature's joints.
pub open spec fn eligible(w: &World, joints: Seq<ComponentId>, slot: HumanoidSlot) -> spec_fn(ComponentId) -> bool {
    |x: ComponentId| w.component_spec(x) matches Some(Component::Transform(_))
        && (slot == HumanoidSlot::CameraAnchor || joints.contains(x))
}

/// The outcome for the eligible matches `c`, by how many different
/// components they name.
pub open spec fn explicit_outcome_spec(c: Seq<ComponentId>, joints: Seq<ComponentId>) -> ExplicitOutcome {
    let n = c.to_set().len();
    if n == 0 {
        ExplicitOutcome::NoMatch
    } else if n == 1 {
        ExplicitOutcome::Resolved(ResolvedHumanoidTarget {
            component: c[0],
            kind: if joints.contains(c[0]) { ResolvedHumanoidTargetKind::SkinJoint } else { ResolvedHumanoidTargetKind::Transform },
        })
    } else {
        ExplicitOutcome::Ambiguous(n as usize)
    }
}

pub open spec fn explicit_spec(w: &World, roots: Seq<ComponentId>, joints: Seq<ComponentId>, slot: HumanoidSlot, r: ComponentRef) -> ExplicitOutcome {
    explicit_outcome_spec(explicit_matches(w, roots, r).filter(eligible(w, joints, slot)), joints)
}

fn raw_matches(world: &World, roots: &Vec<ComponentId>, r: &ComponentRef) -> (m: Vec<ComponentId>)
    ensures
        m@ == explicit_matches(world, roots@, *r),
{
    match r {
        ComponentRef::Guid(g) => match find_by_guid(world, *g) {
            Some(x) => vec![x],
            None => Vec::new(),
        },
        ComponentRef::Query(q) => {
            let mut m: Vec<ComponentId> = Vec::new();
            let mut i: usize = 0;
            while i < roots.len()
                invariant
                    i <= roots@.len(),
                    m@ == matches_under(world, roots@.take(i as int), q@),
                decreases roots@.len() - i,
            {
                proof {
                    assert(roots@.take(i + 1).drop_last() =~= roots@.take(i as int));
                }
                let mut found = world.find_all_components(roots[i], q.as_str());
                m.append(&mut found);
                i += 1;
            }
            proof {
                assert(roots@.take(roots@.len() as int) =~= roots@);
            }
            m
        },
    }
}

/// Resolves an authored reference for `slot` among `joints`, the armature's
/// joints; `roots` are the armature's scope roots for selectors.
pub fn resolve_explicit(world: &World, roots: &Vec<ComponentId>, joints: &Vec<ComponentId>, slot: HumanoidSlot, reference: &ComponentRef) -> (r: ExplicitOutcome)
    ensures
        r == explicit_spec(world, roots@, joints@, slot, *reference),
{
    let raw = raw_matches(world, roots, reference);
    let ghost pred = eligible(world, joints@, slot);
    let mut c: Vec<ComponentId> = Vec::new();
    let mut d: Vec<ComponentId> = Vec::new();
    let mut i: usize = 0;
    while i < raw.len()
        invariant
            i <= raw@.len(),
            pred == eligible(world, joints@, slot),
            c@ == raw@.take(i as int).filter(pred),
            increasing(d@),
            forall|y: ComponentId| #[trigger] d@.contains(y) <==> c@.contains(y),
        decreases raw@.len() - i,
    {
        let x = raw[i];
        proof {
            assert(raw@.take(i + 1) =~= raw@.take(i as int).push(x));
            raw@.take(i as int).lemma_filter_push(x, pred);
        }
        let transform = match world.component(x) {
            Some(Component::Transform(_)) => true,
            _ => false,
        };
        if transform && (slot == HumanoidSlot::CameraAnchor || contains_id(joints, x)) {
            let ghost c0 = c@;
            c.push(x);
            insert_sorted(&mut d, x);
            proof {
                assert forall|y: ComponentId| #[trigger] c@.contains(y) <==> (c0.contains(y) || y == x) by {
                    if c@.contains(y) {
                        let k = choose|k: int| 0 <= k < c@.len() && c@[k] == y;
                        if k < c0.len() {
                            assert(c0[k] == y);
                        }
                    }
                    if c0.contains(y) {
                        let k = choose|k: int| 0 <= k < c0.len() && c0[k] == y;
                        assert(c@[k] == y);
                    }
                    if y == x {
                        assert(c@[c0.len() as int] == x);
                    }
                }
            }
        }
        i += 1;
    }
    proof {
        assert(raw@.take(raw@.len() as int) =~= raw@);
        assert(d@.no_duplicates()) by {
            assert forall|a: int, b: int| 0 <= a < d@.len() && 0 <= b < d@.len() && a != b implies d@[a] != d@[b] by {
                if a < b {
                    assert(d@[a].index < d@[b].index);
                } else {
                    assert(d@[b].index < d@[a].index);
                }
            }
        }
        d@.unique_seq_to_set();
        assert(d@.to_set() =~= c@.to_set());
        assert(c@.to_set().len() == d@.len());
    }
    let n = d.len();
    if n == 0 {
        ExplicitOutcome::NoMatch
    } else if n == 1 {
        proof {
            assert(c@.len() > 0) by {
                assert(d@.contains(d@[0]));
            }
            assert(c@.contains(c@[0]));
            assert(d@.contains(c@[0]));
            assert(d@[0] == c@[0]);
        }
        let t = c[0];
        let kind = if contains_id(joints, t) { ResolvedHumanoidTargetKind::SkinJoint } else { ResolvedHumanoidTargetKind::Transform };
        ExplicitOutcome::Resolved(ResolvedHumanoidTarget { component: t, kind })
    } else {
        ExplicitOutcome::Ambiguous(n)
    }
}

} // verus!
