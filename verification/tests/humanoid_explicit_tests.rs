use mittens::components::{Component, ComponentRef, TransformComponent};
use mittens::humanoid::{ResolvedHumanoidTarget, ResolvedHumanoidTargetKind};
use mittens::humanoid_explicit::{resolve_explicit, ExplicitOutcome};
use mittens::humanoid_map::HumanoidSlot;
use mittens::ids::ComponentId;
use mittens::world::World;

fn transform(world: &mut World, parent: Option<ComponentId>, name: &str) -> ComponentId {
    let id = world.add_component_named(name, Component::Transform(TransformComponent::new()));
    if let Some(p) = parent {
        world.add_child(p, id).unwrap();
    }
    id
}

#[test]
fn explicit_references_resolve_only_to_one_eligible_transform() {
    let mut world = World::new();
    let root = transform(&mut world, None, "Armature");
    let head = transform(&mut world, Some(root), "target");
    let prop = transform(&mut world, Some(root), "target");
    let joints = vec![head];
    let roots = vec![root];
    // Two components named `target`, but only the joint is eligible for the head.
    assert_eq!(
        resolve_explicit(&world, &roots, &joints, HumanoidSlot::Head, &ComponentRef::Query("#target".to_string())),
        ExplicitOutcome::Resolved(ResolvedHumanoidTarget { component: head, kind: ResolvedHumanoidTargetKind::SkinJoint })
    );
    // The camera anchor may use any transform: both are candidates.
    assert_eq!(
        resolve_explicit(&world, &roots, &joints, HumanoidSlot::CameraAnchor, &ComponentRef::Query("#target".to_string())),
        ExplicitOutcome::Ambiguous(2)
    );
    assert_eq!(
        resolve_explicit(&world, &roots, &joints, HumanoidSlot::Head, &ComponentRef::Query("#missing".to_string())),
        ExplicitOutcome::NoMatch
    );
    let guid = world.guid(prop).unwrap();
    assert_eq!(
        resolve_explicit(&world, &roots, &joints, HumanoidSlot::CameraAnchor, &ComponentRef::Guid(guid)),
        ExplicitOutcome::Resolved(ResolvedHumanoidTarget { component: prop, kind: ResolvedHumanoidTargetKind::Transform })
    );
    assert_eq!(
        resolve_explicit(&world, &roots, &joints, HumanoidSlot::Head, &ComponentRef::Guid(guid)),
        ExplicitOutcome::NoMatch
    );
}
