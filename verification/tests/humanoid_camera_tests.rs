use mittens::components::{Component, TransformComponent};
use mittens::humanoid_camera::{camera_candidates, plan_camera, CameraDecision, CameraInputs, CameraPlan};
use mittens::ids::ComponentId;
use mittens::world::World;

fn node(world: &mut World, parent: Option<ComponentId>, name: &str) -> ComponentId {
    let id = world.add_component_named(name, Component::Transform(TransformComponent::new()));
    if let Some(p) = parent {
        world.add_child(p, id).unwrap();
    }
    id
}

fn inputs(head: Option<ComponentId>) -> CameraInputs {
    CameraInputs {
        authored_reference: false,
        camera_resolved: false,
        camera_invalid: false,
        automap: true,
        head,
        left_eye: None,
        right_eye: None,
        eyes_rest_known: false,
        retained: None,
    }
}

#[test]
fn a_unique_camera_name_under_the_head_wins() {
    let mut world = World::new();
    let root = node(&mut world, None, "Armature");
    let head = node(&mut world, Some(root), "Head");
    let cam = node(&mut world, Some(head), "CameraView");
    let elsewhere = node(&mut world, Some(root), "EyesTarget");
    let spawned = vec![root, head, cam, elsewhere];
    assert_eq!(camera_candidates(&world, &spawned, Some(head)), vec![cam]);
    assert_eq!(camera_candidates(&world, &spawned, None), vec![cam, elsewhere]);
    assert_eq!(
        plan_camera(&world, &spawned, inputs(Some(head))),
        CameraDecision { plan: CameraPlan::Named(cam), explicit_invalid: false }
    );
    // Two candidates without a head: no convention name, so the fallbacks.
    assert_eq!(plan_camera(&world, &spawned, inputs(None)), CameraDecision { plan: CameraPlan::Unresolved, explicit_invalid: false });
}

#[test]
fn eyes_then_head_are_the_fallbacks() {
    let mut world = World::new();
    let root = node(&mut world, None, "Armature");
    let head = node(&mut world, Some(root), "Head");
    let left = node(&mut world, Some(head), "LeftEye");
    let right = node(&mut world, Some(head), "RightEye");
    let old_anchor = node(&mut world, Some(head), "anchor");
    let spawned = vec![root, head, left, right];
    let mut i = inputs(Some(head));
    i.left_eye = Some(left);
    i.right_eye = Some(right);
    i.eyes_rest_known = true;
    i.retained = Some(old_anchor);
    i.camera_invalid = true;
    assert_eq!(
        plan_camera(&world, &spawned, i),
        CameraDecision { plan: CameraPlan::EyeMidpoint { head, reuse: Some(old_anchor) }, explicit_invalid: true }
    );
    i.eyes_rest_known = false;
    assert_eq!(plan_camera(&world, &spawned, i), CameraDecision { plan: CameraPlan::HeadFallback(head), explicit_invalid: true });
    i.authored_reference = true;
    i.camera_resolved = true;
    assert_eq!(plan_camera(&world, &spawned, i).plan, CameraPlan::KeepExplicit);
}
