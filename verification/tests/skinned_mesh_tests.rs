use mittens::components::{Component, TransformComponent};
use mittens::ids::{ComponentId, SkinId};
use mittens::skinned_mesh::SkinnedMeshSystem;
use mittens::world::World;

fn id(index: u64) -> ComponentId {
    ComponentId { index }
}

#[test]
fn bindings_are_due_once_and_retried_on_request() {
    let mut system = SkinnedMeshSystem::new();
    let skin = SkinId { index: 0 };
    system.register_skin_instance_joints(id(1), skin, vec![Some(id(5)), None, Some(id(6))]);
    system.register_binding(id(10), id(2), id(1), skin);
    system.register_binding(id(11), id(2), id(1), skin);
    system.register_binding(id(12), id(3), id(1), skin);
    assert_eq!(system.skin_id_for_renderable(id(11)), Some(skin));

    let due = system.take_due_bindings();
    assert_eq!(due.len(), 2);
    assert_eq!(due[0].index, 0);
    assert_eq!(due[0].renderables, vec![id(10), id(11)]);
    assert_eq!(due[1].key.mesh_transform, id(3));
    assert!(system.dirty_bindings.iter().all(|dirty| !dirty));
    assert!(system.take_due_bindings().is_empty());

    system.finish_due_binding(due[1].index, true);
    system.finish_due_binding(due[0].index, false);
    let again = system.take_due_bindings();
    assert_eq!(again.len(), 1);
    assert_eq!(again[0].index, 1);

    system.remove_renderable(id(12));
    system.finish_due_binding(1, true);
    assert!(system.take_due_bindings().is_empty());
}

#[test]
fn moving_a_joint_makes_its_bindings_due() {
    let mut world = World::new();
    let arm = world.add_component(Component::Transform(TransformComponent::new()));
    let joint = world.add_component(Component::Transform(TransformComponent::new()));
    let mesh = world.add_component(Component::Transform(TransformComponent::new()));
    world.add_child(arm, joint).unwrap();
    let mut system = SkinnedMeshSystem::new();
    let skin = SkinId { index: 3 };
    system.register_skin_instance_joints(id(100), skin, vec![Some(joint)]);
    system.register_binding(id(200), mesh, id(100), skin);
    assert_eq!(system.take_due_bindings().len(), 1);

    system.transform_subtree_changed(&world, arm);
    assert_eq!(system.take_due_bindings().len(), 1);
    let elsewhere = world.add_component(Component::Transform(TransformComponent::new()));
    system.transform_subtree_changed(&world, elsewhere);
    assert!(system.take_due_bindings().is_empty());
}
