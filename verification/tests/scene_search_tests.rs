use mittens::components::{Component, GltfComponent, TransformComponent};
use mittens::ids::ComponentId;
use mittens::scene_search::{first_skinned_gltf_below, sphere_descendants};
use mittens::world::World;

fn child(world: &mut World, parent: ComponentId, component: Component) -> ComponentId {
    let id = world.add_component(component);
    world.add_child(parent, id).unwrap();
    id
}

#[test]
fn spheres_are_found_in_preorder_and_nested_surfaces_refused() {
    let mut world = World::new();
    let surface = world.add_component(Component::ImplicitSurface);
    let group = child(&mut world, surface, Component::Transform(TransformComponent::new()));
    let a = child(&mut world, group, Component::ImplicitSphere);
    let b = child(&mut world, surface, Component::ImplicitSphere);
    assert_eq!(sphere_descendants(&world, surface), Ok(vec![a, b]));
    let nested = child(&mut world, group, Component::ImplicitSurface);
    assert_eq!(sphere_descendants(&world, surface), Err(nested));
}

#[test]
fn the_first_gltf_with_joints_is_the_skinned_one() {
    let mut world = World::new();
    let scene = world.add_component(Component::Transform(TransformComponent::new()));
    let props = child(&mut world, scene, Component::Gltf(GltfComponent::new()));
    assert_eq!(first_skinned_gltf_below(&world, scene), None);
    let mut rigged = GltfComponent::new();
    rigged.armature_joint_transforms.push(props);
    let avatar = child(&mut world, scene, Component::Gltf(rigged));
    assert_eq!(first_skinned_gltf_below(&world, scene), Some(avatar));
}
