use mittens::bone_map_registry::{nearest_gltf, BoneMapRegistry, ResolvePlan};
use mittens::components::{Component, GltfComponent, TransformComponent};
use mittens::ids::ComponentId;
use mittens::world::World;

fn child(world: &mut World, parent: ComponentId, component: Component) -> ComponentId {
    let id = world.add_component(component);
    world.add_child(parent, id).unwrap();
    id
}

fn transform() -> Component {
    Component::Transform(TransformComponent::new())
}

#[test]
fn maps_belong_to_their_nearest_import_and_conflicts_are_planned() {
    let mut world = World::new();
    let gltf = world.add_component(Component::Gltf(GltfComponent::new()));
    let bone = child(&mut world, gltf, transform());
    let map_a = child(&mut world, bone, transform());
    let map_b = child(&mut world, gltf, transform());
    assert_eq!(nearest_gltf(&world, map_a), Some(gltf));
    let loose = world.add_component(transform());
    assert_eq!(nearest_gltf(&world, loose), None);

    let mut registry = BoneMapRegistry::new();
    // Nothing asks for a report yet.
    assert_eq!(registry.plan_resolve(&world, gltf, false), ResolvePlan::Skip);
    assert_eq!(registry.register_component(&world, map_a), Some(gltf));
    assert_eq!(registry.plan_resolve(&world, gltf, false), ResolvePlan::Build { source: Some(map_a), generation: 2 });
    registry.register_component(&world, map_b);
    assert_eq!(registry.plan_resolve(&world, gltf, false), ResolvePlan::Conflict { generation: 3 });
}

#[test]
fn implicit_requests_build_from_the_default_map() {
    let mut world = World::new();
    let gltf = world.add_component(Component::Gltf(GltfComponent::new()));
    let plain = world.add_component(transform());
    let mut registry = BoneMapRegistry::new();
    assert_eq!(registry.plan_resolve(&world, gltf, true), ResolvePlan::Build { source: None, generation: 1 });
    // The request is remembered.
    assert_eq!(registry.plan_resolve(&world, gltf, false), ResolvePlan::Build { source: None, generation: 2 });
    // Not an import: nothing to build.
    assert_eq!(registry.plan_resolve(&world, plain, true), ResolvePlan::Skip);
    registry.mark_reported(plain);
    assert_eq!(registry.reported, vec![plain]);
}
