use mittens::combine_mesh::{owner_of, sources_for_root};
use mittens::components::{CombineMeshComponent, Component, TransformComponent};
use mittens::ids::ComponentId;
use mittens::world::World;

fn child(world: &mut World, parent: ComponentId, component: Component) -> ComponentId {
    let id = world.add_component(component);
    world.add_child(parent, id).unwrap();
    id
}

fn transform() -> Component {
    Component::Transform(TransformComponent::new())
}

#[test]
fn combined_mesh_gathers_descendant_renderables_in_order() {
    let mut world = World::new();
    let scene = world.add_component(transform());
    let combine = child(&mut world, scene, Component::CombineMesh(CombineMeshComponent { keep_transforms: false }));
    let left_t = child(&mut world, combine, transform());
    let left = child(&mut world, left_t, Component::Renderable);
    let right_t = child(&mut world, combine, transform());
    let right = child(&mut world, right_t, Component::Renderable);
    assert_eq!(sources_for_root(&world, combine), vec![left, right]);

    let gizmo = child(&mut world, right_t, Component::TransformGizmo);
    let gizmo_mesh = child(&mut world, gizmo, Component::Renderable);
    let nested = child(&mut world, left_t, Component::CombineMesh(CombineMeshComponent { keep_transforms: true }));
    let nested_mesh = child(&mut world, nested, Component::Renderable);
    let deep = child(&mut world, left, Component::Renderable);
    assert_eq!(sources_for_root(&world, combine), vec![left, deep, right]);

    assert_eq!(owner_of(&world, left), Some(combine));
    assert_eq!(owner_of(&world, nested_mesh), Some(nested));
    assert_eq!(owner_of(&world, gizmo_mesh), None);
    assert_eq!(owner_of(&world, combine), None);
    assert_eq!(owner_of(&world, scene), None);
}
