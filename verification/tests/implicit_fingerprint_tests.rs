use mittens::components::{Component, TransformComponent};
use mittens::ids::ComponentId;
use mittens::implicit_fingerprint::{authored_fingerprint, fingerprint_items, FingerprintItem};
use mittens::world::World;

fn child(world: &mut World, parent: ComponentId, component: Component) -> ComponentId {
    let id = world.add_component(component);
    world.add_child(parent, id).unwrap();
    id
}

#[test]
fn nested_surfaces_are_counted_but_not_entered() {
    let mut world = World::new();
    let root = world.add_component(Component::ImplicitSurface);
    let a = child(&mut world, root, Component::ImplicitSphere);
    let group = child(&mut world, root, Component::Transform(TransformComponent::new()));
    let nested = child(&mut world, group, Component::ImplicitSurface);
    let _hidden = child(&mut world, nested, Component::ImplicitSphere);
    let b = child(&mut world, a, Component::ImplicitSphere);
    assert_eq!(
        fingerprint_items(&world, root),
        vec![FingerprintItem::Sphere(a), FingerprintItem::Sphere(b), FingerprintItem::Nested(nested)]
    );
}

#[test]
fn fingerprints_change_with_any_authored_input() {
    let root = ComponentId { index: 1 };
    let items = vec![FingerprintItem::Sphere(ComponentId { index: 2 })];
    let bits = |r: u32| vec![vec![r; 17]];
    let surface = Some(vec![0u32; 9]);
    let base = authored_fingerprint(root, &surface, &vec![7], &items, &bits(1));
    assert_eq!(base, authored_fingerprint(root, &surface, &vec![7], &items, &bits(1)));
    assert_ne!(base, authored_fingerprint(root, &surface, &vec![8], &items, &bits(1)));
    assert_ne!(base, authored_fingerprint(root, &surface, &vec![7], &items, &bits(2)));
    assert_ne!(base, authored_fingerprint(root, &None, &vec![7], &items, &bits(1)));
}
