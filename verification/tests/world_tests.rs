use mittens::components::{Component, TransformComponent};
use mittens::world::World;

#[test]
fn stable_identifiers_are_issued_in_order_from_one() {
    let mut world = World::new();
    assert_eq!(world.slot_count(), 0);
    let a = world.add_component(Component::Transform(TransformComponent::new()));
    let b = world.add_component_named("b", Component::Transform(TransformComponent::new()));
    assert_eq!(world.guid(a), Some(1));
    assert_eq!(world.guid(b), Some(2));
    assert_eq!(world.component_with_guid(2), Some(b));
}
