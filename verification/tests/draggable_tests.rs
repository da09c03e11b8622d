use mittens::components::{
    Component, ComponentRef, DraggableComponent, RaycastableComponent, SelectableComponent, SerializeComponent,
    TransformComponent,
};
use mittens::draggable::{
    draggable_owner_for_hit, gesture_key, resolve_draggable_for_hit, resolve_marker_motion_target, DraggableSystem,
    PointerActivationSource,
};
use mittens::ids::ComponentId;
use mittens::world::World;

fn transform() -> Component {
    Component::Transform(TransformComponent::new())
}

#[test]
fn registration_generates_runtime_raycastable_and_nested_hits_resolve_to_owner() {
    let mut world = World::new();
    let owner = world.add_component(transform());
    let draggable = world.add_component(Component::Draggable(DraggableComponent::new()));
    let nested = world.add_component(transform());
    let deep = world.add_component(transform());
    let renderable = world.add_component(Component::Renderable);
    world.add_child(owner, draggable).unwrap();
    world.add_child(owner, nested).unwrap();
    world.add_child(nested, deep).unwrap();
    world.add_child(deep, renderable).unwrap();

    let mut system = DraggableSystem::new();
    let created = system.register(&mut world, draggable);

    let generated = world
        .children_of(owner)
        .iter()
        .copied()
        .find(|child| world.component_label(*child) == Some("draggable_generated_raycastable".to_string()))
        .expect("generated raycastable");
    assert_eq!(created, Some(generated));
    assert!(matches!(world.component(generated), Some(Component::Raycastable(_))));
    assert!(world.children_of(generated).iter().any(|child| {
        matches!(world.component(*child), Some(Component::Serialize(s)) if !s.enabled)
    }));
    assert_eq!(draggable_owner_for_hit(&world, renderable), Some(owner));
}

#[test]
fn explicit_owner_raycastable_is_preserved() {
    let mut world = World::new();
    let owner = world.add_component(transform());
    let draggable = world.add_component(Component::Draggable(DraggableComponent::new()));
    let explicit = world.add_component(Component::Raycastable(RaycastableComponent::disabled()));
    world.add_child(owner, draggable).unwrap();
    world.add_child(owner, explicit).unwrap();
    assert_eq!(DraggableSystem::new().register(&mut world, draggable), None);
    assert_eq!(
        world
            .children_of(owner)
            .iter()
            .filter(|child| matches!(world.component(**child), Some(Component::Raycastable(_))))
            .count(),
        1
    );
    assert!(matches!(world.component(explicit), Some(Component::Raycastable(r)) if !r.enable));
}

#[test]
fn selectable_on_wins_over_draggable_but_selectable_off_does_not() {
    let mut world = World::new();
    let owner = world.add_component(transform());
    let draggable = world.add_component(Component::Draggable(DraggableComponent::new()));
    let selectable = world.add_component(Component::Selectable(SelectableComponent::on()));
    let renderable = world.add_component(Component::Renderable);
    world.add_child(owner, draggable).unwrap();
    world.add_child(owner, selectable).unwrap();
    world.add_child(owner, renderable).unwrap();

    assert_eq!(draggable_owner_for_hit(&world, renderable), None);
    assert!(world.set_component(selectable, Component::Selectable(SelectableComponent::off())));
    assert_eq!(draggable_owner_for_hit(&world, renderable), Some(owner));
}

#[test]
fn parent_handle_resolves_to_the_complete_parent_transform() {
    let mut world = World::new();
    let panel = world.add_component(transform());
    let title_bar = world.add_component(transform());
    let draggable = world.add_component(Component::Draggable(DraggableComponent::parent()));
    let renderable = world.add_component(Component::Renderable);
    world.add_child(panel, title_bar).unwrap();
    world.add_child(title_bar, draggable).unwrap();
    world.add_child(title_bar, renderable).unwrap();

    assert_eq!(draggable_owner_for_hit(&world, renderable), Some(panel));
}

#[test]
fn selector_targets_stay_cached_while_live_and_rebind_after_deletion() {
    let mut world = World::new();
    let scope = world.add_component(transform());
    let owner = world.add_component(transform());
    let first = world.add_component_named("target", transform());
    let marker = world.add_component(Component::Draggable(DraggableComponent::explicit(ComponentRef::Query(
        "../#target".to_string(),
    ))));
    world.add_child(scope, owner).unwrap();
    world.add_child(scope, first).unwrap();
    world.add_child(owner, marker).unwrap();

    assert_eq!(resolve_marker_motion_target(&mut world, marker, owner), Some(first));
    assert!(world.set_name(first, ""));
    let replacement = world.add_component_named("target", transform());
    world.add_child(scope, replacement).unwrap();
    assert_eq!(
        resolve_marker_motion_target(&mut world, marker, owner),
        Some(first),
        "a live cached selector target must remain sticky"
    );

    world.remove_component_subtree(first).unwrap();
    assert_eq!(
        resolve_marker_motion_target(&mut world, marker, owner),
        Some(replacement),
        "a selector may bind its replacement after deletion"
    );
}

#[test]
fn guid_targets_do_not_rebind_after_the_bound_component_is_deleted() {
    let mut world = World::new();
    let owner = world.add_component(transform());
    let target = world.add_component(transform());
    let guid = world.guid(target).unwrap();
    let marker = world.add_component(Component::Draggable(DraggableComponent::explicit(ComponentRef::Guid(guid))));
    world.add_child(owner, marker).unwrap();

    assert_eq!(resolve_marker_motion_target(&mut world, marker, owner), Some(target));
    world.remove_component_subtree(target).unwrap();
    let replacement = world.add_component(transform());
    assert!(world.set_guid(replacement, guid));
    assert_eq!(resolve_marker_motion_target(&mut world, marker, owner), None);
}

#[test]
fn ambiguous_selector_resolves_to_nothing() {
    let mut world = World::new();
    let scope = world.add_component(transform());
    let owner = world.add_component(transform());
    let a = world.add_component_named("target", transform());
    let b = world.add_component_named("target", transform());
    let marker = world.add_component(Component::Draggable(DraggableComponent::explicit(ComponentRef::Query(
        "../#target".to_string(),
    ))));
    world.add_child(scope, owner).unwrap();
    world.add_child(scope, a).unwrap();
    world.add_child(scope, b).unwrap();
    world.add_child(owner, marker).unwrap();
    assert_eq!(resolve_marker_motion_target(&mut world, marker, owner), None);
    assert!(world.remove_component_leaf(b).is_ok());
    assert_eq!(resolve_marker_motion_target(&mut world, marker, owner), Some(a));
}

#[test]
fn disabled_marker_is_not_registered() {
    let mut world = World::new();
    let owner = world.add_component(transform());
    let mut d = DraggableComponent::new();
    d.enabled = false;
    let marker = world.add_component(Component::Draggable(d));
    world.add_child(owner, marker).unwrap();
    assert_eq!(DraggableSystem::new().register(&mut world, marker), None);
    assert_eq!(world.children_of(owner).len(), 1);
    let renderable = world.add_component(Component::Renderable);
    world.add_child(owner, renderable).unwrap();
    assert_eq!(draggable_owner_for_hit(&world, renderable), None);
}

#[test]
fn gesture_keys_distinguish_sources() {
    let r = ComponentId { index: 3 };
    let h = ComponentId { index: 4 };
    assert_eq!(gesture_key(PointerActivationSource::Trigger, r, h), (0, r, h));
    assert_eq!(gesture_key(PointerActivationSource::Grip, r, h), (1, r, h));
}

#[test]
fn serialization_is_off_for_generated_targets() {
    assert!(!SerializeComponent::off().enabled);
}

#[test]
fn install_handlers_only_once() {
    let mut system = DraggableSystem::new();
    assert!(system.install_handlers());
    assert!(!system.install_handlers());
}

#[test]
fn captured_target_does_not_switch_during_an_active_gesture() {
    let mut world = World::new();
    let scope = world.add_component(transform());
    let owner = world.add_component(transform());
    let target = world.add_component_named("target", transform());
    let marker = world.add_component(Component::Draggable(DraggableComponent::explicit(ComponentRef::Query(
        "../#target".to_string(),
    ))));
    let renderable = world.add_component(Component::Renderable);
    world.add_child(scope, owner).unwrap();
    world.add_child(scope, target).unwrap();
    world.add_child(owner, marker).unwrap();
    world.add_child(owner, renderable).unwrap();

    let mut system = DraggableSystem::new();
    system.install_handlers();
    let raycaster = ComponentId::default();
    system.drag_start(&mut world, PointerActivationSource::Trigger, raycaster, renderable);
    world.remove_component_subtree(target).unwrap();
    let replacement = world.add_component_named("target", transform());
    world.add_child(scope, replacement).unwrap();
    let moved = system.drag_move_target(&mut world, PointerActivationSource::Trigger, raycaster, renderable);
    assert!(moved.iter().all(|resolved| resolved.target != replacement));
}

#[test]
fn ended_gesture_resolves_the_replacement_afresh() {
    let mut world = World::new();
    let scope = world.add_component(transform());
    let owner = world.add_component(transform());
    let target = world.add_component_named("target", transform());
    let marker = world.add_component(Component::Draggable(DraggableComponent::explicit(ComponentRef::Query(
        "../#target".to_string(),
    ))));
    let renderable = world.add_component(Component::Renderable);
    world.add_child(scope, owner).unwrap();
    world.add_child(scope, target).unwrap();
    world.add_child(owner, marker).unwrap();
    world.add_child(owner, renderable).unwrap();

    let mut system = DraggableSystem::new();
    let raycaster = ComponentId { index: 77 };
    system.drag_start(&mut world, PointerActivationSource::Trigger, raycaster, renderable);
    assert_eq!(
        system.drag_move_target(&mut world, PointerActivationSource::Trigger, raycaster, renderable).map(|r| r.target),
        Some(target)
    );
    world.remove_component_subtree(target).unwrap();
    let replacement = world.add_component_named("target", transform());
    world.add_child(scope, replacement).unwrap();
    assert_eq!(
        system.drag_move_target(&mut world, PointerActivationSource::Trigger, raycaster, renderable).map(|r| r.target),
        Some(target)
    );
    // Grip gestures drag nothing.
    assert_eq!(system.drag_move_target(&mut world, PointerActivationSource::Grip, raycaster, renderable), None);
    system.drag_end(PointerActivationSource::Trigger, raycaster, renderable);
    assert_eq!(
        system.drag_move_target(&mut world, PointerActivationSource::Trigger, raycaster, renderable).map(|r| r.target),
        Some(replacement)
    );
    assert_eq!(resolve_draggable_for_hit(&mut world, renderable).map(|r| r.target), Some(replacement));
}
