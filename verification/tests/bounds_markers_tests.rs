use mittens::bounds_markers::{
    is_within_editor_scope, BoundsMarker, BoundsVisualizationSystem, GltfBoundsVisualizationSystem, MeshOutput,
    MeshOutputKind,
};
use mittens::components::{Component, EditorComponent, GltfComponent, TransformComponent};
use mittens::world::World;

fn transform() -> Component {
    Component::Transform(TransformComponent::new())
}

#[test]
fn editor_scope_includes_the_owner_and_its_ancestors() {
    let mut world = World::new();
    let editor = world.add_component(Component::Editor(EditorComponent::new()));
    let inside = world.add_component(transform());
    let outside = world.add_component(transform());
    world.add_child(editor, inside).unwrap();
    assert!(is_within_editor_scope(&world, inside));
    assert!(is_within_editor_scope(&world, editor));
    assert!(!is_within_editor_scope(&world, outside));
}

#[test]
fn mesh_output_markers_follow_qualifying_outputs() {
    let mut world = World::new();
    let editor = world.add_component(Component::Editor(EditorComponent::new()));
    let combined = world.add_component(transform());
    let implicit = world.add_component(transform());
    let stray = world.add_component(transform());
    world.add_child(editor, combined).unwrap();
    world.add_child(editor, implicit).unwrap();
    let outputs = vec![
        MeshOutput { owner: combined, kind: MeshOutputKind::CombineMesh },
        MeshOutput { owner: implicit, kind: MeshOutputKind::ImplicitSurface },
        MeshOutput { owner: stray, kind: MeshOutputKind::CombineMesh },
        MeshOutput { owner: combined, kind: MeshOutputKind::CombineMesh },
    ];
    let mut system = BoundsVisualizationSystem::new();
    let plan = system.sync_mesh_output_markers(&world, &outputs, true);
    assert!(plan.remove_roots.is_empty());
    assert_eq!(plan.spawn_for, vec![combined]);

    let root = world.add_component(transform());
    system.register_mesh_output_marker(combined, root);
    assert_eq!(system.mesh_output_markers, vec![BoundsMarker { target: combined, root }]);

    // A second pass is a no-op.
    let again = system.sync_mesh_output_markers(&world, &outputs, true);
    assert!(again.remove_roots.is_empty());
    assert!(again.spawn_for.is_empty());

    // Hiding removes every marker.
    let hidden = system.sync_mesh_output_markers(&world, &outputs, false);
    assert_eq!(hidden.remove_roots, vec![root]);
    assert!(hidden.spawn_for.is_empty());
    assert!(system.mesh_output_markers.is_empty());
}

#[test]
fn removed_owner_makes_its_marker_stale() {
    let mut world = World::new();
    let editor = world.add_component(Component::Editor(EditorComponent::new()));
    let owner = world.add_component(transform());
    world.add_child(editor, owner).unwrap();
    let root = world.add_component(transform());
    let outputs = vec![MeshOutput { owner, kind: MeshOutputKind::CombineMesh }];
    let mut system = GltfBoundsVisualizationSystem::new();
    system.register_mesh_output_marker(owner, root);
    world.remove_component_subtree(owner).unwrap();
    let plan = system.sync_mesh_output_markers(&world, &outputs, true);
    assert_eq!(plan.remove_roots, vec![root]);
    assert!(plan.spawn_for.is_empty());
    assert!(system.mesh_output_markers.is_empty());
}

#[test]
fn gltf_markers_are_appended_drained_and_cleaned() {
    let mut world = World::new();
    let gltf = world.add_component(Component::Gltf(GltfComponent::new()));
    let mesh_a = world.add_component(transform());
    let mesh_b = world.add_component(transform());
    let root_a = world.add_component(transform());
    let root_b = world.add_component(transform());
    let mut system = GltfBoundsVisualizationSystem::new();
    assert!(system.existing_targets(gltf).is_empty());
    system.add_markers(gltf, vec![BoundsMarker { target: mesh_a, root: root_a }]);
    system.add_markers(gltf, vec![BoundsMarker { target: mesh_b, root: root_b }]);
    assert_eq!(system.existing_targets(gltf), vec![mesh_a, mesh_b]);

    world.remove_component_subtree(mesh_b).unwrap();
    system.cleanup(&world);
    assert_eq!(system.existing_targets(gltf), vec![mesh_a]);

    assert_eq!(system.remove_markers(gltf), vec![root_a]);
    assert!(system.existing_targets(gltf).is_empty());
    assert!(system.remove_markers(gltf).is_empty());

    world.remove_component_subtree(gltf).unwrap();
    system.add_markers(gltf, vec![BoundsMarker { target: mesh_a, root: root_a }]);
    system.cleanup(&world);
    assert!(system.markers.is_empty());
}
