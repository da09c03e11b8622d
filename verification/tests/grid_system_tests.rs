use mittens::components::{Component, EditorComponent, GridComponent, TransformComponent};
use mittens::grid::GridSystem;
use mittens::grid_system::GridRuntimeStep;
use mittens::ids::ComponentId;
use mittens::world::World;

fn grid(spacing: f32) -> GridComponent {
    GridComponent::new(spacing.to_bits())
}

fn add_grid(world: &mut World, editor: ComponentId, grid: GridComponent) -> ComponentId {
    let owner = world.add_component(Component::Transform(TransformComponent::new()));
    let grid = world.add_component(Component::Grid(grid));
    world.add_child(editor, owner).unwrap();
    world.add_child(owner, grid).unwrap();
    owner
}

#[test]
fn enumerate_grids_for_editor_returns_owner_transforms() {
    let mut world = World::new();
    let grids = GridSystem::new();
    let editor = world.add_component(Component::Editor(EditorComponent::new()));
    let a_transform = world.add_component(Component::Transform(TransformComponent::new()));
    let a_grid = world.add_component(Component::Grid(grid(0.25)));
    let b_transform = world.add_component(Component::Transform(TransformComponent::new()));
    let b_grid = world.add_component(Component::Grid(grid(0.5).with_enabled(false)));
    let _ = world.add_child(editor, a_transform);
    let _ = world.add_child(a_transform, a_grid);
    let _ = world.add_child(editor, b_transform);
    let _ = world.add_child(b_transform, b_grid);

    let entries = grids.enumerate_grids_for_editor(&world, editor);
    assert_eq!(entries.len(), 2);
    assert!(entries.iter().any(|entry| {
        entry.grid_component == a_grid
            && entry.owner_transform == a_transform
            && entry.editor_root == editor
            && entry.enabled
            && !entry.hidden
            && entry.selectable
    }));
    assert!(entries.iter().any(|entry| {
        entry.grid_component == b_grid
            && entry.owner_transform == b_transform
            && entry.editor_root == editor
            && !entry.enabled
    }));
}

#[test]
fn grid_entry_reads_live_enabled_state_after_component_edit() {
    let mut world = World::new();
    let grids = GridSystem::new();
    let editor = world.add_component(Component::Editor(EditorComponent::new()));
    let transform = world.add_component(Component::Transform(TransformComponent::new()));
    let grid_id = world.add_component(Component::Grid(grid(1.0)));
    let _ = world.add_child(editor, transform);
    let _ = world.add_child(transform, grid_id);

    assert!(grids.grid_entry(&world, grid_id).expect("grid entry before toggle").enabled);

    let current = match world.component(grid_id) {
        Some(Component::Grid(g)) => *g,
        _ => panic!("grid component"),
    };
    assert!(world.set_component(grid_id, Component::Grid(current.with_enabled(false))));

    assert!(!grids.grid_entry(&world, grid_id).expect("grid entry after toggle").enabled);
}

#[test]
fn deleting_grid_removes_resolving_bindings() {
    let mut world = World::new();
    let mut grids = GridSystem::new();
    let editor = world.add_component(Component::Editor(EditorComponent::new()));
    let grid_owner = add_grid(&mut world, editor, grid(1.0));
    let target = world.add_component(Component::Transform(TransformComponent::new()));
    world.add_child(editor, target).unwrap();
    GridSystem::bind_transform_to_grid(&mut world, target, grid_owner);
    let mut steps = Vec::new();

    assert!(grids.delete_grid(&mut world, &mut steps, grid_owner));
    assert!(GridSystem::direct_binding_component(&world, target).is_none());
    assert_eq!(steps, vec![GridRuntimeStep::RemoveSubtree { owner: grid_owner }]);
}

#[test]
fn binding_is_authoritative_and_rebinding_never_duplicates() {
    let mut world = World::new();
    let editor = world.add_component(Component::Editor(EditorComponent::new()));
    let grid_a = add_grid(&mut world, editor, grid(0.25));
    let grid_b = add_grid(&mut world, editor, grid(2.0));
    let target = world.add_component(Component::Transform(TransformComponent::new()));
    world.add_child(editor, target).unwrap();

    assert!(GridSystem::bind_transform_to_grid(&mut world, target, grid_a));
    assert!(GridSystem::bind_transform_to_grid(&mut world, target, grid_b));
    assert!(GridSystem::bind_transform_to_grid(&mut world, target, grid_b));
    assert_eq!(GridSystem::bound_grid_transform(&world, target), Some(grid_b));
    let bindings = world
        .children_of(target)
        .iter()
        .filter(|&&child| matches!(world.component(child), Some(Component::GridBinding(_))))
        .count();
    assert_eq!(bindings, 1);
}

#[test]
fn binding_is_refused_without_a_grid_or_a_transform_target() {
    let mut world = World::new();
    let editor = world.add_component(Component::Editor(EditorComponent::new()));
    let grid_owner = add_grid(&mut world, editor, grid(1.0));
    let plain = world.add_component(Component::Transform(TransformComponent::new()));
    assert!(!GridSystem::bind_transform_to_grid(&mut world, editor, grid_owner));
    assert!(!GridSystem::bind_transform_to_grid(&mut world, grid_owner, plain));
    assert!(!GridSystem::unbind_transform(&mut world, grid_owner));
}

#[test]
fn unbind_removes_the_binding() {
    let mut world = World::new();
    let editor = world.add_component(Component::Editor(EditorComponent::new()));
    let grid_owner = add_grid(&mut world, editor, grid(1.0));
    let target = world.add_component(Component::Transform(TransformComponent::new()));
    assert!(GridSystem::bind_transform_to_grid(&mut world, target, grid_owner));
    assert!(GridSystem::direct_binding_component(&world, target).is_some());
    assert!(GridSystem::unbind_transform(&mut world, target));
    assert!(GridSystem::direct_binding_component(&world, target).is_none());
    assert_eq!(GridSystem::bound_grid_transform(&world, target), None);
}

#[test]
fn selected_grid_follows_the_editor_selection() {
    let mut world = World::new();
    let grids = GridSystem::new();
    let editor = world.add_component(Component::Editor(EditorComponent::new()));
    let owner = add_grid(&mut world, editor, grid(1.0).with_hidden(true));
    assert!(grids.selected_grid_for_editor(&world, editor).is_none());
    let mut e = EditorComponent::new();
    e.selected = Some(owner);
    assert!(world.set_component(editor, Component::Editor(e)));
    let selected = grids.selected_grid_for_editor(&world, editor).unwrap();
    assert_eq!(selected.owner_transform, owner);
    assert!(selected.hidden);
}

#[test]
fn hidden_and_enabled_edits_report_runtime_work() {
    let mut world = World::new();
    let mut grids = GridSystem::new();
    let editor = world.add_component(Component::Editor(EditorComponent::new()));
    let owner = add_grid(&mut world, editor, grid(1.0));
    let mut steps = Vec::new();
    assert!(!grids.set_grid_hidden(&mut world, &mut steps, owner, false));
    assert!(grids.set_grid_hidden(&mut world, &mut steps, owner, true));
    assert_eq!(
        steps,
        vec![
            GridRuntimeStep::EnsureLive { owner, preview: false },
            GridRuntimeStep::SyncVisibility { owner, preview: false },
        ]
    );
    assert!(grids.dirty);
    steps.clear();
    assert!(grids.toggle_grid_enabled(&mut world, &mut steps, owner));
    assert_eq!(steps, vec![GridRuntimeStep::RemoveLive { owner }]);
    assert!(!grids.grid_owned_by_transform(&world, owner).unwrap().enabled);
    assert!(grids.toggle_grid_hidden(&mut world, &mut steps, owner));
    assert!(!grids.grid_owned_by_transform(&world, owner).unwrap().hidden);
}

#[test]
fn default_grid_is_spawned_once() {
    let mut world = World::new();
    let mut grids = GridSystem::new();
    let editor = world.add_component(Component::Editor(EditorComponent::new()));
    let mut steps = Vec::new();
    let owner = grids.ensure_default_grid(&mut world, &mut steps, editor);
    assert_eq!(world.component_label(owner), Some("grid_1".to_string()));
    let entry = grids.grid_owned_by_transform(&world, owner).unwrap();
    assert!(entry.enabled && entry.hidden);
    assert_eq!(entry.editor_root, editor);
    assert_eq!(steps.len(), 2);
    let again = grids.ensure_default_grid(&mut world, &mut steps, editor);
    assert_eq!(again, owner);
    assert_eq!(steps.len(), 2);
}

fn raycast_enabled(world: &World, id: ComponentId) -> bool {
    match world.component(id) {
        Some(Component::Raycastable(r)) => r.enable,
        _ => panic!("raycastable"),
    }
}

#[test]
fn paint_mode_raycast_sync_tracks_all_visible_live_grids_and_is_idempotent() {
    let mut world = World::new();
    let mut grids = GridSystem::new();
    let editor = world.add_component(Component::Editor(EditorComponent::new()));
    let first = add_grid(&mut world, editor, grid(1.0));
    let second = add_grid(&mut world, editor, grid(1.0).with_selectable(false));
    let hidden = add_grid(&mut world, editor, grid(1.0).with_hidden(true));
    let mut steps = Vec::new();
    for owner in [first, second, hidden] {
        grids.ensure_live_runtime(&mut world, &mut steps, owner, false, 4.0f32.to_bits(), 4.0f32.to_bits());
    }
    steps.clear();

    grids.sync_paint_raycast_targets(&mut world, &mut steps, true);
    let rc = |world: &World, owner| world.find_component(owner, "#grid_live_raycastable").expect("live grid raycastable");
    let (a, b, h) = (rc(&world, first), rc(&world, second), rc(&world, hidden));
    assert!(raycast_enabled(&world, a));
    assert!(raycast_enabled(&world, b));
    assert!(!raycast_enabled(&world, h));
    let registered = steps.iter().filter(|s| matches!(s, GridRuntimeStep::RegisterRaycastable { .. })).count();
    assert_eq!(registered, 2);

    steps.clear();
    grids.sync_paint_raycast_targets(&mut world, &mut steps, true);
    assert!(steps.is_empty());

    grids.sync_paint_raycast_targets(&mut world, &mut steps, false);
    assert!(!raycast_enabled(&world, a));
    assert!(!raycast_enabled(&world, b));
    let removed = steps.iter().filter(|s| matches!(s, GridRuntimeStep::RemoveRaycastable { .. })).count();
    assert_eq!(removed, 2);
}

#[test]
fn live_runtime_is_built_once_and_synced_after() {
    let mut world = World::new();
    let mut grids = GridSystem::new();
    let editor = world.add_component(Component::Editor(EditorComponent::new()));
    let owner = add_grid(&mut world, editor, grid(0.5).with_hidden(true));
    let mut steps = Vec::new();
    grids.ensure_live_runtime(&mut world, &mut steps, owner, false, 16.0f32.to_bits(), 16.0f32.to_bits());
    let root = grids.live_runtime_root(&world, owner).expect("live root");
    assert_eq!(steps[0], GridRuntimeStep::InitTree { root });
    assert_eq!(steps.len(), 4);
    let opacity = world.find_component(owner, "#grid_live_opacity").unwrap();
    assert!(matches!(world.component(opacity), Some(Component::Opacity(o)) if o.opacity_bits == 0));
    let params = world.find_component(owner, "#grid_live_visual_params").unwrap();
    assert!(matches!(world.component(params), Some(Component::LightQuantization(q)) if f32::from_bits(q.quant_steps_bits) == 0.5));

    let slots = world.slot_count();
    steps.clear();
    assert!(grids.set_grid_hidden(&mut world, &mut steps, owner, false));
    for step in steps.clone() {
        if let GridRuntimeStep::EnsureLive { owner, preview } = step {
            grids.ensure_live_runtime(&mut world, &mut steps, owner, preview, 16.0f32.to_bits(), 16.0f32.to_bits());
        }
    }
    assert_eq!(world.slot_count(), slots);
    assert!(steps.iter().any(|s| matches!(s, GridRuntimeStep::RegisterOpacity { .. })));
    assert!(matches!(world.component(opacity), Some(Component::Opacity(o)) if f32::from_bits(o.opacity_bits) == 1.0));

    grids.remove_live_runtime(&mut world, owner);
    assert!(grids.live_runtime_root(&world, owner).is_none());
    assert!(!world.contains(opacity));
}

#[test]
fn world_space_grids_negate_the_visual_parameter() {
    let g = grid(2.0);
    assert_eq!(f32::from_bits(mittens::grid_system::grid_visual_parameter(g)), 2.0);
    let mut w = g;
    w.visual_space = mittens::components::GridVisualSpace::World;
    assert_eq!(f32::from_bits(mittens::grid_system::grid_visual_parameter(w)), -2.0);
    assert_eq!(f32::from_bits(mittens::grid_system::grid_visual_parameter(grid(0.0))), 1e-4);
    assert_eq!(f32::from_bits(mittens::grid_system::grid_visual_parameter(grid(f32::NAN))), 1e-4);
    assert_eq!(f32::from_bits(mittens::grid_system::grid_visual_parameter(grid(-3.0))), 1e-4);
    assert_eq!(f32::from_bits(mittens::grid_system::grid_opacity(true, true)), 0.45);
}

use mittens::grid_system::GridSpawnSpec;

#[test]
fn spawned_grids_are_numbered_and_posed_as_specified() {
    let mut world = World::new();
    let mut grids = GridSystem::new();
    let mut steps = Vec::new();
    let editor = world.add_component(Component::Editor(EditorComponent::new()));
    let spec = GridSpawnSpec {
        translation_bits: [2.0f32.to_bits(), 0, 0],
        rotation_bits: [0, 0, 0, 1.0f32.to_bits()],
        world_space_pose: false,
        spacing_bits: 0.5f32.to_bits(),
        size_x: 4,
        size_z: 6,
        enabled: true,
        hidden: false,
        preview_mode: false,
    };
    let first = grids.spawn_grid_for_editor(&mut world, &mut steps, editor, spec, Some(([9, 9, 9], [9, 9, 9, 9])));
    assert_eq!(world.component_label(first), Some("grid_1".to_string()));
    match world.component(first) {
        Some(Component::Transform(t)) => {
            assert_eq!(t.translation_bits, spec.translation_bits);
            assert_eq!(t.rotation_bits, spec.rotation_bits);
        }
        other => panic!("owner is not a transform: {other:?}"),
    }
    let grid_component = world.children_of(first)[0];
    assert_eq!(world.component_label(grid_component), Some("grid_1_component".to_string()));
    match world.component(grid_component) {
        Some(Component::Grid(g)) => {
            assert_eq!(g.spacing_bits, 0.5f32.to_bits());
            assert_eq!((g.size_x, g.size_z), (4, 6));
            assert!(g.enabled && !g.hidden && g.selectable);
        }
        other => panic!("not a grid: {other:?}"),
    }
    assert_eq!(steps, vec![GridRuntimeStep::InitTree { root: first }, GridRuntimeStep::EnsureLive { owner: first, preview: false }]);

    let mut steps = Vec::new();
    let world_posed = GridSpawnSpec { world_space_pose: true, enabled: false, ..spec };
    let local = ([1, 2, 3], [0, 0, 0, 1.0f32.to_bits()]);
    let second = grids.spawn_grid_for_editor(&mut world, &mut steps, editor, world_posed, Some(local));
    assert_eq!(world.component_label(second), Some("grid_2".to_string()));
    match world.component(second) {
        Some(Component::Transform(t)) => assert_eq!(t.translation_bits, [1, 2, 3]),
        other => panic!("owner is not a transform: {other:?}"),
    }
    assert_eq!(steps, vec![GridRuntimeStep::InitTree { root: second }]);
    assert_eq!(world.parent_of(second), Some(editor));
}

#[test]
fn cursor_spawn_specs_preview_hidden_in_world_space() {
    let preview = GridSpawnSpec::from_cursor_pose(Some([1, 2, 3]), None, true);
    assert!(preview.world_space_pose && preview.hidden && preview.preview_mode && preview.enabled);
    assert_eq!(preview.translation_bits, [1, 2, 3]);
    assert_eq!(preview.rotation_bits, [0, 0, 0, 1.0f32.to_bits()]);
    assert_eq!((preview.size_x, preview.size_z), (GridComponent::DEFAULT_SIZE_X, GridComponent::DEFAULT_SIZE_Z));
    let placed = GridSpawnSpec::from_cursor_pose(None, None, false);
    assert!(!placed.hidden && !placed.preview_mode);
    assert_eq!(placed.translation_bits, [0, 0, 0]);
    let default = GridSpawnSpec::default_hidden_editor_grid();
    assert!(default.hidden && default.enabled && !default.world_space_pose);
    assert_eq!(default.size_x, 8192);
}

#[test]
fn active_entries_require_an_enabled_grid_and_bindings_are_authoritative() {
    let mut world = World::new();
    let grids = GridSystem::new();
    let editor = world.add_component(Component::Editor(EditorComponent::new()));
    let on = add_grid(&mut world, editor, grid(1.0));
    let off = add_grid(&mut world, editor, grid(1.0).with_enabled(false));
    assert_eq!(grids.active_entry_for_owner_transform(&world, on).map(|e| e.owner_transform), Some(on));
    assert_eq!(grids.active_entry_for_owner_transform(&world, off), None);

    let target = world.add_component(Component::Transform(TransformComponent::new()));
    world.add_child(editor, target).unwrap();
    assert_eq!(grids.active_entry_for_binding(&world, target), None);
    assert!(GridSystem::bind_transform_to_grid(&mut world, target, off));
    assert_eq!(grids.active_entry_for_binding(&world, target), Some(None));
    assert!(GridSystem::bind_transform_to_grid(&mut world, target, on));
    assert_eq!(grids.active_entry_for_binding(&world, target).flatten().map(|e| e.owner_transform), Some(on));
}
