use mittens::combine_plan::{
    combine_roots, fingerprint, CombineAction, CombineMeshSystem, CombinedOutput, RootFacts, SourceFacts,
};
use mittens::components::{CombineMeshComponent, Component, TransformComponent};
use mittens::ids::ComponentId;
use mittens::world::World;

fn child(world: &mut World, parent: ComponentId, component: Component) -> ComponentId {
    let id = world.add_component(component);
    world.add_child(parent, id).unwrap();
    id
}

fn transform() -> Component {
    Component::Transform(TransformComponent::new())
}

fn facts(root: ComponentId, fingerprint: u64) -> RootFacts {
    RootFacts { root, has_model: true, invertible: true, model_changed: false, fingerprint }
}

/// A combined mesh with two renderables, and an empty one.
fn scene() -> (World, ComponentId, ComponentId, ComponentId, ComponentId) {
    let mut world = World::new();
    let scene = world.add_component(transform());
    let full = child(&mut world, scene, Component::CombineMesh(CombineMeshComponent { keep_transforms: false }));
    let a = child(&mut world, full, Component::Renderable);
    let b = child(&mut world, full, Component::Renderable);
    let empty = child(&mut world, scene, Component::CombineMesh(CombineMeshComponent { keep_transforms: true }));
    (world, full, a, b, empty)
}

#[test]
fn roots_are_listed_in_slot_order() {
    let (world, full, _, _, empty) = scene();
    assert_eq!(combine_roots(&world), vec![full, empty]);
}

#[test]
fn a_new_root_is_baked_after_its_sources_are_suppressed() {
    let (world, full, a, b, empty) = scene();
    let mut system = CombineMeshSystem::new();
    let acts = system.reconcile_and_build(&world, &vec![facts(full, 7), facts(empty, 9)]);
    assert_eq!(
        acts,
        vec![
            CombineAction::Suppress(a),
            CombineAction::Suppress(b),
            CombineAction::Bake { root: full, fingerprint: 7, keep_transforms: false },
        ]
    );
    let (replaced, collapse) = system.record_bake(&world, full, 7, false);
    assert!(!replaced);
    assert_eq!(collapse, vec![a, b]);
    assert_eq!(system.outputs, vec![CombinedOutput { root: full, fingerprint: 7, collapsed: true }]);
}

#[test]
fn an_unchanged_fingerprint_only_follows_the_model() {
    let (world, full, a, b, _) = scene();
    let mut system = CombineMeshSystem::new();
    system.record_bake(&world, full, 7, false);
    let mut moved = facts(full, 7);
    moved.model_changed = true;
    let acts = system.reconcile_and_build(&world, &vec![moved]);
    assert_eq!(acts, vec![CombineAction::Suppress(a), CombineAction::Suppress(b), CombineAction::UpdateModel(full)]);
    let acts = system.reconcile_and_build(&world, &vec![facts(full, 8)]);
    assert_eq!(
        acts,
        vec![
            CombineAction::Suppress(a),
            CombineAction::Suppress(b),
            CombineAction::Bake { root: full, fingerprint: 8, keep_transforms: false },
        ]
    );
    let (replaced, _) = system.record_bake(&world, full, 8, false);
    assert!(replaced);
    assert_eq!(system.outputs.len(), 1);
}

#[test]
fn outputs_of_vanished_roots_and_emptied_uncollapsed_roots_are_removed() {
    let (world, full, _, _, empty) = scene();
    let mut system = CombineMeshSystem::new();
    system.record_bake(&world, full, 7, false);
    system.record_bake(&world, empty, 3, true);
    let acts = system.reconcile_and_build(&world, &vec![facts(empty, 3)]);
    assert_eq!(acts, vec![CombineAction::RemoveOutput(full), CombineAction::RemoveOutput(empty)]);
    assert!(system.outputs.is_empty());
}

#[test]
fn a_root_without_an_invertible_model_is_left_alone() {
    let (world, full, a, b, _) = scene();
    let mut system = CombineMeshSystem::new();
    let mut f = facts(full, 7);
    f.invertible = false;
    let acts = system.reconcile_and_build(&world, &vec![f]);
    assert_eq!(acts, vec![CombineAction::Suppress(a), CombineAction::Suppress(b)]);
}

#[test]
fn fingerprints_track_sources_and_models_only_when_asked() {
    let root = ComponentId { index: 1 };
    let sources = vec![ComponentId { index: 2 }];
    let f = |bits: u32| vec![SourceFacts { mesh_material: Some((4, 5)), model_bits: Some(vec![bits; 16]) }];
    let base = fingerprint(root, &sources, &f(0), true);
    assert_eq!(base, fingerprint(root, &sources, &f(0), true));
    assert_ne!(base, fingerprint(root, &sources, &f(1), true));
    assert_eq!(fingerprint(root, &sources, &f(0), false), fingerprint(root, &sources, &f(1), false));
    assert_ne!(base, fingerprint(ComponentId { index: 3 }, &sources, &f(0), true));
}
