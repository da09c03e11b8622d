use mittens::components::{Component, ComponentRef, GltfComponent, JointRetargetBasisComponent, TransformComponent};
use mittens::ids::ComponentId;
use mittens::joint_basis::{
    JointBasisRetargetingSystem, LandmarkDirection, RetargetBasisDefinition, RetargetBasisStatus,
};
use mittens::world::World;

struct Fixture {
    world: World,
    gltf: ComponentId,
    target: ComponentId,
    forward_start: ComponentId,
    forward_end: ComponentId,
    up_start: ComponentId,
    up_end: ComponentId,
}

fn joint(world: &mut World, gltf: ComponentId, name: &str) -> ComponentId {
    let id = world.add_component_named(name, Component::Transform(TransformComponent::new()));
    world.add_child(gltf, id).unwrap();
    id
}

fn fixture() -> Fixture {
    let mut world = World::new();
    let gltf = world.add_component(Component::Gltf(GltfComponent::new()));
    let target = joint(&mut world, gltf, "hand");
    let forward_start = joint(&mut world, gltf, "middle1");
    let forward_end = joint(&mut world, gltf, "middle3");
    let up_start = joint(&mut world, gltf, "little1");
    let up_end = joint(&mut world, gltf, "index1");
    assert!(world.set_component(
        gltf,
        Component::Gltf(GltfComponent {
            armature_joint_transforms: vec![target, forward_start, forward_end, up_start, up_end],
            ..GltfComponent::new()
        })
    ));
    Fixture { world, gltf, target, forward_start, forward_end, up_start, up_end }
}

fn definition(f: &Fixture) -> RetargetBasisDefinition {
    RetargetBasisDefinition {
        target: f.target,
        forward: LandmarkDirection { start: f.forward_start, end: f.forward_end },
        up: LandmarkDirection { start: f.up_start, end: f.up_end },
    }
}

fn query(s: &str) -> ComponentRef {
    ComponentRef::Query(s.to_string())
}

fn declaration(target: &str) -> Component {
    Component::JointRetargetBasis(JointRetargetBasisComponent {
        target: query(target),
        forward_start: query("#middle1"),
        forward_end: query("#middle3"),
        up_start: query("#little1"),
        up_end: query("#index1"),
    })
}

#[test]
fn authored_declaration_waits_for_import_then_requests_its_basis() {
    let mut f = fixture();
    let joints = vec![f.target, f.forward_start, f.forward_end, f.up_start, f.up_end];
    assert!(f.world.set_component(f.gltf, Component::Gltf(GltfComponent::new())));
    let decl = f.world.add_component_named("left hand basis", declaration("#hand"));
    f.world.add_child(f.gltf, decl).unwrap();
    let mut system = JointBasisRetargetingSystem::new();
    assert!(system.register_component(&f.world, decl).is_empty());
    assert_eq!(system.status_for_source(decl), Some(RetargetBasisStatus::WaitingForGltf));

    assert!(f.world.set_component(f.gltf, Component::Gltf(GltfComponent { armature_joint_transforms: joints, ..GltfComponent::new() })));
    let requests = system.gltf_initialized(&f.world, f.gltf);
    assert_eq!(requests.len(), 1);
    assert_eq!(requests[0].target, f.target);
    assert_eq!(requests[0].definition, definition(&f));
    assert_eq!(requests[0].generation, 1);
    assert_eq!(requests[0].provenance.source, decl);
    assert_eq!(requests[0].provenance.owning_gltf, f.gltf);
    assert_eq!(requests[0].provenance.source_label, "left hand basis");
    assert!(system.basis_for(f.target).is_none());

    assert!(system.complete_basis(&requests[0], Ok(())));
    assert_eq!(system.status_for_source(decl), Some(RetargetBasisStatus::Ready));
    assert_eq!(system.status_for(f.target), Some(RetargetBasisStatus::Ready));
    let basis = system.basis_for(f.target).unwrap();
    assert_eq!(basis.generation, 1);
    assert_eq!(basis.provenance.source, decl);
}

#[test]
fn duplicate_targets_conflict_and_removal_requests_a_newer_generation() {
    let f = fixture();
    let mut world = f.world;
    let a = world.add_component(Component::Transform(TransformComponent::new()));
    let b = world.add_component(Component::Transform(TransformComponent::new()));
    let f = Fixture { world, ..f };
    let mut system = JointBasisRetargetingSystem::new();
    let first = system.replace_definition(&f.world, a, definition(&f));
    assert_eq!(first.len(), 1);
    assert!(system.complete_basis(&first[0], Ok(())));
    let first_generation = system.basis_for(f.target).unwrap().generation;

    assert!(system.replace_definition(&f.world, b, definition(&f)).is_empty());
    assert!(system.basis_for(f.target).is_none());
    assert_eq!(
        system.status_for(f.target),
        Some(RetargetBasisStatus::ConflictingDefinition { sources: vec![a, b] })
    );
    assert_eq!(
        system.status_for_source(b),
        Some(RetargetBasisStatus::ConflictingDefinition { sources: vec![a, b] })
    );

    let again = system.remove_definition(b);
    assert_eq!(again.len(), 1);
    assert_eq!(again[0].provenance.source, a);
    assert!(again[0].generation > first_generation);
    assert!(system.complete_basis(&again[0], Ok(())));
    assert!(system.basis_for(f.target).unwrap().generation > first_generation);
    assert_eq!(system.status_for_source(a), Some(RetargetBasisStatus::Ready));
    assert_eq!(system.status_for_source(b), None);
}

#[test]
fn failed_computation_leaves_the_target_unpublished() {
    let f = fixture();
    let mut world = f.world;
    let source = world.add_component(Component::Transform(TransformComponent::new()));
    let f = Fixture { world, ..f };
    let mut system = JointBasisRetargetingSystem::new();
    let requests = system.replace_definition(&f.world, source, definition(&f));
    assert!(system.complete_basis(&requests[0], Ok(())));
    let invalid = RetargetBasisDefinition {
        up: LandmarkDirection { start: f.forward_start, end: f.forward_end },
        ..definition(&f)
    };
    let requests = system.replace_definition(&f.world, source, invalid);
    assert!(system.basis_for(f.target).is_none());
    assert_eq!(requests.len(), 1);
    let message = "up landmark direction is collinear with forward".to_string();
    assert!(system.complete_basis(&requests[0], Err(message.clone())));
    assert!(system.basis_for(f.target).is_none());
    assert_eq!(system.status_for_source(source), Some(RetargetBasisStatus::Invalid(message)));
}

#[test]
fn a_superseded_request_is_not_applied() {
    let f = fixture();
    let mut world = f.world;
    let source = world.add_component(Component::Transform(TransformComponent::new()));
    let f = Fixture { world, ..f };
    let mut system = JointBasisRetargetingSystem::new();
    let old = system.replace_definition(&f.world, source, definition(&f));
    let newer = system.replace_definition(&f.world, source, definition(&f));
    assert_eq!(newer[0].generation, old[0].generation + 1);
    assert!(!system.complete_basis(&old[0], Ok(())));
    assert!(system.basis_for(f.target).is_none());
    assert!(system.complete_basis(&newer[0], Ok(())));
    assert_eq!(system.basis_for(f.target).unwrap().generation, newer[0].generation);
}

#[test]
fn declaration_outside_any_gltf_is_invalid() {
    let mut f = fixture();
    let decl = f.world.add_component(declaration("#hand"));
    let mut system = JointBasisRetargetingSystem::new();
    assert!(system.register_component(&f.world, decl).is_empty());
    assert_eq!(
        system.status_for_source(decl),
        Some(RetargetBasisStatus::Invalid("JointRetargetBasis must be a descendant of exactly one GLTF".to_string()))
    );
    let other = f.world.add_component(Component::Transform(TransformComponent::new()));
    assert!(system.register_component(&f.world, other).is_empty());
    assert_eq!(system.status_for_source(other), None);
}

#[test]
fn unresolvable_reference_is_reported_with_its_match_count() {
    let mut f = fixture();
    let decl = f.world.add_component(declaration("#missing"));
    f.world.add_child(f.gltf, decl).unwrap();
    let mut system = JointBasisRetargetingSystem::new();
    assert!(system.register_component(&f.world, decl).is_empty());
    assert_eq!(
        system.status_for_source(decl),
        Some(RetargetBasisStatus::Invalid(
            "reference #missing matched 0 joints in the owning GLTF armature (expected exactly one)".to_string()
        ))
    );

    let guid = f.world.guid(f.target).unwrap();
    let by_guid = f.world.add_component(Component::JointRetargetBasis(JointRetargetBasisComponent {
        target: ComponentRef::Guid(guid),
        forward_start: query("#middle1"),
        forward_end: query("#middle3"),
        up_start: query("#little1"),
        up_end: query("#index1"),
    }));
    f.world.add_child(f.gltf, by_guid).unwrap();
    let requests = system.register_component(&f.world, by_guid);
    assert_eq!(requests.len(), 1);
    assert_eq!(requests[0].definition, definition(&f));

    let ghost_guid = f.world.add_component(Component::JointRetargetBasis(JointRetargetBasisComponent {
        target: ComponentRef::Guid(987654321),
        forward_start: query("#middle1"),
        forward_end: query("#middle3"),
        up_start: query("#little1"),
        up_end: query("#index1"),
    }));
    f.world.add_child(f.gltf, ghost_guid).unwrap();
    assert!(system.register_component(&f.world, ghost_guid).is_empty());
    assert_eq!(
        system.status_for_source(ghost_guid),
        Some(RetargetBasisStatus::Invalid(
            "reference @uuid:987654321 matched 0 joints in the owning GLTF armature (expected exactly one)".to_string()
        ))
    );
}

#[test]
fn definition_without_a_common_armature_is_invalid() {
    let f = fixture();
    let mut world = f.world;
    let source = world.add_component(Component::Transform(TransformComponent::new()));
    let stray = world.add_component(Component::Transform(TransformComponent::new()));
    let f = Fixture { world, ..f };
    let mut system = JointBasisRetargetingSystem::new();
    let stray_definition = RetargetBasisDefinition { target: stray, ..definition(&f) };
    assert!(system.replace_definition(&f.world, source, stray_definition).is_empty());
    assert_eq!(
        system.status_for_source(source),
        Some(RetargetBasisStatus::Invalid("definition members do not share an owning GLTF armature".to_string()))
    );
    assert_eq!(system.status_for(stray), None);
}

#[test]
fn removing_the_gltf_forgets_its_declarations_and_snapshots_are_sorted() {
    let mut f = fixture();
    let a = f.world.add_component(declaration("#hand"));
    let b = f.world.add_component(declaration("#middle1"));
    f.world.add_child(f.gltf, a).unwrap();
    f.world.add_child(f.gltf, b).unwrap();
    let mut system = JointBasisRetargetingSystem::new();
    assert_eq!(system.register_component(&f.world, b).len(), 1);
    assert_eq!(system.register_component(&f.world, a).len(), 1);
    let snapshots = system.diagnostic_snapshots();
    assert_eq!(snapshots.len(), 2);
    assert_eq!(snapshots[0].source, a);
    assert_eq!(snapshots[0].target, Some(f.target));
    assert_eq!(snapshots[0].owning_gltf, Some(f.gltf));
    assert_eq!(snapshots[1].source, b);
    assert_eq!(snapshots[1].target, Some(f.forward_start));

    assert!(system.component_removed(f.gltf).is_empty());
    assert!(system.diagnostic_snapshots().is_empty());
}

#[test]
fn invalidating_a_gltf_generation_returns_declarations_to_waiting() {
    let mut f = fixture();
    let decl = f.world.add_component(declaration("#hand"));
    f.world.add_child(f.gltf, decl).unwrap();
    let mut system = JointBasisRetargetingSystem::new();
    let requests = system.register_component(&f.world, decl);
    assert!(system.complete_basis(&requests[0], Ok(())));
    assert!(system.basis_for(f.target).is_some());
    system.invalidate_gltf_generation(&f.world, f.gltf);
    assert!(system.basis_for(f.target).is_none());
    assert_eq!(system.status_for_source(decl), Some(RetargetBasisStatus::WaitingForGltf));
    assert!(!system.complete_basis(&requests[0], Ok(())));
}

#[test]
fn removing_a_joint_drops_the_declarations_that_name_it() {
    let mut f = fixture();
    let decl = f.world.add_component(declaration("#hand"));
    f.world.add_child(f.gltf, decl).unwrap();
    let mut system = JointBasisRetargetingSystem::new();
    let requests = system.register_component(&f.world, decl);
    assert!(system.complete_basis(&requests[0], Ok(())));
    assert!(system.component_removed(f.up_end).is_empty());
    assert_eq!(system.status_for_source(decl), None);
    assert!(system.basis_for(f.target).is_none());
}
