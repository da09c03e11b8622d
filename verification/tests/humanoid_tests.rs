use mittens::components::{Component, TransformComponent};
use mittens::humanoid::{
    convention_tokens_match, infer_by_name, is_helper, name_tokens, HumanoidSlotProvenance, HumanoidSlotStatus,
    ResolvedHumanoidTarget, ResolvedHumanoidTargetKind,
};
use mittens::world::World;

fn words(parts: &[&str]) -> Vec<String> {
    parts.iter().map(|s| s.to_string()).collect()
}

#[test]
fn names_split_on_case_changes_and_separators() {
    assert_eq!(name_tokens("mixamorig:LeftUpLeg"), words(&["mixamorig", "left", "up", "leg"]));
    assert_eq!(name_tokens("J_Bip_C_Hips"), words(&["j", "bip", "c", "hips"]));
    assert_eq!(name_tokens("Head1"), words(&["head1"]));
    assert_eq!(name_tokens("HEAD"), words(&["head"]));
    assert_eq!(name_tokens("__"), Vec::<String>::new());
    assert_eq!(name_tokens(""), Vec::<String>::new());
}

#[test]
fn rig_namespaces_may_prefix_a_convention() {
    let pattern = words(&["left", "hand"]);
    assert!(convention_tokens_match(&words(&["left", "hand"]), &pattern));
    assert!(convention_tokens_match(&words(&["mixamorig", "left", "hand"]), &pattern));
    assert!(convention_tokens_match(&words(&["armature", "rig", "left", "hand"]), &pattern));
    assert!(!convention_tokens_match(&words(&["body", "left", "hand"]), &pattern));
    assert!(!convention_tokens_match(&words(&["hand"]), &pattern));
}

#[test]
fn helper_tokens_are_detected() {
    assert!(is_helper(&words(&["head", "top", "end"])));
    assert!(is_helper(&words(&["left", "arm", "twist"])));
    assert!(!is_helper(&words(&["left", "arm"])));
}

#[test]
fn name_inference_resolves_unique_and_reports_ambiguity() {
    let mut world = World::new();
    let head = world.add_component_named("mixamorig:Head", Component::Transform(TransformComponent::new()));
    let neck = world.add_component_named("Neck", Component::Transform(TransformComponent::new()));
    let end = world.add_component_named("Head_End", Component::Transform(TransformComponent::new()));
    let joints = vec![head, neck, end];
    let head_pattern = vec![words(&["head"])];

    let found = infer_by_name(&world, &joints, &head_pattern);
    assert_eq!(
        found.status,
        HumanoidSlotStatus::Resolved(ResolvedHumanoidTarget { component: head, kind: ResolvedHumanoidTargetKind::SkinJoint })
    );
    assert_eq!(found.provenance, HumanoidSlotProvenance::ConventionName);

    let second = world.add_component_named("Head", Component::Transform(TransformComponent::new()));
    let joints = vec![second, head, neck, head];
    let ambiguous = infer_by_name(&world, &joints, &head_pattern);
    assert_eq!(ambiguous.status, HumanoidSlotStatus::Ambiguous { candidates: vec![head, second] });
    assert_eq!(ambiguous.diagnostic, Some("2 equally strong name matches".to_string()));

    let none = infer_by_name(&world, &vec![neck, end], &head_pattern);
    assert_eq!(none.status, HumanoidSlotStatus::Unresolved);
    assert_eq!(none.provenance, HumanoidSlotProvenance::Unresolved);
}

use mittens::humanoid_map::{
    all_slots, bump_generation, infer_slot_by_name, slot_patterns, validate_arm_topology, HumanoidBoneMapReport,
    HumanoidSlot, HumanoidSlotReport,
};
use mittens::ids::ComponentId;

fn rig(names: &[&str]) -> (World, ComponentId, Vec<ComponentId>) {
    let mut world = World::new();
    let root = world.add_component(Component::Transform(TransformComponent::new()));
    let mut ids = Vec::new();
    for &name in names {
        let id = world.add_component_named(name, Component::Transform(TransformComponent::new()));
        world.add_child(root, id).unwrap();
        ids.push(id);
    }
    (world, root, ids)
}

#[test]
fn numbered_suffix_does_not_name_the_head() {
    let (world, gltf, ids) = rig(&["J_Bip_C_Head.001"]);
    let report = HumanoidBoneMapReport::by_name(&world, gltf, 1, &ids);
    assert!(report.target(HumanoidSlot::Head).is_none());
}

#[test]
fn duplicate_exact_head_names_stay_ambiguous() {
    let (world, gltf, ids) = rig(&["Head", "Head"]);
    let report = HumanoidBoneMapReport::by_name(&world, gltf, 1, &ids);
    assert!(matches!(
        &report.slot(HumanoidSlot::Head).unwrap().status,
        HumanoidSlotStatus::Ambiguous { candidates } if candidates == &ids
    ));
}

#[test]
fn mixamo_arm_in_a_chain_is_ready() {
    let (mut world, gltf, ids) =
        rig(&["mixamorig:Head", "mixamorig:LeftArm", "mixamorig:LeftForeArm", "mixamorig:LeftHand"]);
    world.add_child(ids[1], ids[2]).unwrap();
    world.add_child(ids[2], ids[3]).unwrap();
    let report = HumanoidBoneMapReport::by_name(&world, gltf, 1, &ids);
    assert_eq!(report.target(HumanoidSlot::Head).unwrap().component, ids[0]);
    assert!(report.arm_ready(true));
    assert!(!report.arm_ready(false));
    assert!(report.head_ready());
    assert!(report.valid);
}

#[test]
fn mixamo_arm_out_of_chain_is_unresolved() {
    let (world, gltf, ids) =
        rig(&["mixamorig:Head", "mixamorig:LeftArm", "mixamorig:LeftForeArm", "mixamorig:LeftHand"]);
    let report = HumanoidBoneMapReport::by_name(&world, gltf, 1, &ids);
    assert!(!report.arm_ready(true));
    let hand = report.slot(HumanoidSlot::LeftHand).unwrap();
    assert_eq!(hand.status, HumanoidSlotStatus::Unresolved);
    assert_eq!(hand.diagnostic, Some("name match failed arm topology validation".to_string()));
    assert_eq!(report.target(HumanoidSlot::Head).unwrap().component, ids[0]);
}

#[test]
fn twist_helper_is_not_a_head_candidate() {
    let (world, gltf, ids) = rig(&["HeadTwist", "Head"]);
    let report = HumanoidBoneMapReport::by_name(&world, gltf, 1, &ids);
    assert_eq!(report.target(HumanoidSlot::Head).unwrap().component, ids[1]);
}

#[test]
fn nonhumanoid_joints_give_an_invalid_map() {
    let (world, gltf, ids) = rig(&["Wheel", "Propeller", "Collider"]);
    let report = HumanoidBoneMapReport::by_name(&world, gltf, 1, &ids);
    assert!(!report.valid);
    assert!(!report.head_ready());
}

#[test]
fn two_authored_maps_give_an_invalid_report() {
    let report = HumanoidBoneMapReport::conflicting_maps(ComponentId { index: 4 }, 7);
    assert!(!report.valid);
    assert_eq!(report.generation, 7);
    assert_eq!(report.diagnostics, vec!["multiple HumanoidBoneMap components belong to one GLTF".to_string()]);
    assert_eq!(report.slots.len(), all_slots().len());
    assert!(report.slots.iter().all(|s| s.status == HumanoidSlotStatus::Unresolved));
}

#[test]
fn slot_patterns_follow_the_conventions() {
    assert_eq!(slot_patterns(HumanoidSlot::Root), vec![words(&["root"]), words(&["armature"])]);
    assert_eq!(
        slot_patterns(HumanoidSlot::LeftLowerArm),
        vec![
            words(&["left", "lower", "arm"]),
            words(&["l", "lower", "arm"]),
            words(&["j", "bip", "l", "lower", "arm"]),
            words(&["left", "fore", "arm"]),
            words(&["left", "forearm"]),
        ]
    );
    assert_eq!(
        slot_patterns(HumanoidSlot::RightLittleProximal),
        vec![
            words(&["right", "little", "proximal"]),
            words(&["r", "little", "proximal"]),
            words(&["j", "bip", "r", "little1"]),
            words(&["right", "hand", "pinky1"]),
        ]
    );
    assert!(slot_patterns(HumanoidSlot::CameraAnchor).is_empty());
    assert_eq!(all_slots().len(), 34);
}

#[test]
fn camera_anchor_is_never_matched_by_name() {
    let (world, _, ids) = rig(&["CameraAnchor", "camera"]);
    let report = infer_slot_by_name(&world, &ids, HumanoidSlot::CameraAnchor);
    assert_eq!(report.status, HumanoidSlotStatus::Unresolved);
    assert_eq!(report.provenance, HumanoidSlotProvenance::Unresolved);
}

#[test]
fn arm_check_keeps_explicit_slots() {
    let (world, _, ids) = rig(&["a", "b", "c"]);
    let resolved = |slot, id, provenance| HumanoidSlotReport {
        slot,
        status: HumanoidSlotStatus::Resolved(ResolvedHumanoidTarget { component: id, kind: ResolvedHumanoidTargetKind::SkinJoint }),
        provenance,
        diagnostic: None,
    };
    let mut slots = vec![
        resolved(HumanoidSlot::RightUpperArm, ids[0], HumanoidSlotProvenance::Explicit),
        resolved(HumanoidSlot::RightLowerArm, ids[1], HumanoidSlotProvenance::ConventionName),
        resolved(HumanoidSlot::RightHand, ids[2], HumanoidSlotProvenance::ConventionName),
    ];
    let before = slots.clone();
    validate_arm_topology(&world, &mut slots, true);
    assert_eq!(slots, before);
    validate_arm_topology(&world, &mut slots, false);
    assert_eq!(slots[0], before[0]);
    assert_eq!(slots[1].status, HumanoidSlotStatus::Unresolved);
    assert_eq!(slots[2].provenance, HumanoidSlotProvenance::Unresolved);
}

#[test]
fn generations_skip_zero_when_they_wrap() {
    assert_eq!(bump_generation(0), 1);
    assert_eq!(bump_generation(41), 42);
    assert_eq!(bump_generation(u64::MAX), 1);
}
