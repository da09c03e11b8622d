use mittens::ids::ComponentId;
use mittens::implicit_plan::{ExtractOutcome, ExtractRecord, ImplicitAction, ImplicitSurfaceSystem, SurfaceFacts};

fn id(index: u64) -> ComponentId {
    ComponentId { index }
}

fn ready(model: bool, color: bool) -> SurfaceFacts {
    SurfaceFacts::Ready {
        model_changed: model,
        color_changed: color,
        material_changed: false,
        transmission_changed: false,
        sphere_ids: vec![id(2)],
    }
}

#[test]
fn a_new_surface_is_extracted_and_recorded() {
    let mut system = ImplicitSurfaceSystem::new();
    let root = id(1);
    assert_eq!(system.step_root(root, 10, &ready(false, false)), vec![ImplicitAction::Extract { root, fingerprint: 10 }]);
    let r = system.record_extract(root, 10, ExtractOutcome::Drawn, vec![id(2)]);
    assert_eq!(r, ExtractRecord { previous_drawn: false, report: false });
    assert_eq!(system.outputs.len(), 1);
    assert!(system.outputs[0].drawn);
    // Unchanged fingerprint: only the refresh that the flags ask for.
    assert_eq!(
        system.step_root(root, 10, &ready(true, true)),
        vec![ImplicitAction::UpdateModel(root), ImplicitAction::UpdateColor(root)]
    );
    // A re-extraction that comes out empty replaces the drawn output.
    assert_eq!(system.step_root(root, 11, &ready(false, false)), vec![ImplicitAction::Extract { root, fingerprint: 11 }]);
    let r = system.record_extract(root, 11, ExtractOutcome::Empty, vec![id(2)]);
    assert_eq!(r, ExtractRecord { previous_drawn: true, report: false });
    assert!(!system.outputs[0].drawn);
}

#[test]
fn failures_are_reported_once_per_fingerprint() {
    let mut system = ImplicitSurfaceSystem::new();
    let root = id(1);
    let invalid = SurfaceFacts::Invalid { discovered: None };
    assert_eq!(system.step_root(root, 5, &invalid), vec![ImplicitAction::ReportFailure(root)]);
    assert_eq!(system.step_root(root, 5, &invalid), vec![]);
    assert_eq!(system.step_root(root, 6, &invalid), vec![ImplicitAction::ReportFailure(root)]);
    let r = system.record_extract(root, 6, ExtractOutcome::UploadFailed, vec![]);
    assert_eq!(r, ExtractRecord { previous_drawn: false, report: false });
    let r = system.record_extract(root, 7, ExtractOutcome::NoBounds, vec![]);
    assert_eq!(r, ExtractRecord { previous_drawn: false, report: true });
    system.record_extract(root, 8, ExtractOutcome::Drawn, vec![]);
    assert!(system.failed.is_empty());
}

#[test]
fn an_invalid_surface_keeps_its_output_only_while_its_spheres_are_the_same() {
    let mut system = ImplicitSurfaceSystem::new();
    let root = id(1);
    system.record_extract(root, 5, ExtractOutcome::Drawn, vec![id(2), id(3)]);
    let same = SurfaceFacts::Invalid { discovered: Some(vec![id(2), id(3)]) };
    assert_eq!(system.step_root(root, 6, &same), vec![ImplicitAction::ReportFailure(root)]);
    assert_eq!(system.outputs.len(), 1);
    let changed = SurfaceFacts::Invalid { discovered: Some(vec![id(2)]) };
    assert_eq!(system.step_root(root, 7, &changed), vec![ImplicitAction::RemoveOutput(root), ImplicitAction::ReportFailure(root)]);
    assert!(system.outputs.is_empty());
}

#[test]
fn stale_roots_lose_their_outputs_and_failures() {
    let mut system = ImplicitSurfaceSystem::new();
    system.record_extract(id(1), 5, ExtractOutcome::Drawn, vec![]);
    system.record_extract(id(4), 5, ExtractOutcome::Empty, vec![]);
    system.step_root(id(4), 9, &SurfaceFacts::Invalid { discovered: Some(vec![]) });
    let acts = system.remove_stale(&vec![id(1)]);
    assert_eq!(acts, vec![ImplicitAction::RemoveOutput(id(4))]);
    assert_eq!(system.outputs.len(), 1);
    assert_eq!(system.outputs[0].root, id(1));
    assert!(system.failed.is_empty());
}
