use mittens::drag_gestures::{DragEvent, DragTracker, MoveSource, TriggerPress, TriggerRelease};
use mittens::gesture::{DragUpdatePolicy, GestureHit, GesturePointerClass, PointerTopology};
use mittens::ids::ComponentId;

fn id(index: u64) -> ComponentId {
    ComponentId { index }
}

fn hit(raycaster: u64, renderable: u64, drag: bool, click: bool) -> GestureHit {
    GestureHit {
        raycaster: id(raycaster),
        renderable: id(renderable),
        captures_drag: drag,
        captures_click: click,
        draggable_owner: None,
        grabbable_owner: None,
    }
}

const DESKTOP: PointerTopology = PointerTopology { has_controller_driver: false, has_xr_camera_anchor: false, has_xr_input_driver: false };
const CONTROLLER: PointerTopology = PointerTopology { has_controller_driver: true, has_xr_camera_anchor: false, has_xr_input_driver: false };

fn press(pointer: u64, raycaster: u64, topology: PointerTopology) -> TriggerPress {
    TriggerPress { pointer: id(pointer), raycaster: Some(id(raycaster)), topology, cursor_known: true, grab_consumed: false }
}

#[test]
fn a_drag_only_plane_in_front_does_not_swallow_the_click() {
    let hits = vec![hit(9, 20, true, false), hit(9, 21, true, true)];
    let mut t = DragTracker::new();
    let started = t.press(&vec![press(1, 9, DESKTOP)], &hits);
    assert_eq!(started, vec![DragEvent::DragStart { pointer: id(1), drag_hit: 0, click_hit: Some(1) }]);
    let g = t.state().unwrap();
    assert_eq!(g.renderable, id(20));
    assert_eq!(g.click_renderable, Some(id(21)));
    assert_eq!(g.press_class, GesturePointerClass::Desktop);
    // Pressing again while dragging starts nothing.
    assert_eq!(t.press(&vec![press(1, 9, DESKTOP)], &hits), vec![]);
    // Release on the same click target within tolerance clicks it.
    let events = t.release(&vec![TriggerRelease { pointer: id(1), has_pointer_config: true, within_tolerance: true }], &hits);
    assert_eq!(
        events,
        vec![
            DragEvent::DragEnd { pointer: id(1), raycaster: id(9), renderable: id(20) },
            DragEvent::Click { pointer: id(1), raycaster: id(9), target: id(21) },
        ]
    );
    assert!(t.state().is_none());
}

#[test]
fn a_release_out_of_tolerance_or_on_another_target_does_not_click() {
    let hits = vec![hit(9, 21, true, true)];
    let mut t = DragTracker::new();
    t.press(&vec![press(1, 9, DESKTOP)], &hits);
    let far = TriggerRelease { pointer: id(1), has_pointer_config: true, within_tolerance: false };
    assert_eq!(t.release(&vec![far], &hits), vec![DragEvent::DragEnd { pointer: id(1), raycaster: id(9), renderable: id(21) }]);
    t.press(&vec![press(1, 9, DESKTOP)], &hits);
    let moved = vec![hit(9, 22, false, true)];
    let near = TriggerRelease { pointer: id(1), has_pointer_config: true, within_tolerance: true };
    assert_eq!(t.release(&vec![near], &moved), vec![DragEvent::DragEnd { pointer: id(1), raycaster: id(9), renderable: id(21) }]);
}

#[test]
fn controllers_skip_grabbable_only_targets_and_follow_draggables() {
    let mut grabbable = hit(5, 30, true, false);
    grabbable.grabbable_owner = Some(id(31));
    let mut draggable = hit(5, 40, true, false);
    draggable.draggable_owner = Some(id(41));
    let hits = vec![grabbable, draggable];
    let mut t = DragTracker::new();
    let started = t.press(&vec![press(2, 5, CONTROLLER)], &hits);
    assert_eq!(started, vec![DragEvent::DragStart { pointer: id(2), drag_hit: 1, click_hit: None }]);
    assert_eq!(t.move_source(id(2), &hits), MoveSource::Controller);
    assert_eq!(t.move_source(id(3), &hits), MoveSource::Idle);
}

#[test]
fn moves_follow_contact_or_the_start_plane() {
    let hits = vec![hit(9, 20, true, false)];
    let mut t = DragTracker::new();
    t.press(&vec![press(1, 9, DESKTOP)], &hits);
    assert_eq!(t.move_source(id(1), &hits), MoveSource::TargetHit(0));
    assert_eq!(t.move_source(id(1), &vec![hit(9, 99, true, false)]), MoveSource::NoContact);
    t.set_drag_update_policy(DragUpdatePolicy::StartPlaneProjection);
    assert_eq!(t.move_source(id(1), &vec![]), MoveSource::Projection);
    let mut spatial = DragTracker::new();
    spatial.set_drag_update_policy(DragUpdatePolicy::StartPlaneProjection);
    let xr = PointerTopology { has_controller_driver: false, has_xr_camera_anchor: true, has_xr_input_driver: false };
    spatial.press(&vec![press(4, 9, xr)], &hits);
    assert_eq!(spatial.move_source(id(4), &hits), MoveSource::TargetHit(0));
}

#[test]
fn grab_consumed_presses_and_rayless_pointers_start_nothing() {
    let hits = vec![hit(9, 20, true, true)];
    let mut t = DragTracker::new();
    let mut consumed = press(1, 9, DESKTOP);
    consumed.grab_consumed = true;
    let rayless = TriggerPress { raycaster: None, ..press(2, 9, DESKTOP) };
    assert_eq!(t.press(&vec![consumed, rayless], &hits), vec![]);
    assert!(t.state().is_none());
}
