use mittens::gesture::{
    effective_drag_policy, is_screen_pointer, press_pointer_class, select_press_hits, DragUpdatePolicy,
    GestureHit, GesturePointerClass, GrabPress, GrabTracker, PointerTopology,
};
use mittens::ids::ComponentId;

fn id(index: u64) -> ComponentId {
    ComponentId { index }
}

fn hit(raycaster: u64, renderable: u64, drag: bool, click: bool, draggable: Option<u64>, grabbable: Option<u64>) -> GestureHit {
    GestureHit {
        raycaster: id(raycaster),
        renderable: id(renderable),
        captures_drag: drag,
        captures_click: click,
        draggable_owner: draggable.map(id),
        grabbable_owner: grabbable.map(id),
    }
}

#[test]
fn pointer_classes_and_policies() {
    let desktop = PointerTopology { has_controller_driver: false, has_xr_camera_anchor: false, has_xr_input_driver: false };
    let controller = PointerTopology { has_controller_driver: true, ..desktop };
    assert!(is_screen_pointer(desktop));
    assert!(!is_screen_pointer(controller));
    assert_eq!(press_pointer_class(desktop), GesturePointerClass::Desktop);
    assert_eq!(press_pointer_class(controller), GesturePointerClass::Spatial);
    assert_eq!(effective_drag_policy(DragUpdatePolicy::StartPlaneProjection, true), DragUpdatePolicy::StartPlaneProjection);
    assert_eq!(effective_drag_policy(DragUpdatePolicy::StartPlaneProjection, false), DragUpdatePolicy::RequireTargetContact);
}

#[test]
fn controller_press_skips_grabbable_only_targets() {
    let hits = vec![
        hit(9, 1, true, true, None, None),
        hit(7, 2, true, false, None, Some(20)),
        hit(7, 3, false, true, None, None),
        hit(7, 4, true, true, Some(40), Some(41)),
    ];
    assert_eq!(select_press_hits(&hits, id(7), true), (Some(3), Some(2)));
    assert_eq!(select_press_hits(&hits, id(7), false), (Some(1), Some(2)));
    assert_eq!(select_press_hits(&hits, id(8), false), (None, None));
}

#[test]
fn an_owner_is_grabbed_once_and_released_by_its_pointer() {
    let hits = vec![hit(7, 2, true, false, None, Some(20)), hit(8, 3, true, false, None, Some(20)), hit(8, 4, true, false, None, Some(30))];
    let mut tracker = GrabTracker::new();
    let started = tracker.press(
        &vec![
            GrabPress { pointer: id(100), desktop: false, raycaster: Some(id(7)) },
            GrabPress { pointer: id(101), desktop: true, raycaster: Some(id(8)) },
            GrabPress { pointer: id(102), desktop: true, raycaster: None },
            GrabPress { pointer: id(100), desktop: false, raycaster: Some(id(8)) },
        ],
        &hits,
    );
    assert_eq!(started.len(), 2);
    assert_eq!((started[0].pointer, started[0].hit, started[0].owner), (id(100), 0, id(20)));
    assert_eq!((started[1].pointer, started[1].hit, started[1].owner), (id(101), 2, id(30)));
    assert_eq!(tracker.grip_of(id(101)).map(|g| g.renderable), Some(id(4)));

    let ended = tracker.release(&vec![], &vec![id(100), id(101)]);
    assert_eq!(ended.len(), 1);
    assert_eq!((ended[0].pointer, ended[0].owner), (id(101), id(30)));
    let ended = tracker.release(&vec![id(100), id(100)], &vec![]);
    assert_eq!(ended.len(), 1);
    assert_eq!(ended[0].renderable, id(2));
    assert!(tracker.grip_of(id(100)).is_none());
}
