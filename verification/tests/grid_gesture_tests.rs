use mittens::grid::GridAddress;
use mittens::grid_gesture::{disk_footprint, supercover_path, thin_line_path};

fn a(u: i32, v: i32) -> GridAddress {
    GridAddress { u, v }
}

#[test]
fn supercover_includes_corner_neighbours() {
    assert_eq!(supercover_path(a(0, 0), a(1, 1)), vec![a(0, 0), a(1, 0), a(0, 1), a(1, 1)]);
}

#[test]
fn thin_line_is_reverse_symmetric_and_8_connected() {
    let forward = thin_line_path(a(-3, 2), a(5, -1));
    let mut reverse = thin_line_path(a(5, -1), a(-3, 2));
    reverse.reverse();
    assert_eq!(forward, reverse);
    assert!(forward.windows(2).all(|pair| {
        (pair[1].u - pair[0].u).abs() <= 1 && (pair[1].v - pair[0].v).abs() <= 1
    }));
}

#[test]
fn disk_zero_and_one_are_deterministic() {
    assert_eq!(disk_footprint(a(2, 3), 0), vec![a(2, 3)]);
    assert_eq!(disk_footprint(a(0, 0), 1), vec![a(0, -1), a(-1, 0), a(0, 0), a(1, 0), a(0, 1)]);
}

#[test]
fn supercover_of_a_single_cell_is_that_cell() {
    assert_eq!(supercover_path(a(4, -2), a(4, -2)), vec![a(4, -2)]);
}

#[test]
fn thin_line_of_a_horizontal_run_steps_one_cell_at_a_time() {
    assert_eq!(thin_line_path(a(0, 0), a(3, 0)), vec![a(0, 0), a(1, 0), a(2, 0), a(3, 0)]);
}
