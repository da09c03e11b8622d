use mittens::implicit_mesh::{checked_node_count, validate_closed, ImplicitMeshError};

#[test]
fn node_count_is_the_product_of_axis_nodes() {
    assert_eq!(checked_node_count([2, 2, 2]), Ok(27));
    assert_eq!(checked_node_count([4, 1, 0]), Ok(10));
    assert_eq!(checked_node_count([0, 0, 0]), Ok(1));
}

#[test]
fn node_count_reports_dimension_and_product_overflow() {
    assert_eq!(
        checked_node_count([1, usize::MAX, 1]),
        Err(ImplicitMeshError::InvalidGrid("sample dimension overflow".to_string()))
    );
    assert_eq!(
        checked_node_count([usize::MAX / 2, 3, usize::MAX]),
        Err(ImplicitMeshError::InvalidGrid("sample count overflow".to_string()))
    );
}

#[test]
fn tetrahedron_is_closed() {
    let tetra = [0, 1, 2, 0, 3, 1, 0, 2, 3, 1, 3, 2];
    assert_eq!(validate_closed(&tetra), Ok(()));
    // A trailing partial triangle is ignored.
    let mut with_tail = tetra.to_vec();
    with_tail.push(7);
    assert_eq!(validate_closed(&with_tail), Ok(()));
    assert_eq!(validate_closed(&[]), Ok(()));
}

#[test]
fn open_surface_reports_its_first_boundary_edge() {
    let open = [0, 1, 2, 0, 3, 1, 0, 2, 3];
    assert_eq!(
        validate_closed(&open),
        Err(ImplicitMeshError::InvalidOutput(
            "edge (1, 2) has 1 uses and directed balance 1; expected two opposing uses".to_string()
        ))
    );
}

#[test]
fn same_winding_twice_is_not_opposing() {
    assert_eq!(
        validate_closed(&[0, 1, 2, 0, 1, 2]),
        Err(ImplicitMeshError::InvalidOutput(
            "edge (0, 1) has 2 uses and directed balance 2; expected two opposing uses".to_string()
        ))
    );
    assert_eq!(
        validate_closed(&[1, 0, 2, 1, 0, 2]),
        Err(ImplicitMeshError::InvalidOutput(
            "edge (0, 1) has 2 uses and directed balance -2; expected two opposing uses".to_string()
        ))
    );
}
