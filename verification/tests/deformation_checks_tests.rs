use mittens::deformation_checks::{check_attribute_counts, check_vertex_indices, DeformationReferenceError};

#[test]
fn mismatched_attribute_arrays_are_reported_with_their_lengths() {
    assert_eq!(check_attribute_counts(3, 3, 3, 3), Ok(()));
    assert_eq!(
        check_attribute_counts(3, 2, 3, 3),
        Err(DeformationReferenceError::AttributeCountMismatch { positions: 3, normals: 2, joints: 3, weights: 3 })
    );
}

#[test]
fn missing_morph_deltas_come_before_bad_joints() {
    assert_eq!(
        check_vertex_indices(2, &vec![0, 4], 5, [0, 9, 0, 0], 1, true),
        Err(DeformationReferenceError::MorphDeltaOutOfRange { vertex: 2, delta: 6, deltas: 5 })
    );
    assert_eq!(
        check_vertex_indices(2, &vec![0], 5, [0, 9, 7, 0], 1, true),
        Err(DeformationReferenceError::JointOutOfRange { vertex: 2, joint: 9, bones: 1 })
    );
    // An unskinned vertex never looks at its joints.
    assert_eq!(check_vertex_indices(2, &vec![0], 5, [0, 9, 7, 0], 1, false), Ok(()));
    assert_eq!(check_vertex_indices(0, &vec![], 0, [0, 1, 2, 3], 4, true), Ok(()));
}
