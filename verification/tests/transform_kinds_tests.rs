use mittens::transform_kinds::{TransformSpace, TransformTrsError};

#[test]
fn refusals_read_as_their_messages() {
    assert_eq!(TransformTrsError::NonAffineMatrix.message(), "transform matrix is not affine");
    assert_eq!(TransformTrsError::ShearNotRepresentable.message(), "transform matrix contains shear that TRS cannot represent");
    assert_ne!(TransformSpace::Local, TransformSpace::World);
}
