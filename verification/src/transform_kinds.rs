//! The plain kinds of the transform channel API: the space copied values
//! are expressed in, and why a TRS value or matrix was refused.
use vstd::prelude::*;

verus! {

/// Coordinate space used when transferring copied transform values.
#[derive(Debug, Clone, Copy, PartialEq, Eq, Structural)]
pub enum TransformSpace {
    Local,
    World,
}

/// Why transform channels or a matrix were refused.
#[derive(Debug, Clone, Copy, PartialEq, Eq, Structural)]
pub enum TransformTrsError {
    NonFiniteValue,
    DegenerateQuaternion,
    NonAffineMatrix,
    SingularScale,
    ReflectedMatrix,
    ShearNotRepresentable,
}

/// How each refusal reads.
pub open spec fn trs_error_message(e: TransformTrsError) -> Seq<char> {
    match e {
        TransformTrsError::NonFiniteValue => "transform TRS contains a non-finite value"@,
        TransformTrsError::DegenerateQuaternion => "transform TRS contains a degenerate rotation quaternion"@,
        TransformTrsError::NonAffineMatrix => "transform matrix is not affine"@,
        TransformTrsError::SingularScale => "transform matrix has a singular scale axis"@,
        TransformTrsError::ReflectedMatrix => "transform matrix contains a reflection or negative determinant"@,
        TransformTrsError::ShearNotRepresentable => "transform matrix contains shear that TRS cannot represent"@,
    }
}

impl TransformTrsError {
    /// The message of this refusal.
    pub fn message(&self) -> (m: String)
        ensures
            m@ == trs_error_message(*self),
    {
        let s = match self {
            TransformTrsError::NonFiniteValue => "transform TRS contains a non-finite value",
            TransformTrsError::DegenerateQuaternion => "transform TRS contains a degenerate rotation quaternion",
            TransformTrsError::NonAffineMatrix => "transform matrix is not affine",
            TransformTrsError::SingularScale => "transform matrix has a singular scale axis",
            TransformTrsError::ReflectedMatrix => "transform matrix contains a reflection or negative determinant",
            TransformTrsError::ShearNotRepresentable => "transform matrix contains shear that TRS cannot represent",
        };
        s.to_owned()
    }
}

} // verus!
