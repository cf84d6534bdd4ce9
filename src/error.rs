use vstd::prelude::*;

verus! {

/// The ways in which a field or curve operation can fail.
#[derive(Debug, Clone, Copy, PartialEq, Eq, Structural)]
pub enum EccError {
    /// The modulus of a field element is not greater than one.
    InvalidField,
    /// A residue lies outside `0 .. prime`.
    OutOfRange,
    /// Two field elements of different moduli were combined.
    FieldMismatch,
    /// A field element was divided by zero.
    DivisionByZero,
    /// Exactly one of the two coordinates of a point was given.
    InvalidCoordinates,
    /// The coordinates do not satisfy the curve equation.
    PointNotOnCurve,
    /// Two points of different curves or fields were combined.
    CurveMismatch,
}

} // verus!
