use vstd::prelude::*;

verus! {

/// Why an arithmetic operation produced no value.
#[derive(Clone, Copy, Debug, PartialEq, Eq, Structural)]
pub enum ArithmeticError {
    /// The mathematical result lies outside the range of the target type.
    Overflow,
    /// The divisor is zero.
    DivisionByZero,
}

impl ArithmeticError {
    /// A short human-readable description of the error.
    pub fn as_str(&self) -> (r: &'static str)
        ensures
            r@ == (match *self {
                ArithmeticError::Overflow => "overflow"@,
                ArithmeticError::DivisionByZero => "division by zero"@,
            }),
    {
        match self {
            ArithmeticError::Overflow => "overflow",
            ArithmeticError::DivisionByZero => "division by zero",
        }
    }
}

/// Why a conversion into a fixed-point value produced no value.
#[derive(Clone, Copy, Debug, PartialEq, Eq, Structural)]
pub enum ConvertError {
    /// The value does not fit into the layout at the type's precision.
    Overflow,
    /// The value has more fractional digits than the type's precision keeps.
    PrecisionLoss,
    /// The text is not of the form `[+-]digits[.digits]`.
    Malformed,
}

} // verus!
