//! The ways in which an operation of this library can fail.

use vstd::prelude::*;

verus! {

/// Every failure is terminal: no operation retries or falls back.
#[derive(Clone, Copy, Debug, PartialEq, Eq, Structural)]
pub enum Error {
    /// The value has no inverse for the modulus.
    NotInvertible,
    /// The value is no quadratic residue, or the modulus is a prime of a
    /// form that the square-root routine does not handle.
    NoSquareRoot,
    /// The seed point does not satisfy the curve equation modulo `p`.
    InvalidSeed,
    /// The discriminant of the curve vanishes modulo `p`.
    SingularCurve,
    /// The derivative used by the lifting step has no inverse modulo `p`.
    DerivativeNotInvertible,
    /// The lifted abscissa has no matching ordinate at some level.
    NoValidLift,
    /// A slope denominator has no inverse for the modulus.
    DenominatorNotInvertible,
    /// The modulus `p^k` does not fit the range of the random draw.
    ModulusTooLarge,
    /// The operating system handed out no random number.
    RandomnessUnavailable,
}

impl Error {
    /// A short description of the failure.
    pub fn message(&self) -> (text: &'static str)
        ensures
            text@ == self.spec_message(),
    {
        match self {
            Error::NotInvertible => "modular inverse does not exist",
            Error::NoSquareRoot => "no modular square root",
            Error::InvalidSeed => "seed point does not lie on the curve",
            Error::SingularCurve => "curve is singular",
            Error::DerivativeNotInvertible => "derivative is not invertible",
            Error::NoValidLift => "no valid lift",
            Error::DenominatorNotInvertible => "slope denominator is not invertible",
            Error::ModulusTooLarge => "modulus too large",
            Error::RandomnessUnavailable => "no random number available",
        }
    }

    /// The text that `message` returns.
    pub open spec fn spec_message(&self) -> Seq<char> {
        match self {
            Error::NotInvertible => "modular inverse does not exist"@,
            Error::NoSquareRoot => "no modular square root"@,
            Error::InvalidSeed => "seed point does not lie on the curve"@,
            Error::SingularCurve => "curve is singular"@,
            Error::DerivativeNotInvertible => "derivative is not invertible"@,
            Error::NoValidLift => "no valid lift"@,
            Error::DenominatorNotInvertible => "slope denominator is not invertible"@,
            Error::ModulusTooLarge => "modulus too large"@,
            Error::RandomnessUnavailable => "no random number available"@,
        }
    }
}

} // verus!
