//! Typed errors of the engine.

use vstd::prelude::*;

verus! {

/// Every failure of the engine is one of these kinds.
///
/// - `DimensionMismatch`: an input's size disagrees with the sector count
///   expected from the other inputs.
/// - `Degenerate`: a divisor (an entry of the production vector, a
///   requirements denominator, a statistic used as a denominator, or a
///   perturbation step) is zero, so the requested ratio does not exist.
/// - `SingularMatrix`: the elimination met a column with no usable pivot, so
///   the matrix to invert is singular.
/// - `NumericalInstability`: an exact intermediate value left the range the
///   engine can represent, or a computed inverse failed its final check; no
///   partial result is returned.
#[derive(Clone, Copy, Debug, PartialEq, Eq, Structural)]
pub enum FioError {
    DimensionMismatch,
    Degenerate,
    SingularMatrix,
    NumericalInstability,
}

impl FioError {
    /// A short human-readable name for the error kind.
    pub fn describe(&self) -> (r: &'static str)
        ensures
            r@ =~= match self {
                FioError::DimensionMismatch => "dimension mismatch"@,
                FioError::Degenerate => "degenerate divisor"@,
                FioError::SingularMatrix => "singular matrix"@,
                FioError::NumericalInstability => "numerical instability"@,
            },
    {
        match self {
            FioError::DimensionMismatch => "dimension mismatch",
            FioError::Degenerate => "degenerate divisor",
            FioError::SingularMatrix => "singular matrix",
            FioError::NumericalInstability => "numerical instability",
        }
    }
}

} // verus!
