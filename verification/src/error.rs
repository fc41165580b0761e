//! The ways in which an input can be refused.

use vstd::prelude::*;

verus! {

/// Why a curve export was refused.
#[derive(Debug, Clone, Copy, PartialEq, Eq)]
pub enum CurveError {
    /// The search for sample blocks could not be made, or a match came
    /// without its list of samples.
    SearchFailed,
    /// Fewer than four sample blocks were found.
    CountTooLow,
    /// A sample is not written as a number.
    MalformedNumber,
    /// The master curve does not hold exactly 256 samples.
    MasterLengthMismatch,
}

/// Why a lattice export was refused.
#[derive(Debug, Clone, Copy, PartialEq, Eq)]
pub enum LatticeError {
    /// No size directive was found.
    DirectiveMissing,
    /// The numbers do not fall into triplets, or the triplets do not fill a
    /// lattice of the declared size.
    CountMismatch,
}

} // verus!
