//! Error and default values of the signal specifications.

use vstd::prelude::*;

verus! {

/// Why a signal specification could not be built.
#[derive(Debug, Clone, PartialEq)]
pub enum SignalBuildError {
    Gaussian(String),
    Poisson(String),
    Correlated(String),
    StudentT(String),
}

/// Default number of octaves of a noise specification.
pub fn default_octaves() -> (r: u8)
    ensures
        r == 1,
{
    1
}

/// Default number of quantization levels of a specification.
pub fn default_levels() -> (r: u8)
    ensures
        r == 4,
{
    4
}

} // verus!
