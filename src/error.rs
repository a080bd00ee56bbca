//! Errors of configuration and of index construction.
use vstd::prelude::*;

verus! {

/// Why a configuration was refused.
#[derive(Clone, Copy, Debug, PartialEq, Eq)]
pub enum ConfigProblem {
    /// The number of particle types is zero.
    NoTypes,
    /// The attraction matrix does not hold `type_count * type_count` coefficients.
    MatrixSizeMismatch,
    /// The key table would have no slot.
    EmptyTable,
    /// More particles than 32-bit positions can address.
    TooManyParticles,
}

/// Failures of the simulation core.
#[derive(Clone, Copy, Debug, PartialEq, Eq)]
pub enum SimError {
    /// A configuration was refused; the previous one stays in force.
    ConfigInvalid(ConfigProblem),
    /// The key table resolved to zero slots while building the index.
    IndexBuildFailure,
}

} // verus!
