//! Checks on the integer part of a simulation configuration.
use vstd::prelude::*;
use crate::error::{ConfigProblem, SimError};

verus! {

/// The first problem with a configuration's sizes, checked in this order, or none.
pub open spec fn config_problem(particle_count: nat, type_count: nat, matrix_len: nat) -> Option<ConfigProblem> {
    if type_count == 0 {
        Some(ConfigProblem::NoTypes)
    } else if matrix_len != type_count * type_count {
        Some(ConfigProblem::MatrixSizeMismatch)
    } else if particle_count == 0 {
        Some(ConfigProblem::EmptyTable)
    } else if particle_count >= u32::MAX {
        Some(ConfigProblem::TooManyParticles)
    } else {
        None
    }
}

/// Checks the sizes of a configuration and gives the key table size, which is
/// the particle count.
pub fn validate_config(particle_count: usize, type_count: usize, matrix_len: usize) -> (r: Result<u32, SimError>)
    ensures
        match config_problem(particle_count as nat, type_count as nat, matrix_len as nat) {
            Some(p) => r == Err::<u32, SimError>(SimError::ConfigInvalid(p)),
            None => r == Ok::<u32, SimError>(particle_count as u32),
        },
{
    if type_count == 0 {
        return Err(SimError::ConfigInvalid(ConfigProblem::NoTypes));
    }
    match type_count.checked_mul(type_count) {
        Some(cells) => {
            if cells != matrix_len {
                return Err(SimError::ConfigInvalid(ConfigProblem::MatrixSizeMismatch));
            }
        },
        None => {
            return Err(SimError::ConfigInvalid(ConfigProblem::MatrixSizeMismatch));
        },
    }
    if particle_count == 0 {
        return Err(SimError::ConfigInvalid(ConfigProblem::EmptyTable));
    }
    if particle_count >= u32::MAX as usize {
        return Err(SimError::ConfigInvalid(ConfigProblem::TooManyParticles));
    }
    Ok(particle_count as u32)
}

/// The slot of the attraction coefficient for the ordered pair of types
/// `(own, other)` in the row-major matrix.
pub fn matrix_index(own: u32, other: u32, type_count: usize) -> (r: usize)
    requires
        own < type_count,
        other < type_count,
        type_count * type_count <= usize::MAX,
    ensures
        r == own * type_count + other,
        r < type_count * type_count,
{
    proof {
        assert(own * type_count + other < type_count * type_count) by (nonlinear_arith)
            requires own < type_count, other < type_count;
    }
    own as usize * type_count + other as usize
}

} // verus!
