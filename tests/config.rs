use logic_gpu_particles::config::{matrix_index, validate_config};
use logic_gpu_particles::error::{ConfigProblem, SimError};
use logic_gpu_particles::tick::{TickEvent, TickStage};

#[test]
fn valid_config_gives_table_size() {
    assert_eq!(validate_config(4, 1, 1), Ok(4));
    assert_eq!(validate_config(10_000, 6, 36), Ok(10_000));
}

#[test]
fn config_errors() {
    assert_eq!(validate_config(4, 0, 0), Err(SimError::ConfigInvalid(ConfigProblem::NoTypes)));
    assert_eq!(
        validate_config(4, 3, 8),
        Err(SimError::ConfigInvalid(ConfigProblem::MatrixSizeMismatch))
    );
    assert_eq!(
        validate_config(4, usize::MAX, 1),
        Err(SimError::ConfigInvalid(ConfigProblem::MatrixSizeMismatch))
    );
    assert_eq!(validate_config(0, 2, 4), Err(SimError::ConfigInvalid(ConfigProblem::EmptyTable)));
    assert_eq!(
        validate_config(u32::MAX as usize, 1, 1),
        Err(SimError::ConfigInvalid(ConfigProblem::TooManyParticles))
    );
}

#[test]
fn matrix_is_row_major() {
    assert_eq!(matrix_index(0, 0, 3), 0);
    assert_eq!(matrix_index(1, 2, 3), 5);
    assert_eq!(matrix_index(2, 0, 3), 6);
}

#[test]
fn tick_cycles_through_its_stages() {
    let ready = TickEvent::StageDone { next_ready: true };
    let mut stage = TickStage::Loading;
    let mut seen = Vec::new();
    for _ in 0..6 {
        stage = stage.next(ready);
        seen.push(stage);
    }
    assert_eq!(
        seen,
        vec![
            TickStage::BuildIndex,
            TickStage::SortEntries,
            TickStage::ComputeOffsets,
            TickStage::ComputeForcesAndVelocities,
            TickStage::IntegratePositions,
            TickStage::BuildIndex,
        ]
    );
}

#[test]
fn tick_waits_and_restarts() {
    let waiting = TickEvent::StageDone { next_ready: false };
    assert_eq!(TickStage::Loading.next(waiting), TickStage::Loading);
    assert_eq!(TickStage::SortEntries.next(waiting), TickStage::SortEntries);
    assert_eq!(TickStage::ComputeOffsets.next(TickEvent::Reconfigure), TickStage::BuildIndex);
    assert!(!TickStage::Loading.runs_work());
    assert!(TickStage::IntegratePositions.runs_work());
}
