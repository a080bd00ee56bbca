//! The per-tick state machine of the simulation step.
use vstd::prelude::*;

verus! {

/// Where a simulation is within its tick.
#[derive(Clone, Copy, Debug, PartialEq, Eq)]
pub enum TickStage {
    /// Waiting for the first stage's kernel to become available.
    Loading,
    /// Computing one entry per particle.
    BuildIndex,
    /// Sorting the entries by key.
    SortEntries,
    /// Filling the start-offset table.
    ComputeOffsets,
    /// Accumulating forces and updating velocities.
    ComputeForcesAndVelocities,
    /// Moving particles by their velocities.
    IntegratePositions,
}

/// What drives the state machine from outside.
#[derive(Clone, Copy, Debug, PartialEq, Eq)]
pub enum TickEvent {
    /// The current stage has finished; `next_ready` tells whether the next
    /// stage's kernel is available.
    StageDone { next_ready: bool },
    /// The particle count or the number of types changed: all buffers are rebuilt.
    Reconfigure,
}

/// The stage that follows `s` in the cycle.
pub open spec fn successor(s: TickStage) -> TickStage {
    match s {
        TickStage::Loading => TickStage::BuildIndex,
        TickStage::BuildIndex => TickStage::SortEntries,
        TickStage::SortEntries => TickStage::ComputeOffsets,
        TickStage::ComputeOffsets => TickStage::ComputeForcesAndVelocities,
        TickStage::ComputeForcesAndVelocities => TickStage::IntegratePositions,
        TickStage::IntegratePositions => TickStage::BuildIndex,
    }
}

impl TickStage {
    /// The stage after `event`: the successor once it is ready, the same stage
    /// while it is not, and the start of a tick after a reconfiguration.
    pub fn next(self, event: TickEvent) -> (r: TickStage)
        ensures
            r == match event {
                TickEvent::StageDone { next_ready } => if next_ready {
                    successor(self)
                } else {
                    self
                },
                TickEvent::Reconfigure => TickStage::BuildIndex,
            },
    {
        match event {
            TickEvent::Reconfigure => TickStage::BuildIndex,
            TickEvent::StageDone { next_ready } => {
                if !next_ready {
                    self
                } else {
                    match self {
                        TickStage::Loading => TickStage::BuildIndex,
                        TickStage::BuildIndex => TickStage::SortEntries,
                        TickStage::SortEntries => TickStage::ComputeOffsets,
                        TickStage::ComputeOffsets => TickStage::ComputeForcesAndVelocities,
                        TickStage::ComputeForcesAndVelocities => TickStage::IntegratePositions,
                        TickStage::IntegratePositions => TickStage::BuildIndex,
                    }
                }
            },
        }
    }

    /// Whether this stage runs work on the particle buffer.
    pub fn runs_work(self) -> (r: bool)
        ensures
            r == (self != TickStage::Loading),
    {
        !matches!(self, TickStage::Loading)
    }
}

/// Five ready transitions bring any working stage back to itself.
pub proof fn lemma_cycle(s: TickStage)
    requires
        s != TickStage::Loading,
    ensures
        successor(successor(successor(successor(successor(s))))) == s,
{
}

} // verus!
