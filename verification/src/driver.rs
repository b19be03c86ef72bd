//! The epoch driver: it decides when committees are computed anew.
//!
//! The driver sees triggers and answers each with a decision. It does not
//! compute committees itself, and it never waits for anything: fetching the
//! snapshot and the seed, and handing the new committees to the store, is
//! the caller's part.

use crate::ident::Identifier;
use vstd::prelude::*;

verus! {

/// Something that may call for new committees.
#[derive(Clone, Copy, Debug, PartialEq, Eq, Structural)]
pub enum Trigger {
    /// The beacon announced the epoch with the given number.
    EpochBoundary(u64),
    /// The registry reported that so many live nodes joined or left.
    RegistryDelta(u64),
    /// Somebody asked for the committee of the given task.
    TaskRequested(Identifier),
}

/// What the driver wants done.
#[derive(Clone, Copy, Debug, PartialEq, Eq, Structural)]
pub enum Decision {
    /// Nothing.
    Idle,
    /// Compute the committee of every task anew.
    RecomputeAll,
    /// Compute the committee of the given task.
    RecomputeTask(Identifier),
}

/// The state of the driver.
#[derive(Clone, Copy, Debug, PartialEq, Eq, Structural)]
pub struct EpochDriver {
    /// Whether any epoch was announced yet.
    pub started: bool,
    /// The latest epoch that was announced.
    pub epoch: u64,
    /// How many membership changes call for new committees. Zero counts as
    /// one: any change does.
    pub threshold: u64,
    /// Membership changes seen since the committees were last computed anew.
    pub drift: u64,
}

impl EpochDriver {
    /// The sum of the drift and a new delta, held at the largest number.
    pub open spec fn drift_with(self, delta: u64) -> u64 {
        if self.drift + delta > u64::MAX {
            u64::MAX
        } else {
            (self.drift + delta) as u64
        }
    }

    /// The state after a trigger, and the decision it leads to. `known`
    /// says whether the task of a request already has a committee.
    ///
    /// - An epoch later than every epoch seen calls for all committees and
    ///   clears the drift; an epoch that is not later is stale.
    /// - A registry delta is added to the drift; once the drift is positive
    ///   and has reached the threshold, all committees are called for and
    ///   the drift is cleared.
    /// - A request for a task calls for its committee when it has none.
    pub open spec fn step(self, trigger: Trigger, known: bool) -> (EpochDriver, Decision) {
        match trigger {
            Trigger::EpochBoundary(e) => {
                if !self.started || self.epoch < e {
                    (
                        EpochDriver { started: true, epoch: e, drift: 0, ..self },
                        Decision::RecomputeAll,
                    )
                } else {
                    (self, Decision::Idle)
                }
            },
            Trigger::RegistryDelta(delta) => {
                let drift = self.drift_with(delta);
                if drift > 0 && drift >= self.threshold {
                    (EpochDriver { drift: 0, ..self }, Decision::RecomputeAll)
                } else {
                    (EpochDriver { drift, ..self }, Decision::Idle)
                }
            },
            Trigger::TaskRequested(task) => {
                if known {
                    (self, Decision::Idle)
                } else {
                    (self, Decision::RecomputeTask(task))
                }
            },
        }
    }

    /// A driver that has seen nothing yet.
    pub fn new(threshold: u64) -> (driver: EpochDriver)
        ensures
            driver == (EpochDriver { started: false, epoch: 0, threshold, drift: 0 }),
    {
        EpochDriver { started: false, epoch: 0, threshold, drift: 0 }
    }

    /// Takes a trigger and says what is to be done. `known` says whether
    /// the task of a request already has a committee.
    pub fn observe(&mut self, trigger: Trigger, known: bool) -> (decision: Decision)
        ensures
            (*final(self), decision) == old(self).step(trigger, known),
    {
        match trigger {
            Trigger::EpochBoundary(e) => {
                if !self.started || self.epoch < e {
                    self.started = true;
                    self.epoch = e;
                    self.drift = 0;
                    Decision::RecomputeAll
                } else {
                    Decision::Idle
                }
            },
            Trigger::RegistryDelta(delta) => {
                let drift: u64 = if delta > u64::MAX - self.drift {
                    u64::MAX
                } else {
                    self.drift + delta
                };
                if drift > 0 && drift >= self.threshold {
                    self.drift = 0;
                    Decision::RecomputeAll
                } else {
                    self.drift = drift;
                    Decision::Idle
                }
            },
            Trigger::TaskRequested(task) => {
                if known {
                    Decision::Idle
                } else {
                    Decision::RecomputeTask(task)
                }
            },
        }
    }
}

/// The epochs that the driver takes up are strictly increasing: after any
/// trigger the driver's epoch is not earlier than before, and an epoch
/// boundary leads to new committees only when its epoch is later than every
/// epoch seen.
pub proof fn lemma_driver_epochs_increase(driver: EpochDriver, trigger: Trigger, known: bool)
    ensures
        driver.started ==> driver.step(trigger, known).0.started && driver.epoch
            <= driver.step(trigger, known).0.epoch,
        (trigger matches Trigger::EpochBoundary(e) && driver.started && driver.step(
            trigger,
            known,
        ).1 == Decision::RecomputeAll) ==> driver.epoch < driver.step(trigger, known).0.epoch,
        driver.step(trigger, known).1 == Decision::RecomputeAll ==> driver.step(
            trigger,
            known,
        ).0.drift == 0,
{
}

} // verus!
