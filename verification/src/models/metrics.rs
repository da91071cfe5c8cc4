//! Counts of the tasks a simulation generated, completed and dropped.
use vstd::prelude::*;

verus! {

/// Tracks how many tasks were generated, and how many of them succeeded or were dropped.
#[derive(Debug, Default)]
pub struct SimulationMetrics {
    pub total_tasks_generated: usize,
    pub successful_tasks: usize,
    pub dropped_tasks: usize,
}

impl SimulationMetrics {
    /// Every generated task was recorded either as a success or as a drop.
    pub open spec fn balanced(&self) -> bool {
        self.total_tasks_generated == self.successful_tasks + self.dropped_tasks
    }

    /// Metrics with no task recorded.
    pub fn new() -> (m: Self)
        ensures
            m.total_tasks_generated == 0,
            m.successful_tasks == 0,
            m.dropped_tasks == 0,
            m.balanced(),
    {
        SimulationMetrics { total_tasks_generated: 0, successful_tasks: 0, dropped_tasks: 0 }
    }

    /// Records a successfully processed task.
    pub fn record_success(&mut self)
        requires
            old(self).total_tasks_generated < usize::MAX,
            old(self).successful_tasks < usize::MAX,
        ensures
            final(self).total_tasks_generated == old(self).total_tasks_generated + 1,
            final(self).successful_tasks == old(self).successful_tasks + 1,
            final(self).dropped_tasks == old(self).dropped_tasks,
            old(self).balanced() ==> final(self).balanced(),
    {
        self.total_tasks_generated = self.total_tasks_generated + 1;
        self.successful_tasks = self.successful_tasks + 1;
    }

    /// Records a task that was dropped due to latency constraints or lack of capacity.
    pub fn record_drop(&mut self)
        requires
            old(self).total_tasks_generated < usize::MAX,
            old(self).dropped_tasks < usize::MAX,
        ensures
            final(self).total_tasks_generated == old(self).total_tasks_generated + 1,
            final(self).dropped_tasks == old(self).dropped_tasks + 1,
            final(self).successful_tasks == old(self).successful_tasks,
            old(self).balanced() ==> final(self).balanced(),
    {
        self.total_tasks_generated = self.total_tasks_generated + 1;
        self.dropped_tasks = self.dropped_tasks + 1;
    }
}

} // verus!
