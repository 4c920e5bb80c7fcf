use vstd::prelude::*;

verus! {

/// What the scheduler reports when a request breaks one of its rules.
#[derive(Clone, Copy, Debug, PartialEq, Eq, Structural)]
pub enum SchedulerError {
    /// A delayed spawn was asked for a task that already has one pending.
    DuplicateSchedule,
    /// The resource lock was asked for while it is held.
    ReentrantLock,
    /// A task that needs the resource has waited for its holder longer than the configured bound.
    PriorityInversionRisk,
}

impl SchedulerError {
    /// The name of the error, as it is reported.
    pub fn name(&self) -> (s: &'static str)
        ensures
            s@ == self.spec_name(),
    {
        match self {
            SchedulerError::DuplicateSchedule => "DuplicateScheduleError",
            SchedulerError::ReentrantLock => "ReentrantLockError",
            SchedulerError::PriorityInversionRisk => "PriorityInversionRisk",
        }
    }

    /// The name of each error.
    pub open spec fn spec_name(&self) -> Seq<char> {
        match self {
            SchedulerError::DuplicateSchedule => "DuplicateScheduleError"@,
            SchedulerError::ReentrantLock => "ReentrantLockError"@,
            SchedulerError::PriorityInversionRisk => "PriorityInversionRisk"@,
        }
    }
}

} // verus!
