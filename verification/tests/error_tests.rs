use tick_scheduler::error::SchedulerError;

#[test]
fn errors_are_named() {
    assert_eq!(SchedulerError::DuplicateSchedule.name(), "DuplicateScheduleError");
    assert_eq!(SchedulerError::ReentrantLock.name(), "ReentrantLockError");
    assert_eq!(SchedulerError::PriorityInversionRisk.name(), "PriorityInversionRisk");
}

#[test]
fn errors_compare_by_variant() {
    assert_eq!(SchedulerError::ReentrantLock, SchedulerError::ReentrantLock);
    assert_ne!(SchedulerError::ReentrantLock, SchedulerError::DuplicateSchedule);
    assert_ne!(SchedulerError::PriorityInversionRisk, SchedulerError::DuplicateSchedule);
}
