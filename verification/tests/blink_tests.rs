use tick_scheduler::blink::{declarations, init, run, task1, task2, TASK1, TASK2, TICKS_PER_SECOND, USBD};
use tick_scheduler::dispatcher::{Dispatcher, Event, TaskDecl};
use tick_scheduler::error::SchedulerError;
use tick_scheduler::resource::Level;

#[test]
fn declarations_share_the_line_between_the_blinking_tasks() {
    let tasks = declarations(2);
    assert_eq!(
        tasks,
        vec![
            TaskDecl { priority: 2, shares_line: true },
            TaskDecl { priority: 2, shares_line: true },
            TaskDecl { priority: 2, shares_line: false },
        ]
    );
    assert_eq!((TASK1, TASK2, USBD), (0, 1, 2));
}

#[test]
fn init_makes_the_first_task_eligible() {
    let mut d = init(10);
    assert_eq!(d.task_count(), 3);
    assert_eq!(d.now(), 0);
    assert_eq!(d.level(), Level::High);
    assert!(!d.is_idle());
    assert_eq!(d.current(), None);
    assert_eq!(d.dispatch(), Some(TASK1));
    assert_eq!(d.dispatch(), None);
}

#[test]
fn blink_trace_alternates_with_period_1000() {
    let mut d = Dispatcher::new(declarations(2), Level::Low, 10);
    let mut trace: Vec<(usize, u64, Level)> = Vec::new();
    let mut next = d.on_event(Event::Interrupt(TASK1));
    for _ in 0..6 {
        let task = next.unwrap();
        assert_eq!(run(&mut d, task, 1000), Ok(()));
        trace.push((task, d.now(), d.level()));
        assert_eq!(d.complete(), Some(task));
        assert_eq!(d.dispatch(), None);
        let at = d.next_deadline().unwrap();
        assert_eq!(d.on_event(Event::Timer(at - 1)), None);
        next = d.on_event(Event::Timer(at));
    }
    assert_eq!(
        trace,
        vec![
            (TASK1, 0, Level::High),
            (TASK2, 1000, Level::Low),
            (TASK1, 2000, Level::High),
            (TASK2, 3000, Level::Low),
            (TASK1, 4000, Level::High),
            (TASK2, 5000, Level::Low),
        ]
    );
}

#[test]
fn second_request_for_task1_is_refused_and_first_fires_at_2000() {
    let mut d = Dispatcher::new(declarations(2), Level::Low, 10);
    assert_eq!(d.on_event(Event::Interrupt(TASK1)), Some(TASK1));
    assert_eq!(task1(&mut d, 1000), Ok(()));
    assert_eq!(d.complete(), Some(TASK1));
    assert_eq!(d.on_event(Event::Timer(1000)), Some(TASK2));
    assert_eq!(task2(&mut d, 1000), Ok(()));
    assert_eq!(d.complete(), Some(TASK2));
    assert_eq!(d.next_deadline(), Some(2000));

    assert_eq!(d.on_event(Event::Timer(1500)), None);
    assert_eq!(d.on_event(Event::Interrupt(USBD)), Some(USBD));
    assert_eq!(d.schedule(TASK1, 7), Err(SchedulerError::DuplicateSchedule));
    assert_eq!(d.complete(), Some(USBD));
    assert!(d.is_pending(TASK1));
    assert_eq!(d.next_deadline(), Some(2000));

    assert_eq!(d.on_event(Event::Timer(1507)), None);
    assert_eq!(d.on_event(Event::Timer(1999)), None);
    assert_eq!(d.on_event(Event::Timer(2000)), Some(TASK1));
    assert_eq!(task1(&mut d, 1000), Ok(()));
    assert_eq!(d.level(), Level::High);
    assert_eq!(d.complete(), Some(TASK1));
    assert_eq!(d.on_event(Event::Timer(2999)), None);
    assert!(!d.is_pending(TASK1));
}

#[test]
fn turn_drives_the_line_even_when_the_request_is_refused() {
    let mut d = Dispatcher::new(declarations(1), Level::Low, 10);
    assert_eq!(d.schedule(TASK2, 500), Ok(()));
    assert_eq!(d.on_event(Event::Interrupt(TASK1)), Some(TASK1));
    assert_eq!(task1(&mut d, 1000), Err(SchedulerError::DuplicateSchedule));
    assert_eq!(d.level(), Level::High);
    assert_eq!(d.next_deadline(), Some(500));
}

#[test]
fn turn_inside_a_held_lock_is_refused_and_changes_nothing() {
    let mut d = Dispatcher::new(declarations(1), Level::Low, 10);
    assert_eq!(d.on_event(Event::Interrupt(TASK1)), Some(TASK1));
    assert_eq!(d.acquire(), Ok(1));
    assert_eq!(task1(&mut d, 1000), Err(SchedulerError::ReentrantLock));
    assert_eq!(d.level(), Level::Low);
    assert!(!d.is_pending(TASK2));
}

#[test]
fn one_second_is_64_million_ticks() {
    assert_eq!(TICKS_PER_SECOND, 64_000_000);
    let mut d = init(10);
    assert_eq!(d.dispatch(), Some(TASK1));
    assert_eq!(task1(&mut d, TICKS_PER_SECOND), Ok(()));
    assert_eq!(d.level(), Level::High);
    assert_eq!(d.next_deadline(), Some(64_000_000));
    assert_eq!(d.complete(), Some(TASK1));
    assert_eq!(d.on_event(Event::Timer(64_000_000)), Some(TASK2));
    assert_eq!(task2(&mut d, TICKS_PER_SECOND), Ok(()));
    assert_eq!(d.level(), Level::Low);
    assert_eq!(d.next_deadline(), Some(128_000_000));
}

#[test]
fn run_picks_the_body_of_the_started_task() {
    let mut d = Dispatcher::new(declarations(1), Level::Low, 10);
    assert_eq!(d.on_event(Event::Interrupt(USBD)), Some(USBD));
    assert_eq!(run(&mut d, USBD, 1000), Ok(()));
    assert_eq!(d.level(), Level::Low);
    assert_eq!(d.next_deadline(), None);
    assert_eq!(d.complete(), Some(USBD));

    assert_eq!(d.on_event(Event::Interrupt(TASK2)), Some(TASK2));
    assert_eq!(run(&mut d, TASK2, 30), Ok(()));
    assert_eq!(d.level(), Level::Low);
    assert!(d.is_pending(TASK1));
    assert_eq!(d.next_deadline(), Some(30));
    assert_eq!(d.complete(), Some(TASK2));

    assert_eq!(d.on_event(Event::Timer(30)), Some(TASK1));
    assert_eq!(run(&mut d, TASK1, 30), Ok(()));
    assert_eq!(d.level(), Level::High);
    assert!(d.is_pending(TASK2));
    assert_eq!(d.next_deadline(), Some(60));
}
