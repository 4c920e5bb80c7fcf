use tick_scheduler::error::SchedulerError;
use tick_scheduler::resource::{Lease, Level, OutputLine, ResourceCell};

#[test]
fn line_keeps_the_level_it_was_driven_to() {
    let mut line = OutputLine::new(Level::Low);
    assert_eq!(line.level(), Level::Low);
    assert!(!line.is_high());
    line.set_high();
    assert_eq!(line.level(), Level::High);
    assert!(line.is_high());
    line.set_low();
    assert_eq!(line.level(), Level::Low);
    line.set(Level::High);
    assert_eq!(line.level(), Level::High);
}

#[test]
fn high_then_low_twice_leaves_low() {
    let mut cell = ResourceCell::new(Level::High, 1);
    for _ in 0..2 {
        assert_eq!(
            cell.lock(0, 1, |mut line| {
                line.set(Level::High);
                line
            }),
            Ok(())
        );
        assert_eq!(cell.read(), Level::High);
        assert_eq!(
            cell.lock(0, 1, |mut line| {
                line.set(Level::Low);
                line
            }),
            Ok(())
        );
        assert_eq!(cell.read(), Level::Low);
    }
    assert_eq!(cell.read(), Level::Low);
}

#[test]
fn new_cell_is_free() {
    let cell = ResourceCell::new(Level::Low, 4);
    assert_eq!(cell.read(), Level::Low);
    assert_eq!(cell.ceiling(), 4);
    assert_eq!(cell.holder(), None);
    assert_eq!(cell.floor(), None);
}

#[test]
fn acquire_raises_floor_to_ceiling_and_release_hands_prior_back() {
    let mut cell = ResourceCell::new(Level::Low, 4);
    assert_eq!(cell.acquire(7, 2), Ok(4));
    assert_eq!(cell.holder(), Some(7));
    assert_eq!(cell.floor(), Some(4));
    assert_eq!(cell.release(), Some(Lease { holder: 7, prior_floor: 2 }));
    assert_eq!(cell.holder(), None);
    assert_eq!(cell.floor(), None);
    assert_eq!(cell.release(), None);
}

#[test]
fn floor_above_ceiling_is_kept() {
    let mut cell = ResourceCell::new(Level::Low, 4);
    assert_eq!(cell.acquire(1, 9), Ok(9));
    assert_eq!(cell.floor(), Some(9));
    assert_eq!(cell.release(), Some(Lease { holder: 1, prior_floor: 9 }));
    assert_eq!(cell.acquire(1, 4), Ok(4));
}

#[test]
fn second_acquire_is_reentrant_and_changes_nothing() {
    let mut cell = ResourceCell::new(Level::High, 3);
    assert_eq!(cell.acquire(0, 1), Ok(3));
    assert_eq!(cell.acquire(0, 1), Err(SchedulerError::ReentrantLock));
    assert_eq!(cell.acquire(5, 2), Err(SchedulerError::ReentrantLock));
    assert_eq!(cell.holder(), Some(0));
    assert_eq!(cell.floor(), Some(3));
    assert_eq!(cell.read(), Level::High);
}

#[test]
fn lock_while_held_does_not_run_body() {
    let mut cell = ResourceCell::new(Level::High, 3);
    assert_eq!(cell.acquire(0, 1), Ok(3));
    let outcome = cell.lock(0, 1, |mut line| {
        line.set_low();
        line
    });
    assert_eq!(outcome, Err(SchedulerError::ReentrantLock));
    assert_eq!(cell.read(), Level::High);
    assert_eq!(cell.holder(), Some(0));
}

#[test]
fn set_works_only_for_the_holder() {
    let mut cell = ResourceCell::new(Level::Low, 3);
    assert!(!cell.set(0, Level::High));
    assert_eq!(cell.read(), Level::Low);
    assert_eq!(cell.acquire(0, 1), Ok(3));
    assert!(!cell.set(1, Level::High));
    assert_eq!(cell.read(), Level::Low);
    assert!(cell.set(0, Level::High));
    assert_eq!(cell.read(), Level::High);
    assert_eq!(cell.holder(), Some(0));
}

#[test]
fn second_body_sees_what_the_first_left() {
    let mut cell = ResourceCell::new(Level::Low, 1);
    let mut seen: Vec<Level> = Vec::new();
    let flip = |line: OutputLine| {
        if line.is_high() {
            OutputLine::new(Level::Low)
        } else {
            OutputLine::new(Level::High)
        }
    };
    for _ in 0..3 {
        assert_eq!(cell.lock(0, 1, flip), Ok(()));
        seen.push(cell.read());
    }
    assert_eq!(seen, vec![Level::High, Level::Low, Level::High]);
    assert_eq!(cell.holder(), None);
}

#[test]
fn body_that_leaves_the_line_alone_changes_nothing() {
    let mut cell = ResourceCell::new(Level::High, 1);
    assert_eq!(cell.lock(2, 1, |line| line), Ok(()));
    assert_eq!(cell.read(), Level::High);
    assert_eq!(cell.holder(), None);
    assert_eq!(cell.ceiling(), 1);
}
