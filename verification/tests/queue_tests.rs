use tick_scheduler::error::SchedulerError;
use tick_scheduler::queue::TaskQueue;

#[test]
fn new_queue_has_nothing_pending() {
    let queue = TaskQueue::new(vec![3, 1, 2]);
    assert_eq!(queue.len(), 3);
    assert_eq!(queue.now(), 0);
    assert_eq!(queue.priority(0), 3);
    assert_eq!(queue.priority(2), 2);
    for task in 0..3 {
        assert_eq!(queue.deadline(task), None);
        assert!(!queue.is_pending(task));
    }
    assert!(!queue.is_pending(7));
    assert_eq!(queue.next_deadline(), None);
}

#[test]
fn schedule_records_deadline_after_current_tick() {
    let mut queue = TaskQueue::new(vec![1, 2]);
    assert_eq!(queue.advance(40), Vec::<usize>::new());
    assert_eq!(queue.now(), 40);
    assert_eq!(queue.schedule(1, 2), Ok(()));
    assert_eq!(queue.deadline(1), Some(42));
    assert_eq!(queue.deadline(0), None);
    assert!(queue.is_pending(1));
    assert!(!queue.is_pending(0));
    assert_eq!(queue.next_deadline(), Some(42));
}

#[test]
fn second_schedule_is_refused_and_first_stands() {
    let mut queue = TaskQueue::new(vec![1, 2]);
    assert_eq!(queue.schedule(0, 2000), Ok(()));
    assert_eq!(queue.schedule(0, 5), Err(SchedulerError::DuplicateSchedule));
    assert_eq!(queue.deadline(0), Some(2000));
    assert_eq!(queue.advance(1999), Vec::<usize>::new());
    assert_eq!(queue.advance(2000), vec![0]);
    assert_eq!(queue.advance(2001), Vec::<usize>::new());
}

#[test]
fn task_can_be_scheduled_again_once_handed_out() {
    let mut queue = TaskQueue::new(vec![1]);
    assert_eq!(queue.schedule(0, 10), Ok(()));
    assert_eq!(queue.advance(10), vec![0]);
    assert!(!queue.is_pending(0));
    assert_eq!(queue.schedule(0, 10), Ok(()));
    assert_eq!(queue.deadline(0), Some(20));
}

#[test]
fn distinct_tasks_are_each_handed_out_once_in_tick_order() {
    let mut queue = TaskQueue::new(vec![1, 1, 1, 1]);
    assert_eq!(queue.schedule(0, 300), Ok(()));
    assert_eq!(queue.schedule(1, 100), Ok(()));
    assert_eq!(queue.schedule(2, 200), Ok(()));
    assert_eq!(queue.schedule(3, 900), Ok(()));
    let mut order: Vec<(usize, u64)> = Vec::new();
    for tick in [50u64, 100, 150, 350, 350, 1000, 5000] {
        for task in queue.advance(tick) {
            order.push((task, tick));
        }
    }
    assert_eq!(order, vec![(1, 100), (2, 350), (0, 350), (3, 1000)]);
    for task in 0..4 {
        assert!(!queue.is_pending(task));
    }
}

#[test]
fn one_long_step_hands_out_what_many_short_steps_do() {
    let delays: [u64; 5] = [70, 10, 40, 10, 55];
    let mut stepped = TaskQueue::new(vec![1, 2, 3, 4, 5]);
    let mut jumped = TaskQueue::new(vec![1, 2, 3, 4, 5]);
    for task in 0..5 {
        assert_eq!(stepped.schedule(task, delays[task]), Ok(()));
        assert_eq!(jumped.schedule(task, delays[task]), Ok(()));
    }
    let mut seen: Vec<usize> = Vec::new();
    for tick in [5u64, 10, 20, 40, 54, 55, 60] {
        seen.extend(stepped.advance(tick));
    }
    assert_eq!(seen, vec![3, 1, 2, 4]);
    assert_eq!(jumped.advance(60), vec![3, 1, 2, 4]);
    assert_eq!(stepped.deadline(0), Some(70));
    assert_eq!(jumped.deadline(0), Some(70));
}

#[test]
fn same_tick_goes_by_priority_then_registration() {
    let mut queue = TaskQueue::new(vec![1, 5, 5, 9, 1]);
    for task in 0..5 {
        assert_eq!(queue.schedule(task, 100), Ok(()));
    }
    assert_eq!(queue.advance(100), vec![3, 1, 2, 0, 4]);
}

#[test]
fn earlier_deadline_goes_before_higher_priority() {
    let mut queue = TaskQueue::new(vec![1, 9]);
    assert_eq!(queue.schedule(0, 10), Ok(()));
    assert_eq!(queue.schedule(1, 11), Ok(()));
    assert_eq!(queue.advance(20), vec![0, 1]);
}

#[test]
fn due_at_leaves_the_queue_as_it_is() {
    let mut queue = TaskQueue::new(vec![2, 4]);
    assert_eq!(queue.schedule(0, 7), Ok(()));
    assert_eq!(queue.schedule(1, 7), Ok(()));
    assert_eq!(queue.due_at(6), Vec::<usize>::new());
    assert_eq!(queue.due_at(7), vec![1, 0]);
    assert_eq!(queue.now(), 0);
    assert!(queue.is_pending(0));
    assert!(queue.is_pending(1));
    assert_eq!(queue.advance(7), vec![1, 0]);
    assert_eq!(queue.due_at(7), Vec::<usize>::new());
}

#[test]
fn zero_delay_is_due_at_the_current_tick() {
    let mut queue = TaskQueue::new(vec![1]);
    assert_eq!(queue.advance(12), Vec::<usize>::new());
    assert_eq!(queue.schedule(0, 0), Ok(()));
    assert_eq!(queue.deadline(0), Some(12));
    assert_eq!(queue.advance(12), vec![0]);
}

#[test]
fn deadline_may_reach_the_last_tick() {
    let mut queue = TaskQueue::new(vec![1]);
    assert_eq!(queue.advance(1), Vec::<usize>::new());
    assert_eq!(queue.schedule(0, u64::MAX - 1), Ok(()));
    assert_eq!(queue.deadline(0), Some(u64::MAX));
    assert_eq!(queue.advance(u64::MAX - 1), Vec::<usize>::new());
    assert_eq!(queue.advance(u64::MAX), vec![0]);
}

#[test]
fn next_deadline_is_the_earliest_pending() {
    let mut queue = TaskQueue::new(vec![1, 1, 1]);
    assert_eq!(queue.schedule(0, 30), Ok(()));
    assert_eq!(queue.next_deadline(), Some(30));
    assert_eq!(queue.schedule(2, 20), Ok(()));
    assert_eq!(queue.next_deadline(), Some(20));
    assert_eq!(queue.schedule(1, 25), Ok(()));
    assert_eq!(queue.next_deadline(), Some(20));
    assert_eq!(queue.advance(20), vec![2]);
    assert_eq!(queue.next_deadline(), Some(25));
    assert_eq!(queue.advance(30), vec![1, 0]);
    assert_eq!(queue.next_deadline(), None);
}

#[test]
fn empty_registry_hands_out_nothing() {
    let mut queue = TaskQueue::new(Vec::new());
    assert_eq!(queue.len(), 0);
    assert_eq!(queue.advance(100), Vec::<usize>::new());
    assert_eq!(queue.next_deadline(), None);
}
