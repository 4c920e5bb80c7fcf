//! The blinking line: two timer-driven tasks that take turns. The first drives
//! the line high and schedules the second, the second drives it low and
//! schedules the first.

use crate::dispatcher::{Dispatcher, DispatcherModel, TaskDecl};
use crate::error::SchedulerError;
use crate::queue::TaskId;
use crate::resource::{Level, OutputLine};
use vstd::prelude::*;

verus! {

/// The task that drives the line high.
pub const TASK1: TaskId = 0;

/// The task that drives the line low.
pub const TASK2: TaskId = 1;

/// The task bound to the interrupt of the serial port. It does not use the line.
pub const USBD: TaskId = 2;

/// The ticks of the monotonic timer in one second.
pub const TICKS_PER_SECOND: u64 = 64_000_000;

/// The lowest priority a task can be declared with.
pub const BASE_PRIORITY: u8 = 1;

/// What one turn answers and the dispatcher it leaves. The line is driven
/// first, then the other task is scheduled: where the lock is refused nothing
/// happens, and where the request is refused the line has been driven all the
/// same.
pub open spec fn turn(pre: DispatcherModel, level: Level, other: TaskId, period: u64) -> (
    Result<(), SchedulerError>,
    DispatcherModel,
) {
    if pre.cell.is_held() {
        (Err(SchedulerError::ReentrantLock), pre)
    } else {
        (
            pre.with_level(level).queue.schedule(other as int, period).0,
            pre.with_level(level).scheduled(other, period),
        )
    }
}

/// The three tasks, in registration order, each at `priority`: the two that
/// blink share the line, the one of the serial port does not.
pub fn declarations(priority: u8) -> (tasks: Vec<TaskDecl>)
    ensures
        tasks@ == seq![
            TaskDecl { priority, shares_line: true },
            TaskDecl { priority, shares_line: true },
            TaskDecl { priority, shares_line: false },
        ],
{
    let mut tasks: Vec<TaskDecl> = Vec::new();
    tasks.push(TaskDecl { priority, shares_line: true });
    tasks.push(TaskDecl { priority, shares_line: true });
    tasks.push(TaskDecl { priority, shares_line: false });
    assert(tasks@ =~= seq![
        TaskDecl { priority, shares_line: true },
        TaskDecl { priority, shares_line: true },
        TaskDecl { priority, shares_line: false },
    ]);
    tasks
}

/// The scheduler context at start-up: the three tasks at the base priority,
/// the line driven high, the clock at tick 0, and the first task eligible.
pub fn init(bound: u64) -> (dispatcher: Dispatcher)
    ensures
        dispatcher.wf(),
        dispatcher@.queue.priorities == seq![BASE_PRIORITY, BASE_PRIORITY, BASE_PRIORITY],
        dispatcher@.queue.deadlines == seq![None::<u64>, None::<u64>, None::<u64>],
        dispatcher@.queue.now == 0,
        dispatcher@.shares == seq![true, true, false],
        dispatcher@.ready == seq![crate::dispatcher::Ready { task: TASK1, since: 0 }],
        dispatcher@.running == Seq::<TaskId>::empty(),
        dispatcher@.cell.level == Level::High,
        dispatcher@.cell.lease is None,
        dispatcher@.bound == bound,
{
    let tasks = declarations(BASE_PRIORITY);
    let mut dispatcher = Dispatcher::new(tasks, Level::High, bound);
    proof {
        dispatcher.lemma_wf_view();
        assert(dispatcher@.queue.priorities =~= seq![BASE_PRIORITY, BASE_PRIORITY, BASE_PRIORITY]);
        assert(dispatcher@.queue.deadlines =~= seq![None::<u64>, None::<u64>, None::<u64>]);
        assert(dispatcher@.shares =~= seq![true, true, false]);
    }
    dispatcher.spawn(TASK1);
    assert(dispatcher@.ready =~= seq![crate::dispatcher::Ready { task: TASK1, since: 0 }]);
    dispatcher
}

/// One turn of the executing task: it drives the line to `level` inside a
/// critical section and then asks for `other` to run `period` ticks from now.
fn take_turn(dispatcher: &mut Dispatcher, level: Level, other: TaskId, period: u64) -> (outcome: Result<
    (),
    SchedulerError,
>)
    requires
        old(dispatcher).wf(),
        old(dispatcher)@.running.len() > 0,
        old(dispatcher)@.shares[old(dispatcher)@.running.last() as int],
        old(dispatcher)@.queue.registered(other as int),
        old(dispatcher)@.queue.now + period <= u64::MAX,
    ensures
        final(dispatcher).wf(),
        (outcome, final(dispatcher)@) == turn(old(dispatcher)@, level, other, period),
{
    let drive = |line: OutputLine| -> (out: OutputLine)
        ensures
            out@ == level,
        {
            let mut line = line;
            line.set(level);
            line
        };
    match dispatcher.lock(drive) {
        Err(e) => Err(e),
        Ok(()) => dispatcher.schedule(other, period),
    }
}

/// The body of the first task: the line goes high, and the second task is
/// scheduled `period` ticks from now.
pub fn task1(dispatcher: &mut Dispatcher, period: u64) -> (outcome: Result<(), SchedulerError>)
    requires
        old(dispatcher).wf(),
        old(dispatcher)@.current() == Some(TASK1),
        old(dispatcher)@.shares[TASK1 as int],
        old(dispatcher)@.queue.registered(TASK2 as int),
        old(dispatcher)@.queue.now + period <= u64::MAX,
    ensures
        final(dispatcher).wf(),
        (outcome, final(dispatcher)@) == turn(old(dispatcher)@, Level::High, TASK2, period),
{
    take_turn(dispatcher, Level::High, TASK2, period)
}

/// The body of the second task: the line goes low, and the first task is
/// scheduled `period` ticks from now.
pub fn task2(dispatcher: &mut Dispatcher, period: u64) -> (outcome: Result<(), SchedulerError>)
    requires
        old(dispatcher).wf(),
        old(dispatcher)@.current() == Some(TASK2),
        old(dispatcher)@.shares[TASK2 as int],
        old(dispatcher)@.queue.registered(TASK1 as int),
        old(dispatcher)@.queue.now + period <= u64::MAX,
    ensures
        final(dispatcher).wf(),
        (outcome, final(dispatcher)@) == turn(old(dispatcher)@, Level::Low, TASK1, period),
{
    take_turn(dispatcher, Level::Low, TASK1, period)
}

/// What the body of `task` answers and the dispatcher it leaves: the two
/// blinking tasks take their turn, the task of the serial port does nothing.
pub open spec fn body_of(pre: DispatcherModel, task: TaskId, period: u64) -> (
    Result<(), SchedulerError>,
    DispatcherModel,
) {
    if task == TASK1 {
        turn(pre, Level::High, TASK2, period)
    } else if task == TASK2 {
        turn(pre, Level::Low, TASK1, period)
    } else {
        (Ok(()), pre)
    }
}

/// Runs the body of the task that the dispatcher has just started.
pub fn run(dispatcher: &mut Dispatcher, task: TaskId, period: u64) -> (outcome: Result<(), SchedulerError>)
    requires
        old(dispatcher).wf(),
        old(dispatcher)@.current() == Some(task),
        task == TASK1 || task == TASK2 ==> {
            &&& old(dispatcher)@.shares[task as int]
            &&& old(dispatcher)@.queue.registered(TASK1 as int)
            &&& old(dispatcher)@.queue.registered(TASK2 as int)
            &&& old(dispatcher)@.queue.now + period <= u64::MAX
        },
    ensures
        final(dispatcher).wf(),
        (outcome, final(dispatcher)@) == body_of(old(dispatcher)@, task, period),
{
    if task == TASK1 {
        task1(dispatcher, period)
    } else if task == TASK2 {
        task2(dispatcher, period)
    } else {
        Ok(())
    }
}

/// The task that takes the next turn after `task`.
pub open spec fn other(task: TaskId) -> TaskId {
    if task == TASK1 {
        TASK2
    } else {
        TASK1
    }
}

/// The level that `task` drives the line to.
pub open spec fn level_of(task: TaskId) -> Level {
    if task == TASK1 {
        Level::High
    } else {
        Level::Low
    }
}

/// The dispatcher rests between two turns: nothing runs, nothing is eligible,
/// the line is free, and the only pending request is the one of `task`, for
/// `tick`.
pub open spec fn resting(model: DispatcherModel, task: TaskId, tick: u64) -> bool {
    &&& model.wf()
    &&& model.queue.registered(TASK1 as int)
    &&& model.queue.registered(TASK2 as int)
    &&& model.shares[TASK1 as int]
    &&& model.shares[TASK2 as int]
    &&& model.running.len() == 0
    &&& model.ready.len() == 0
    &&& !model.cell.is_held()
    &&& model.queue.now <= tick
    &&& model.queue.deadlines[task as int] == Some(tick)
    &&& forall|t: int| #[trigger] model.queue.is_pending(t) ==> t == task
}

/// The blinking goes on with the period for ever: from rest with the request of
/// one of the two tasks pending for `tick`, the timer at `tick` makes that task
/// eligible and it is started; its turn succeeds and drives the line to its
/// level; and when it has finished the dispatcher rests again, now with the
/// request of the other task pending one period later.
pub proof fn law_blink_is_periodic(pre: DispatcherModel, task: TaskId, tick: u64, period: u64)
    requires
        resting(pre, task, tick),
        task == TASK1 || task == TASK2,
        tick + period <= u64::MAX,
    ensures
        pre.queue.surfaces(tick, seq![task]),
        pre.ticked(tick, seq![task]).selects(0),
        pre.ticked(tick, seq![task]).started(0).current() == Some(task),
        turn(pre.ticked(tick, seq![task]).started(0), level_of(task), other(task), period).0 is Ok,
        turn(pre.ticked(tick, seq![task]).started(0), level_of(task), other(task), period).1.cell.level == level_of(
            task,
        ),
        resting(
            turn(pre.ticked(tick, seq![task]).started(0), level_of(task), other(task), period).1.completed(),
            other(task),
            (tick + period) as u64,
        ),
{
    let due = seq![task];
    assert(pre.queue.is_pending(task as int));
    assert(pre.queue.surfaces(tick, due)) by {
        assert(due[0] == task);
        assert forall|t: int| #[trigger] pre.queue.is_due(t, tick) implies exists|i: int|
            0 <= i < due.len() && due[i] == t by {
            assert(pre.queue.is_pending(t));
            assert(due[0] == t);
        }
    }
    let woken = pre.ticked(tick, due);
    pre.lemma_ticked_wf(tick, due);
    assert(woken.ready =~= seq![crate::dispatcher::Ready { task, since: tick }]);
    assert(woken.selects(0));
    let started = woken.started(0);
    woken.lemma_started_wf(0);
    assert(started.running =~= seq![task]);
    assert(started.ready =~= Seq::<crate::dispatcher::Ready>::empty());
    let driven = started.with_level(level_of(task));
    started.lemma_released_wf(level_of(task));
    assert(!started.queue.is_pending(other(task) as int)) by {
        if pre.queue.is_pending(other(task) as int) {
            assert(other(task) == task);
        }
    }
    let turned = turn(started, level_of(task), other(task), period).1;
    assert(turned == driven.scheduled(other(task), period));
    driven.lemma_scheduled_wf(other(task), period);
    let rested = turned.completed();
    turned.lemma_completed_wf();
    assert(rested.running =~= Seq::<TaskId>::empty());
    assert forall|t: int| #[trigger] rested.queue.is_pending(t) implies t == other(task) by {
        if t != other(task) {
            assert(rested.queue.deadlines[t] == woken.queue.deadlines[t]);
            if t != task {
                assert(!pre.queue.is_pending(t));
            }
        }
    }
}

} // verus!
