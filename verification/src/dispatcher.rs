//! The dispatcher: which task runs next, given the requests that have come due,
//! the interrupts that have fired, the tasks that are running and the lock.

use crate::error::SchedulerError;
use crate::queue::{QueueModel, TaskId, TaskQueue};
use crate::resource::{CellModel, Lease, Level, OutputLine, ResourceCell};
use vstd::prelude::*;

verus! {

/// The static declaration of a task.
#[derive(Clone, Copy, Debug, PartialEq, Eq, Structural)]
pub struct TaskDecl {
    /// A task preempts every task of a smaller priority.
    pub priority: u8,
    /// Whether the task uses the shared line.
    pub shares_line: bool,
}

/// A task that is eligible and waits to be started.
#[derive(Clone, Copy, Debug, PartialEq, Eq, Structural)]
pub struct Ready {
    /// The task that waits.
    pub task: TaskId,
    /// The tick at which it became eligible.
    pub since: u64,
}

/// What the dispatcher reacts to.
#[derive(Clone, Copy, Debug, PartialEq, Eq, Structural)]
pub enum Event {
    /// The interrupt that the task is bound to has fired.
    Interrupt(TaskId),
    /// The timer has reached the given tick.
    Timer(u64),
}

/// The mathematical content of a [`Dispatcher`].
pub struct DispatcherModel {
    /// Priorities, pending requests and the clock.
    pub queue: QueueModel,
    /// For each task whether it uses the shared line.
    pub shares: Seq<bool>,
    /// The eligible tasks, in the order in which they became eligible.
    pub ready: Seq<Ready>,
    /// The tasks that have been started and not finished: the last one executes,
    /// each of the others was preempted by the one after it.
    pub running: Seq<TaskId>,
    /// The shared line and its lock.
    pub cell: CellModel,
    /// For how many ticks a task that uses the line may wait for a holder of
    /// lower priority before this counts as a priority inversion.
    pub bound: u64,
}

impl DispatcherModel {
    /// The static priority of `task`.
    pub open spec fn priority(self, task: TaskId) -> u8 {
        self.queue.priorities[task as int]
    }

    /// `ceiling` is the highest priority among the tasks that use the line, or 0
    /// where none does.
    pub open spec fn is_ceiling(self, ceiling: u8) -> bool {
        &&& forall|task: int|
            0 <= task < self.shares.len() && #[trigger] self.shares[task] ==> self.queue.priorities[task]
                <= ceiling
        &&& ceiling == 0 || exists|task: int|
            0 <= task < self.shares.len() && #[trigger] self.shares[task] && self.queue.priorities[task]
                == ceiling
    }

    /// The invariant of the dispatcher.
    pub open spec fn wf(self) -> bool {
        &&& self.queue.wf()
        &&& self.shares.len() == self.queue.priorities.len()
        &&& self.is_ceiling(self.cell.ceiling)
        &&& forall|i: int|
            0 <= i < self.ready.len() ==> self.queue.registered((#[trigger] self.ready[i]).task as int)
                && self.ready[i].since <= self.queue.now
        &&& forall|i: int| 0 <= i < self.running.len() ==> self.queue.registered(#[trigger] self.running[i] as int)
        &&& forall|i: int, j: int|
            0 <= i < j < self.running.len() ==> self.priority(#[trigger] self.running[i]) < self.priority(
                #[trigger] self.running[j],
            )
        &&& match self.cell.lease {
            None => true,
            Some(lease) => exists|k: int| #[trigger] self.holds_at(lease, k),
        }
    }

    /// The holder of `lease` stands at place `k` among the running tasks, it
    /// uses the line, and whatever preempted it outranks the ceiling.
    pub open spec fn holds_at(self, lease: Lease, k: int) -> bool {
        &&& 0 <= k < self.running.len()
        &&& self.running[k] == lease.holder
        &&& self.shares[lease.holder as int]
        &&& lease.prior_floor == self.priority(lease.holder)
        &&& forall|j: int| k < j < self.running.len() ==> self.priority(#[trigger] self.running[j]) > self.cell.ceiling
    }

    /// The task that executes, if one does.
    pub open spec fn current(self) -> Option<TaskId> {
        if self.running.len() > 0 {
            Some(self.running.last())
        } else {
            None
        }
    }

    /// The priority that a task has to exceed to be started: the larger of the
    /// priority of the executing task and the floor of the lock. None when the
    /// processor is idle and the line is free.
    pub open spec fn threshold(self) -> Option<u8> {
        match (self.current(), self.cell.floor()) {
            (None, floor) => floor,
            (Some(task), None) => Some(self.priority(task)),
            (Some(task), Some(floor)) => Some(
                if self.priority(task) >= floor {
                    self.priority(task)
                } else {
                    floor
                },
            ),
        }
    }

    /// Whether `task` would be started now if it were eligible.
    pub open spec fn may_start(self, task: TaskId) -> bool {
        match self.threshold() {
            None => true,
            Some(floor) => self.priority(task) > floor,
        }
    }

    /// The eligible task at place `i` is the one to start: it may start, no
    /// eligible task has a higher priority, and of those with its priority it has
    /// waited longest.
    pub open spec fn selects(self, i: int) -> bool {
        &&& 0 <= i < self.ready.len()
        &&& self.may_start(self.ready[i].task)
        &&& forall|j: int|
            0 <= j < self.ready.len() ==> self.priority((#[trigger] self.ready[j]).task) <= self.priority(
                self.ready[i].task,
            )
        &&& forall|j: int|
            0 <= j < i ==> self.priority((#[trigger] self.ready[j]).task) < self.priority(self.ready[i].task)
    }

    /// The dispatcher after `task` has become eligible at the current tick.
    pub open spec fn spawned(self, task: TaskId) -> DispatcherModel {
        DispatcherModel { ready: self.ready.push(Ready { task, since: self.queue.now }), ..self }
    }

    /// The dispatcher after the clock has reached `tick` and the tasks in `due`
    /// have become eligible, each since its deadline.
    pub open spec fn ticked(self, tick: u64, due: Seq<TaskId>) -> DispatcherModel {
        DispatcherModel {
            queue: self.queue.advance(tick),
            ready: self.ready + Seq::new(
                due.len(),
                |i: int| Ready { task: due[i], since: self.queue.deadlines[due[i] as int].unwrap() },
            ),
            ..self
        }
    }

    /// The dispatcher after the eligible task at place `i` has been started.
    pub open spec fn started(self, i: int) -> DispatcherModel {
        DispatcherModel { ready: self.ready.remove(i), running: self.running.push(self.ready[i].task), ..self }
    }

    /// What `dispatch` answers and the dispatcher it leaves.
    pub open spec fn dispatch(self, next: Option<TaskId>, post: DispatcherModel) -> bool {
        match next {
            Some(task) => exists|i: int| #[trigger] self.selects(i) && self.ready[i].task == task && post == self.started(i),
            None => post == self && forall|i: int| 0 <= i < self.ready.len() ==> !self.may_start((#[trigger] self.ready[i]).task),
        }
    }

    /// The dispatcher after the executing task has finished: the task it had
    /// preempted executes again, and a lock it still held is released.
    pub open spec fn completed(self) -> DispatcherModel {
        if self.running.len() == 0 {
            self
        } else {
            DispatcherModel {
                running: self.running.drop_last(),
                cell: if self.holds_line(self.running.last()) {
                    self.cell.release().1
                } else {
                    self.cell
                },
                ..self
            }
        }
    }

    /// Whether `task` holds the lock.
    pub open spec fn holds_line(self, task: TaskId) -> bool {
        self.cell.lease is Some && self.cell.lease.unwrap().holder == task
    }

    /// An eligible task that uses the line outranks its holder `holder` and has
    /// waited for more than the bound.
    pub open spec fn starved_at(self, holder: TaskId, i: int) -> bool {
        &&& 0 <= i < self.ready.len()
        &&& self.shares[self.ready[i].task as int]
        &&& self.priority(self.ready[i].task) > self.priority(holder)
        &&& self.queue.now - self.ready[i].since > self.bound
    }

    /// Whether a priority inversion has lasted longer than the bound.
    pub open spec fn inversion_risk(self) -> bool {
        match self.cell.lease {
            Some(lease) => exists|i: int| #[trigger] self.starved_at(lease.holder, i),
            None => false,
        }
    }

    /// The dispatcher after `schedule` has been asked for `task`.
    pub open spec fn scheduled(self, task: TaskId, delay: u64) -> DispatcherModel {
        DispatcherModel { queue: self.queue.schedule(task as int, delay).1, ..self }
    }

    /// The lock still has its place when only the queue's requests, the clock
    /// and the eligible tasks have changed.
    proof fn lemma_lease_stays(self, post: DispatcherModel)
        requires
            self.wf(),
            post.queue.priorities == self.queue.priorities,
            post.shares == self.shares,
            post.running == self.running,
            post.cell.ceiling == self.cell.ceiling,
            post.cell.lease == self.cell.lease,
        ensures
            post.is_ceiling(post.cell.ceiling),
            forall|i: int| 0 <= i < post.running.len() ==> post.queue.registered(#[trigger] post.running[i] as int),
            forall|i: int, j: int|
                0 <= i < j < post.running.len() ==> post.priority(#[trigger] post.running[i]) < post.priority(
                    #[trigger] post.running[j],
                ),
            match post.cell.lease {
                None => true,
                Some(lease) => exists|k: int| #[trigger] post.holds_at(lease, k),
            },
    {
        if self.cell.ceiling != 0 {
            let t = choose|t: int|
                0 <= t < self.shares.len() && #[trigger] self.shares[t] && self.queue.priorities[t]
                    == self.cell.ceiling;
            assert(post.shares[t] && post.queue.priorities[t] == post.cell.ceiling);
        }
        assert forall|i: int, j: int| 0 <= i < j < post.running.len() implies post.priority(
            #[trigger] post.running[i],
        ) < post.priority(#[trigger] post.running[j]) by {
            assert(self.priority(self.running[i]) < self.priority(self.running[j]));
        }
        if self.cell.lease is Some {
            let lease = self.cell.lease.unwrap();
            let k = choose|k: int| #[trigger] self.holds_at(lease, k);
            assert forall|j: int| k < j < post.running.len() implies post.priority(#[trigger] post.running[j])
                > post.cell.ceiling by {
                assert(self.priority(self.running[j]) > self.cell.ceiling);
            }
            assert(post.holds_at(lease, k));
        }
    }

    /// The invariant holds after `schedule`.
    pub proof fn lemma_scheduled_wf(self, task: TaskId, delay: u64)
        requires
            self.wf(),
            self.queue.registered(task as int),
        ensures
            self.scheduled(task, delay).wf(),
    {
        let post = self.scheduled(task, delay);
        self.lemma_lease_stays(post);
        assert forall|i: int| 0 <= i < post.ready.len() implies post.queue.registered(
            (#[trigger] post.ready[i]).task as int,
        ) && post.ready[i].since <= post.queue.now by {
            assert(self.queue.registered(self.ready[i].task as int));
        }
    }

    /// The invariant holds after a task has become eligible.
    pub proof fn lemma_spawned_wf(self, task: TaskId)
        requires
            self.wf(),
            self.queue.registered(task as int),
        ensures
            self.spawned(task).wf(),
    {
        let post = self.spawned(task);
        self.lemma_lease_stays(post);
        assert forall|i: int| 0 <= i < post.ready.len() implies post.queue.registered(
            (#[trigger] post.ready[i]).task as int,
        ) && post.ready[i].since <= post.queue.now by {
            if i < self.ready.len() {
                assert(post.ready[i] == self.ready[i]);
                assert(self.queue.registered(self.ready[i].task as int));
            }
        }
    }

    /// The invariant holds after the clock has moved on.
    pub proof fn lemma_ticked_wf(self, tick: u64, due: Seq<TaskId>)
        requires
            self.wf(),
            self.queue.now <= tick,
            self.queue.surfaces(tick, due),
        ensures
            self.ticked(tick, due).wf(),
    {
        let post = self.ticked(tick, due);
        self.lemma_lease_stays(post);
        assert forall|i: int| 0 <= i < post.ready.len() implies post.queue.registered(
            (#[trigger] post.ready[i]).task as int,
        ) && post.ready[i].since <= post.queue.now by {
            if i < self.ready.len() {
                assert(post.ready[i] == self.ready[i]);
                assert(self.queue.registered(self.ready[i].task as int));
            } else {
                let k = i - self.ready.len();
                assert(self.queue.is_due(due[k] as int, tick));
            }
        }
    }

    /// What `acquire` answers and the dispatcher it leaves: the executing task
    /// asks for the lock at its own priority.
    pub open spec fn acquired(self) -> (Result<u8, SchedulerError>, DispatcherModel) {
        let task = self.running.last();
        let step = self.cell.acquire(task, self.priority(task));
        (step.0, DispatcherModel { cell: step.1, ..self })
    }

    /// The dispatcher after the lock has been released.
    pub open spec fn released(self) -> DispatcherModel {
        DispatcherModel { cell: self.cell.release().1, ..self }
    }

    /// The dispatcher with the line at `level`.
    pub open spec fn with_level(self, level: Level) -> DispatcherModel {
        DispatcherModel { cell: self.cell.with_level(level), ..self }
    }

    /// The invariant holds after a task has been started.
    pub proof fn lemma_started_wf(self, i: int)
        requires
            self.wf(),
            self.selects(i),
        ensures
            self.started(i).wf(),
    {
        let post = self.started(i);
        let task = self.ready[i].task;
        assert(self.queue.registered(self.ready[i].task as int));
        assert forall|j: int| 0 <= j < post.ready.len() implies post.queue.registered(
            (#[trigger] post.ready[j]).task as int,
        ) && post.ready[j].since <= post.queue.now by {
            let from = if j < i { j } else { j + 1 };
            assert(post.ready[j] == self.ready[from]);
            assert(self.queue.registered(self.ready[from].task as int));
        }
        assert forall|j: int| 0 <= j < post.running.len() implies post.queue.registered(
            #[trigger] post.running[j] as int,
        ) by {
            if j < self.running.len() {
                assert(self.queue.registered(self.running[j] as int));
            }
        }
        assert forall|a: int, b: int| 0 <= a < b < post.running.len() implies post.priority(
            #[trigger] post.running[a],
        ) < post.priority(#[trigger] post.running[b]) by {
            if b < self.running.len() {
                assert(self.priority(self.running[a]) < self.priority(self.running[b]));
            } else if a < self.running.len() - 1 {
                assert(self.priority(self.running[a]) < self.priority(self.running[self.running.len() - 1]));
            }
        }
        if self.cell.ceiling != 0 {
            let t = choose|t: int|
                0 <= t < self.shares.len() && #[trigger] self.shares[t] && self.queue.priorities[t]
                    == self.cell.ceiling;
            assert(post.shares[t] && post.queue.priorities[t] == post.cell.ceiling);
        }
        if self.cell.lease is Some {
            let lease = self.cell.lease.unwrap();
            let k = choose|k: int| #[trigger] self.holds_at(lease, k);
            assert forall|j: int| k < j < post.running.len() implies post.priority(#[trigger] post.running[j])
                > post.cell.ceiling by {
                if j < self.running.len() {
                    assert(self.priority(self.running[j]) > self.cell.ceiling);
                }
            }
            assert(post.holds_at(lease, k));
        }
    }

    /// The invariant holds after the executing task has finished.
    pub proof fn lemma_completed_wf(self)
        requires
            self.wf(),
        ensures
            self.completed().wf(),
    {
        let post = self.completed();
        if self.running.len() > 0 {
            let last = self.running.len() - 1;
            assert forall|j: int| 0 <= j < post.ready.len() implies post.queue.registered(
                (#[trigger] post.ready[j]).task as int,
            ) && post.ready[j].since <= post.queue.now by {
                assert(self.queue.registered(self.ready[j].task as int));
            }
            assert forall|j: int| 0 <= j < post.running.len() implies post.queue.registered(
                #[trigger] post.running[j] as int,
            ) by {
                assert(self.queue.registered(self.running[j] as int));
            }
            assert forall|a: int, b: int| 0 <= a < b < post.running.len() implies post.priority(
                #[trigger] post.running[a],
            ) < post.priority(#[trigger] post.running[b]) by {
                assert(self.priority(self.running[a]) < self.priority(self.running[b]));
            }
            if self.cell.ceiling != 0 {
                let t = choose|t: int|
                    0 <= t < self.shares.len() && #[trigger] self.shares[t] && self.queue.priorities[t]
                        == self.cell.ceiling;
                assert(post.shares[t] && post.queue.priorities[t] == post.cell.ceiling);
            }
            if post.cell.lease is Some {
                let lease = self.cell.lease.unwrap();
                let k = choose|k: int| #[trigger] self.holds_at(lease, k);
                if k == last {
                    assert(self.holds_line(self.running.last()));
                } else {
                    assert forall|j: int| k < j < post.running.len() implies post.priority(
                        #[trigger] post.running[j],
                    ) > post.cell.ceiling by {
                        assert(self.priority(self.running[j]) > self.cell.ceiling);
                    }
                    assert(post.holds_at(lease, k));
                }
            }
        }
    }

    /// The invariant holds whatever the lock answers to the executing task, as
    /// long as that task uses the line. A refusal means that the task itself
    /// holds the lock.
    pub proof fn lemma_acquired_wf(self)
        requires
            self.wf(),
            self.running.len() > 0,
            self.shares[self.running.last() as int],
        ensures
            self.acquired().1.wf(),
            self.acquired().0 is Err ==> self.holds_line(self.running.last()),
    {
        let post = self.acquired().1;
        let last = self.running.len() - 1;
        let task = self.running.last();
        self.lemma_lease_stays(DispatcherModel { ready: self.ready, ..self });
        if self.cell.lease is Some {
            let lease = self.cell.lease.unwrap();
            let k = choose|k: int| #[trigger] self.holds_at(lease, k);
            assert(self.queue.registered(self.running[last] as int));
            if k < last {
                assert(self.priority(self.running[last]) > self.cell.ceiling);
                assert(self.queue.priorities[task as int] <= self.cell.ceiling);
            }
            assert(post.holds_at(lease, k));
        } else {
            assert(post.holds_at(post.cell.lease.unwrap(), last));
        }
    }

    /// The invariant holds after the lock has been released, and after the line
    /// has been driven to another level.
    pub proof fn lemma_released_wf(self, level: Level)
        requires
            self.wf(),
        ensures
            self.released().wf(),
            self.with_level(level).wf(),
            self.released().with_level(level).wf(),
    {
        self.lemma_lease_stays(self.with_level(level));
        let free = DispatcherModel { cell: CellModel { lease: None, ..self.cell }, ..self };
        if self.cell.ceiling != 0 {
            let t = choose|t: int|
                0 <= t < self.shares.len() && #[trigger] self.shares[t] && self.queue.priorities[t]
                    == self.cell.ceiling;
            assert(free.shares[t] && free.queue.priorities[t] == free.cell.ceiling);
        }
        assert(self.released() == free);
        assert(free.wf());
        free.lemma_lease_stays(free.with_level(level));
    }

    /// While the line is held, only a task that outranks the ceiling is started,
    /// and so none that uses the line: the lock keeps every task that it is
    /// shared with from starting.
    pub proof fn law_no_sharer_starts_while_held(self, i: int)
        requires
            self.wf(),
            self.selects(i),
            self.cell.is_held(),
        ensures
            self.priority(self.ready[i].task) > self.cell.ceiling,
            !self.shares[self.ready[i].task as int],
    {
        assert(self.queue.registered(self.ready[i].task as int));
    }

    /// Leaving the critical section restores what entering it had changed: the
    /// dispatcher is as it was before, and so is the priority a task has to
    /// exceed to be started.
    pub proof fn law_release_restores_floor(self)
        requires
            self.wf(),
            self.running.len() > 0,
            !self.cell.is_held(),
        ensures
            self.acquired().0 == Ok::<u8, SchedulerError>(self.cell.raised(self.priority(self.running.last()))),
            self.acquired().1.threshold() == Some(self.cell.raised(self.priority(self.running.last()))),
            self.acquired().1.released() == self,
            self.acquired().1.released().threshold() == Some(self.priority(self.running.last())),
    {
    }

    /// `mid` is the dispatcher after `event` has been taken in: the task of an
    /// interrupt is eligible, or the clock has reached the tick of the timer
    /// and what was due is eligible.
    pub open spec fn takes_in(self, event: Event, mid: DispatcherModel) -> bool {
        match event {
            Event::Interrupt(task) => mid == self.spawned(task),
            Event::Timer(tick) => exists|due: Seq<TaskId>| #[trigger]
                self.queue.surfaces(tick, due) && mid == self.ticked(tick, due),
        }
    }

    /// What `on_event` answers and the dispatcher it leaves: the event is taken
    /// in, then the next task is started if one may start.
    pub open spec fn on_event(self, event: Event, next: Option<TaskId>, post: DispatcherModel) -> bool {
        exists|mid: DispatcherModel| #[trigger] self.takes_in(event, mid) && mid.dispatch(next, post)
    }

    /// Run to completion: a task is started only if it outranks every task that
    /// has been started and not finished. So no task is ever descheduled by a
    /// task of its own or a lower priority.
    pub proof fn law_only_higher_priority_preempts(self, i: int, k: int)
        requires
            self.wf(),
            self.selects(i),
            0 <= k < self.running.len(),
        ensures
            self.priority(self.ready[i].task) > self.priority(self.running[k]),
    {
        let top = self.running.len() - 1;
        if k < top {
            assert(self.priority(self.running[k]) < self.priority(self.running[top]));
        }
    }

    /// Of two eligible tasks the one of lower priority is not started first;
    /// and once the other executes, it is not started before that one has
    /// finished.
    pub proof fn law_higher_priority_runs_first(self, i: int, high: int, low: int)
        requires
            self.wf(),
            self.selects(i),
            0 <= high < self.ready.len(),
            0 <= low < self.ready.len(),
            self.priority(self.ready[high].task) > self.priority(self.ready[low].task),
        ensures
            i != low,
            i == high ==> !self.started(i).may_start(self.ready[low].task),
    {
    }

    /// Among eligible tasks of one priority the one that became eligible first
    /// is started first.
    pub proof fn law_equal_priority_in_arrival_order(self, i: int, first: int, second: int)
        requires
            self.wf(),
            self.selects(i),
            0 <= first < second < self.ready.len(),
            self.priority(self.ready[first].task) == self.priority(self.ready[second].task),
        ensures
            i != second,
    {
    }
}

/// The scheduler context: the registry of tasks with their pending requests,
/// the eligible and the running tasks, and the shared line.
pub struct Dispatcher {
    queue: TaskQueue,
    shares: Vec<bool>,
    ready: Vec<Ready>,
    running: Vec<TaskId>,
    cell: ResourceCell,
    bound: u64,
}

impl View for Dispatcher {
    type V = DispatcherModel;

    closed spec fn view(&self) -> DispatcherModel {
        DispatcherModel {
            queue: self.queue@,
            shares: self.shares@,
            ready: self.ready@,
            running: self.running@,
            cell: self.cell@,
            bound: self.bound,
        }
    }
}

impl Dispatcher {
    /// The invariant of the dispatcher.
    pub closed spec fn wf(&self) -> bool {
        self.queue.wf() && self@.wf()
    }

    /// A well-formed dispatcher has a well-formed content.
    pub proof fn lemma_wf_view(&self)
        requires
            self.wf(),
        ensures
            self@.wf(),
    {
    }

    /// A dispatcher for the declared tasks, in registration order. Nothing is
    /// pending, eligible or running, the clock is at tick 0, and the line is
    /// free and driven to `initial`.
    pub fn new(tasks: Vec<TaskDecl>, initial: Level, bound: u64) -> (dispatcher: Dispatcher)
        ensures
            dispatcher.wf(),
            dispatcher@.queue.priorities == Seq::new(tasks@.len(), |i: int| tasks@[i].priority),
            dispatcher@.queue.deadlines == Seq::new(tasks@.len(), |i: int| None::<u64>),
            dispatcher@.queue.now == 0,
            dispatcher@.shares == Seq::new(tasks@.len(), |i: int| tasks@[i].shares_line),
            dispatcher@.ready == Seq::<Ready>::empty(),
            dispatcher@.running == Seq::<TaskId>::empty(),
            dispatcher@.cell.level == initial,
            dispatcher@.cell.lease is None,
            dispatcher@.bound == bound,
    {
        let mut priorities: Vec<u8> = Vec::new();
        let mut shares: Vec<bool> = Vec::new();
        let mut ceiling: u8 = 0;
        let mut i: usize = 0;
        while i < tasks.len()
            invariant
                i <= tasks.len(),
                priorities@ == Seq::new(i as nat, |k: int| tasks@[k].priority),
                shares@ == Seq::new(i as nat, |k: int| tasks@[k].shares_line),
                forall|k: int| 0 <= k < i && #[trigger] tasks@[k].shares_line ==> tasks@[k].priority <= ceiling,
                ceiling == 0 || exists|k: int| 0 <= k < i && #[trigger] tasks@[k].shares_line && tasks@[k].priority == ceiling,
            decreases tasks.len() - i,
        {
            let decl = tasks[i];
            priorities.push(decl.priority);
            shares.push(decl.shares_line);
            if decl.shares_line && decl.priority > ceiling {
                ceiling = decl.priority;
            }
            i += 1;
            assert(priorities@ =~= Seq::new(i as nat, |k: int| tasks@[k].priority));
            assert(shares@ =~= Seq::new(i as nat, |k: int| tasks@[k].shares_line));
        }
        let ghost prios = priorities@;
        let dispatcher = Dispatcher {
            queue: TaskQueue::new(priorities),
            shares,
            ready: Vec::new(),
            running: Vec::new(),
            cell: ResourceCell::new(initial, ceiling),
            bound,
        };
        proof {
            assert(dispatcher@.queue.priorities == prios);
            if ceiling != 0 {
                let k = choose|k: int| 0 <= k < i && #[trigger] tasks@[k].shares_line && tasks@[k].priority == ceiling;
                assert(dispatcher@.shares[k] && dispatcher@.queue.priorities[k] == ceiling);
            }
            assert(dispatcher@.is_ceiling(ceiling));
        }
        dispatcher
    }

    /// The number of registered tasks.
    pub fn task_count(&self) -> (n: usize)
        requires
            self.wf(),
        ensures
            n == self@.queue.priorities.len(),
    {
        self.queue.len()
    }

    /// The last tick the dispatcher has seen.
    pub fn now(&self) -> (tick: u64)
        ensures
            tick == self@.queue.now,
    {
        self.queue.now()
    }

    /// The level of the shared line.
    pub fn level(&self) -> (level: Level)
        ensures
            level == self@.cell.level,
    {
        self.cell.read()
    }

    /// The task that executes, if one does.
    pub fn current(&self) -> (task: Option<TaskId>)
        ensures
            task == self@.current(),
    {
        if self.running.len() > 0 {
            Some(self.running[self.running.len() - 1])
        } else {
            None
        }
    }

    /// Whether no task is running and none is eligible: the processor may wait
    /// for the next interrupt.
    pub fn is_idle(&self) -> (idle: bool)
        ensures
            idle == (self@.running.len() == 0 && self@.ready.len() == 0),
    {
        self.running.len() == 0 && self.ready.len() == 0
    }

    /// Whether `task` has a request that has not come due.
    pub fn is_pending(&self, task: TaskId) -> (pending: bool)
        requires
            self.wf(),
        ensures
            pending == self@.queue.is_pending(task as int),
    {
        self.queue.is_pending(task)
    }

    /// The tick at which the timer has to fire next, if a request is pending.
    pub fn next_deadline(&self) -> (earliest: Option<u64>)
        requires
            self.wf(),
        ensures
            self@.queue.earliest(earliest),
    {
        self.queue.next_deadline()
    }

    /// Asks that `task` become eligible `delay_ticks` after the current tick.
    /// Refused with `DuplicateSchedule` while a request for `task` is pending;
    /// that request then stands as it was.
    pub fn schedule(&mut self, task: TaskId, delay_ticks: u64) -> (outcome: Result<(), SchedulerError>)
        requires
            old(self).wf(),
            old(self)@.queue.registered(task as int),
            old(self)@.queue.now + delay_ticks <= u64::MAX,
        ensures
            final(self).wf(),
            outcome == old(self)@.queue.schedule(task as int, delay_ticks).0,
            final(self)@ == old(self)@.scheduled(task, delay_ticks),
    {
        let outcome = self.queue.schedule(task, delay_ticks);
        proof {
            old(self)@.lemma_scheduled_wf(task, delay_ticks);
        }
        outcome
    }

    /// Makes `task` eligible at once: its interrupt has fired, or it was spawned
    /// without a delay.
    pub fn spawn(&mut self, task: TaskId)
        requires
            old(self).wf(),
            old(self)@.queue.registered(task as int),
        ensures
            final(self).wf(),
            final(self)@ == old(self)@.spawned(task),
    {
        let since = self.queue.now();
        self.ready.push(Ready { task, since });
        proof {
            old(self)@.lemma_spawned_wf(task);
        }
    }

    /// Moves the clock to `current_tick`. The tasks whose deadline has been
    /// reached become eligible, in the order in which the queue hands them out,
    /// and are returned in that order.
    pub fn tick(&mut self, current_tick: u64) -> (due: Vec<TaskId>)
        requires
            old(self).wf(),
            old(self)@.queue.now <= current_tick,
        ensures
            final(self).wf(),
            old(self)@.queue.surfaces(current_tick, due@),
            final(self)@ == old(self)@.ticked(current_tick, due@),
    {
        let due = self.queue.due_at(current_tick);
        let ghost before = self@;
        let mut i: usize = 0;
        assert(before.ready =~= before.ticked(current_tick, due@).ready.take(before.ready.len() as int));
        while i < due.len()
            invariant
                i <= due.len(),
                self.queue.wf(),
                before.wf(),
                before.queue.surfaces(current_tick, due@),
                self@ == (DispatcherModel { ready: before.ticked(current_tick, due@).ready.take(before.ready.len() + i), ..before }),
            decreases due.len() - i,
        {
            let task = due[i];
            assert(before.queue.is_due(due@[i as int] as int, current_tick));
            let since = self.queue.deadline(task).unwrap();
            let ghost prev = self@.ready;
            self.ready.push(Ready { task, since });
            i += 1;
            assert(self@.ready =~= before.ticked(current_tick, due@).ready.take(before.ready.len() + i));
        }
        assert(self@.ready =~= before.ticked(current_tick, due@).ready);
        self.queue.clear_due(current_tick);
        proof {
            before.lemma_ticked_wf(current_tick, due@);
        }
        due
    }

    /// The priority that a task has to exceed to be started.
    fn threshold(&self) -> (floor: Option<u8>)
        requires
            self.wf(),
        ensures
            floor == self@.threshold(),
    {
        let base = match self.current() {
            Some(task) => Some(self.queue.priority(task)),
            None => None,
        };
        match (base, self.cell.floor()) {
            (None, floor) => floor,
            (Some(p), None) => Some(p),
            (Some(p), Some(floor)) => Some(if p >= floor { p } else { floor }),
        }
    }

    /// Starts the eligible task that is next in line, if one may start: among
    /// the eligible tasks that outrank the executing task and the floor of the
    /// lock, the one of highest priority, and of those the one that has waited
    /// longest. It is taken from the eligible tasks and executes from now on;
    /// the task that executed before is preempted. While the line is held, no
    /// task that uses the line is started.
    pub fn dispatch(&mut self) -> (next: Option<TaskId>)
        requires
            old(self).wf(),
        ensures
            final(self).wf(),
            old(self)@.dispatch(next, final(self)@),
            next is Some && old(self)@.cell.is_held() ==> !old(self)@.shares[next.unwrap() as int],
    {
        let threshold = self.threshold();
        let mut best: Option<usize> = None;
        let mut i: usize = 0;
        while i < self.ready.len()
            invariant
                self.wf(),
                self@ == old(self)@,
                threshold == self@.threshold(),
                i <= self.ready.len(),
                match best {
                    None => forall|j: int| 0 <= j < i ==> !self@.may_start((#[trigger] self@.ready[j]).task),
                    Some(b) => {
                        &&& b < i
                        &&& self@.may_start(self@.ready[b as int].task)
                        &&& forall|j: int|
                            0 <= j < i ==> self@.priority((#[trigger] self@.ready[j]).task) <= self@.priority(
                                self@.ready[b as int].task,
                            )
                        &&& forall|j: int|
                            0 <= j < b ==> self@.priority((#[trigger] self@.ready[j]).task) < self@.priority(
                                self@.ready[b as int].task,
                            )
                    },
                },
            decreases self.ready.len() - i,
        {
            let task = self.ready[i].task;
            assert(self@.queue.registered(self@.ready[i as int].task as int));
            let p = self.queue.priority(task);
            let may_start = match threshold {
                None => true,
                Some(floor) => p > floor,
            };
            let better = match best {
                None => may_start,
                Some(b) => {
                    assert(self@.queue.registered(self@.ready[b as int].task as int));
                    p > self.queue.priority(self.ready[b].task)
                },
            };
            if better {
                best = Some(i);
            }
            i += 1;
        }
        match best {
            None => None,
            Some(b) => {
                proof {
                    assert(self@.selects(b as int));
                    self@.lemma_started_wf(b as int);
                    if self@.cell.is_held() {
                        self@.law_no_sharer_starts_while_held(b as int);
                    }
                }
                let entry = self.ready.remove(b);
                self.running.push(entry.task);
                Some(entry.task)
            },
        }
    }

    /// The executing task has finished: the task it had preempted, if any,
    /// executes again. A lock that the finished task still held is released.
    /// Returns the task that finished.
    pub fn complete(&mut self) -> (finished: Option<TaskId>)
        requires
            old(self).wf(),
        ensures
            final(self).wf(),
            finished == old(self)@.current(),
            final(self)@ == old(self)@.completed(),
    {
        proof {
            self@.lemma_completed_wf();
        }
        match self.running.pop() {
            None => None,
            Some(task) => {
                if self.cell.holder() == Some(task) {
                    self.cell.release();
                }
                Some(task)
            },
        }
    }

    /// The executing task enters the critical section. The priority floor is
    /// raised to the ceiling and returned. Refused with `ReentrantLock` when
    /// the lock is held, which then means: held by this very task.
    pub fn acquire(&mut self) -> (outcome: Result<u8, SchedulerError>)
        requires
            old(self).wf(),
            old(self)@.running.len() > 0,
            old(self)@.shares[old(self)@.running.last() as int],
        ensures
            final(self).wf(),
            (outcome, final(self)@) == old(self)@.acquired(),
            outcome is Err ==> old(self)@.holds_line(old(self)@.running.last()),
    {
        proof {
            self@.lemma_acquired_wf();
        }
        let task = self.running[self.running.len() - 1];
        assert(self@.queue.registered(self@.running[self@.running.len() - 1] as int));
        let floor = self.queue.priority(task);
        self.cell.acquire(task, floor)
    }

    /// The executing task leaves the critical section: the priority floor is
    /// what it was before. Where the executing task does not hold the lock,
    /// nothing happens and `false` is returned.
    pub fn release(&mut self) -> (released: bool)
        requires
            old(self).wf(),
        ensures
            final(self).wf(),
            released == (old(self)@.running.len() > 0 && old(self)@.holds_line(old(self)@.running.last())),
            final(self)@ == if released { old(self)@.released() } else { old(self)@ },
    {
        proof {
            self@.lemma_released_wf(Level::Low);
        }
        match (self.current(), self.cell.holder()) {
            (Some(task), Some(holder)) => {
                if task == holder {
                    self.cell.release();
                    true
                } else {
                    false
                }
            },
            _ => false,
        }
    }

    /// The executing task drives the line to `level` from inside its critical
    /// section. Where it does not hold the lock, nothing happens and `false` is
    /// returned.
    pub fn set(&mut self, level: Level) -> (done: bool)
        requires
            old(self).wf(),
        ensures
            final(self).wf(),
            done == (old(self)@.running.len() > 0 && old(self)@.holds_line(old(self)@.running.last())),
            final(self)@ == if done { old(self)@.with_level(level) } else { old(self)@ },
    {
        proof {
            self@.lemma_released_wf(level);
        }
        match self.current() {
            Some(task) => self.cell.set(task, level),
            None => false,
        }
    }

    /// The executing task runs `body` with exclusive access to the line: `body`
    /// receives the line as the last critical section left it, and the line it
    /// returns is stored. Nothing else changes. Refused with `ReentrantLock`
    /// when the executing task holds the lock already; `body` is then not run.
    pub fn lock<F: FnOnce(OutputLine) -> OutputLine>(&mut self, body: F) -> (outcome: Result<(), SchedulerError>)
        requires
            old(self).wf(),
            old(self)@.running.len() > 0,
            old(self)@.shares[old(self)@.running.last() as int],
            !old(self)@.cell.is_held() ==> forall|line: OutputLine| line@ == old(self)@.cell.level ==> call_requires(body, (line,)),
        ensures
            final(self).wf(),
            old(self)@.cell.is_held() ==> outcome == Err::<(), SchedulerError>(SchedulerError::ReentrantLock)
                && final(self)@ == old(self)@ && old(self)@.holds_line(old(self)@.running.last()),
            !old(self)@.cell.is_held() ==> outcome is Ok && CellModel::critical_section(
                old(self)@.cell,
                body,
                final(self)@.cell,
            ) && final(self)@ == old(self)@.with_level(final(self)@.cell.level),
    {
        proof {
            self@.lemma_acquired_wf();
        }
        let task = self.running[self.running.len() - 1];
        assert(self@.queue.registered(self@.running[self@.running.len() - 1] as int));
        let floor = self.queue.priority(task);
        let outcome = self.cell.lock(task, floor, body);
        proof {
            old(self)@.lemma_released_wf(self@.cell.level);
        }
        outcome
    }

    /// Reports `PriorityInversionRisk` when the line is held and an eligible
    /// task that uses the line and outranks the holder has waited for more
    /// ticks than the bound allows; `Ok` otherwise. Nothing is changed.
    pub fn check_inversion(&self) -> (report: Result<(), SchedulerError>)
        requires
            self.wf(),
        ensures
            report == if self@.inversion_risk() {
                Err::<(), SchedulerError>(SchedulerError::PriorityInversionRisk)
            } else {
                Ok::<(), SchedulerError>(())
            },
    {
        let holder = match self.cell.holder() {
            Some(holder) => holder,
            None => {
                return Ok(());
            },
        };
        proof {
            let lease = self@.cell.lease.unwrap();
            let k = choose|k: int| #[trigger] self@.holds_at(lease, k);
            assert(self@.queue.registered(self@.running[k] as int));
        }
        let floor = self.queue.priority(holder);
        let now = self.queue.now();
        let mut i: usize = 0;
        while i < self.ready.len()
            invariant
                self.wf(),
                i <= self.ready.len(),
                self@.cell.lease is Some,
                self@.cell.lease.unwrap().holder == holder,
                floor == self@.priority(holder),
                now == self@.queue.now,
                forall|j: int| 0 <= j < i ==> !self@.starved_at(holder, j),
            decreases self.ready.len() - i,
        {
            let entry = self.ready[i];
            assert(self@.queue.registered(self@.ready[i as int].task as int));
            if self.shares[entry.task] && self.queue.priority(entry.task) > floor && now - entry.since > self.bound {
                assert(self@.starved_at(self@.cell.lease.unwrap().holder, i as int));
                assert(self@.inversion_risk());
                return Err(SchedulerError::PriorityInversionRisk);
            }
            i += 1;
        }
        Ok(())
    }

    /// Reacts to an interrupt or to the timer: the task bound to the interrupt
    /// becomes eligible, or the clock moves to the tick and the tasks whose
    /// deadline has been reached become eligible. Then the task that is next in
    /// line is started, if one may start, and returned. With `None` the
    /// executing task goes on, or the processor stays idle.
    pub fn on_event(&mut self, event: Event) -> (next: Option<TaskId>)
        requires
            old(self).wf(),
            match event {
                Event::Interrupt(task) => old(self)@.queue.registered(task as int),
                Event::Timer(tick) => old(self)@.queue.now <= tick,
            },
        ensures
            final(self).wf(),
            old(self)@.on_event(event, next, final(self)@),
    {
        match event {
            Event::Interrupt(task) => {
                self.spawn(task);
            },
            Event::Timer(tick) => {
                let due = self.tick(tick);
                assert(old(self)@.queue.surfaces(tick, due@));
            },
        }
        let ghost mid = self@;
        assert(old(self)@.takes_in(event, mid));
        self.dispatch()
    }
}

} // verus!
