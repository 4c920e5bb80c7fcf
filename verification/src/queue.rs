//! Deadline bookkeeping: for each task at most one pending spawn request,
//! surfaced once its deadline has been reached.

use crate::error::SchedulerError;
use vstd::prelude::*;

verus! {

/// A task is named by its place in the registry: the first registered task is 0.
pub type TaskId = usize;

/// The mathematical content of a [`TaskQueue`].
pub struct QueueModel {
    /// The static priority of each registered task; a larger number preempts a smaller one.
    pub priorities: Seq<u8>,
    /// For each registered task the absolute tick of its pending request, if it has one.
    pub deadlines: Seq<Option<u64>>,
    /// The last tick the queue has seen.
    pub now: u64,
}

impl QueueModel {
    /// Every registered task has a priority and a slot for its request.
    pub open spec fn wf(self) -> bool {
        self.priorities.len() == self.deadlines.len()
    }

    /// `task` names one of the registered tasks.
    pub open spec fn registered(self, task: int) -> bool {
        0 <= task < self.priorities.len()
    }

    /// `task` has a request that has not been surfaced yet.
    pub open spec fn is_pending(self, task: int) -> bool {
        self.registered(task) && self.deadlines[task] is Some
    }

    /// `task` has a request whose deadline is `tick` or earlier.
    pub open spec fn is_due(self, task: int, tick: u64) -> bool {
        self.is_pending(task) && self.deadlines[task].unwrap() <= tick
    }

    /// The queue with a request for `task` recorded at `deadline`.
    pub open spec fn with_request(self, task: int, deadline: u64) -> QueueModel {
        QueueModel { deadlines: self.deadlines.update(task, Some(deadline)), ..self }
    }

    /// What `schedule` answers and the queue it leaves: a task that already has a
    /// request is refused and nothing changes; otherwise the request is recorded
    /// at the current tick plus the delay.
    pub open spec fn schedule(self, task: int, delay: u64) -> (Result<(), SchedulerError>, QueueModel) {
        if self.is_pending(task) {
            (Err(SchedulerError::DuplicateSchedule), self)
        } else {
            (Ok(()), self.with_request(task, (self.now + delay) as u64))
        }
    }

    /// The order in which two pending tasks are handed out: the earlier deadline
    /// first; at one deadline the higher priority first; at one priority the task
    /// that was registered first.
    pub open spec fn runs_before(self, a: int, b: int) -> bool {
        let da = self.deadlines[a].unwrap();
        let db = self.deadlines[b].unwrap();
        let pa = self.priorities[a];
        let pb = self.priorities[b];
        da < db || (da == db && (pa > pb || (pa == pb && a < b)))
    }

    /// `due` lists exactly the tasks that are due at `tick`, each once, in the
    /// order in which they are handed out.
    pub open spec fn surfaces(self, tick: u64, due: Seq<TaskId>) -> bool {
        &&& forall|i: int| 0 <= i < due.len() ==> self.is_due(#[trigger] due[i] as int, tick)
        &&& forall|task: int| #[trigger]
            self.is_due(task, tick) ==> exists|i: int| 0 <= i < due.len() && due[i] == task
        &&& forall|i: int, j: int|
            0 <= i < j < due.len() ==> self.runs_before(#[trigger] due[i] as int, #[trigger] due[j] as int)
    }

    /// The queue after the clock has been moved to `tick`: the requests that were
    /// due are gone, the others stand as they were.
    pub open spec fn advance(self, tick: u64) -> QueueModel {
        QueueModel {
            priorities: self.priorities,
            deadlines: Seq::new(
                self.deadlines.len(),
                |task: int| if self.is_due(task, tick) { None } else { self.deadlines[task] },
            ),
            now: tick,
        }
    }

    /// The earliest deadline among the pending requests.
    pub open spec fn earliest(self, deadline: Option<u64>) -> bool {
        match deadline {
            None => forall|task: int| !#[trigger] self.is_pending(task),
            Some(d) => {
                &&& exists|task: int| #[trigger] self.is_pending(task) && self.deadlines[task] == Some(d)
                &&& forall|task: int| #[trigger] self.is_pending(task) ==> d <= self.deadlines[task].unwrap()
            },
        }
    }
}

/// The pending spawn requests of a fixed set of tasks, with the clock they are
/// measured against.
pub struct TaskQueue {
    priorities: Vec<u8>,
    deadlines: Vec<Option<u64>>,
    now: u64,
}

impl View for TaskQueue {
    type V = QueueModel;

    closed spec fn view(&self) -> QueueModel {
        QueueModel { priorities: self.priorities@, deadlines: self.deadlines@, now: self.now }
    }
}

impl TaskQueue {
    /// The invariant of the queue: one slot per registered task.
    pub closed spec fn wf(&self) -> bool {
        self.priorities@.len() == self.deadlines@.len()
    }

    /// A well-formed queue has a well-formed content.
    pub proof fn lemma_wf_view(&self)
        requires
            self.wf(),
        ensures
            self@.wf(),
    {
    }

    /// A queue for the tasks whose priorities are given, in registration order,
    /// with no request pending and the clock at tick 0.
    pub fn new(priorities: Vec<u8>) -> (queue: TaskQueue)
        ensures
            queue.wf(),
            queue@.priorities == priorities@,
            queue@.deadlines == Seq::new(priorities@.len(), |task: int| None::<u64>),
            queue@.now == 0,
    {
        let mut deadlines: Vec<Option<u64>> = Vec::new();
        let mut i: usize = 0;
        while i < priorities.len()
            invariant
                i <= priorities.len(),
                deadlines@ == Seq::new(i as nat, |task: int| None::<u64>),
            decreases priorities.len() - i,
        {
            deadlines.push(None);
            i += 1;
            assert(deadlines@ =~= Seq::new(i as nat, |task: int| None::<u64>));
        }
        TaskQueue { priorities, deadlines, now: 0 }
    }

    /// The number of registered tasks.
    pub fn len(&self) -> (n: usize)
        requires
            self.wf(),
        ensures
            n == self@.priorities.len(),
            n == self@.deadlines.len(),
    {
        self.priorities.len()
    }

    /// The last tick the queue has seen.
    pub fn now(&self) -> (tick: u64)
        ensures
            tick == self@.now,
    {
        self.now
    }

    /// The static priority of `task`.
    pub fn priority(&self, task: TaskId) -> (p: u8)
        requires
            self.wf(),
            self@.registered(task as int),
        ensures
            p == self@.priorities[task as int],
    {
        self.priorities[task]
    }

    /// The deadline of the pending request of `task`, if it has one.
    pub fn deadline(&self, task: TaskId) -> (d: Option<u64>)
        requires
            self.wf(),
            self@.registered(task as int),
        ensures
            d == self@.deadlines[task as int],
    {
        self.deadlines[task]
    }

    /// Whether `task` has a request that has not been surfaced yet.
    pub fn is_pending(&self, task: TaskId) -> (pending: bool)
        requires
            self.wf(),
        ensures
            pending == self@.is_pending(task as int),
    {
        task < self.deadlines.len() && self.deadlines[task].is_some()
    }

    /// Asks that `task` become eligible `delay_ticks` after the current tick.
    /// A task that already has a pending request is refused with
    /// `DuplicateSchedule`, and its request stands untouched.
    pub fn schedule(&mut self, task: TaskId, delay_ticks: u64) -> (outcome: Result<(), SchedulerError>)
        requires
            old(self).wf(),
            old(self)@.registered(task as int),
            old(self)@.now + delay_ticks <= u64::MAX,
        ensures
            final(self).wf(),
            (outcome, final(self)@) == old(self)@.schedule(task as int, delay_ticks),
    {
        if self.deadlines[task].is_some() {
            return Err(SchedulerError::DuplicateSchedule);
        }
        let deadline: u64 = self.now + delay_ticks;
        self.deadlines[task] = Some(deadline);
        Ok(())
    }

    /// Whether `a` is handed out before `b`, for two tasks with pending requests.
    fn runs_before(&self, a: TaskId, b: TaskId) -> (before: bool)
        requires
            self.wf(),
            self@.is_pending(a as int),
            self@.is_pending(b as int),
        ensures
            before == self@.runs_before(a as int, b as int),
    {
        let da: u64 = self.deadlines[a].unwrap();
        let db: u64 = self.deadlines[b].unwrap();
        let pa: u8 = self.priorities[a];
        let pb: u8 = self.priorities[b];
        da < db || (da == db && (pa > pb || (pa == pb && a < b)))
    }

    /// The tasks whose deadline is `tick` or earlier, in the order in which they
    /// are handed out. The queue is left as it is.
    pub fn due_at(&self, tick: u64) -> (due: Vec<TaskId>)
        requires
            self.wf(),
        ensures
            self@.surfaces(tick, due@),
    {
        let ghost model = self@;
        let mut due: Vec<TaskId> = Vec::new();
        let mut task: usize = 0;
        while task < self.deadlines.len()
            invariant
                self.wf(),
                model == self@,
                task <= self.deadlines.len(),
                forall|i: int| 0 <= i < due.len() ==> model.is_due(#[trigger] due[i] as int, tick) && due[i] < task,
                forall|t: int| 0 <= t < task && #[trigger] model.is_due(t, tick) ==> exists|i: int| 0 <= i < due.len() && due[i] == t,
                forall|i: int, j: int| 0 <= i < j < due.len() ==> model.runs_before(#[trigger] due[i] as int, #[trigger] due[j] as int),
            decreases self.deadlines.len() - task,
        {
            let is_due = match self.deadlines[task] {
                Some(d) => d <= tick,
                None => false,
            };
            if is_due {
                let mut at: usize = 0;
                while at < due.len() && self.runs_before(due[at], task)
                    invariant
                        self.wf(),
                        model == self@,
                        at <= due.len(),
                        model.is_due(task as int, tick),
                        forall|i: int| 0 <= i < due.len() ==> model.is_due(#[trigger] due[i] as int, tick) && due[i] < task,
                        forall|i: int| 0 <= i < at ==> model.runs_before(#[trigger] due[i] as int, task as int),
                    decreases due.len() - at,
                {
                    at += 1;
                }
                let ghost before = due@;
                due.insert(at, task);
                proof {
                    assert forall|i: int, j: int| 0 <= i < j < due.len() implies model.runs_before(
                        #[trigger] due[i] as int,
                        #[trigger] due[j] as int,
                    ) by {
                        if j == at {
                            assert(due[i] == before[i]);
                        } else if i == at {
                            assert(due[j] == before[j - 1]);
                            assert(!model.runs_before(before[at as int] as int, task as int));
                            if j - 1 > at {
                                assert(model.runs_before(before[at as int] as int, before[j - 1] as int));
                            }
                        } else {
                            let bi = if i < at { i } else { i - 1 };
                            let bj = if j < at { j } else { j - 1 };
                            assert(due[i] == before[bi] && due[j] == before[bj]);
                        }
                    }
                    assert forall|t: int| 0 <= t < task + 1 && #[trigger] model.is_due(t, tick) implies exists|i: int|
                        0 <= i < due.len() && due[i] == t by {
                        if t == task {
                            assert(due[at as int] == t);
                        } else {
                            let k = choose|k: int| 0 <= k < before.len() && before[k] == t;
                            let i = if k < at { k } else { k + 1 };
                            assert(due[i] == t);
                        }
                    }
                    assert forall|i: int| 0 <= i < due.len() implies model.is_due(#[trigger] due[i] as int, tick)
                        && due[i] < task + 1 by {
                        if i < at {
                            assert(due[i] == before[i]);
                        } else if i > at {
                            assert(due[i] == before[i - 1]);
                        }
                    }
                }
            }
            task += 1;
        }
        due
    }

    /// Moves the clock to `current_tick` and drops the requests whose deadline
    /// has been reached.
    pub(crate) fn clear_due(&mut self, current_tick: u64)
        requires
            old(self).wf(),
        ensures
            final(self).wf(),
            final(self)@ == old(self)@.advance(current_tick),
    {
        let ghost model = self@;
        let mut task: usize = 0;
        while task < self.deadlines.len()
            invariant
                self.wf(),
                task <= self.deadlines.len(),
                self@.priorities == model.priorities,
                self@.now == model.now,
                self@.deadlines.len() == model.deadlines.len(),
                forall|t: int| 0 <= t < task ==> #[trigger] self@.deadlines[t] == model.advance(current_tick).deadlines[t],
                forall|t: int| task <= t < model.deadlines.len() ==> #[trigger] self@.deadlines[t] == model.deadlines[t],
            decreases self.deadlines.len() - task,
        {
            let is_due = match self.deadlines[task] {
                Some(d) => d <= current_tick,
                None => false,
            };
            if is_due {
                self.deadlines[task] = None;
            }
            task += 1;
        }
        self.now = current_tick;
        assert(self@.deadlines =~= model.advance(current_tick).deadlines);
    }

    /// Moves the clock to `current_tick` and hands out the tasks whose deadline
    /// has been reached, in dispatch order. Their requests are consumed: each is
    /// handed out once. Requests with a later deadline stay pending.
    pub fn advance(&mut self, current_tick: u64) -> (due: Vec<TaskId>)
        requires
            old(self).wf(),
            old(self)@.now <= current_tick,
        ensures
            final(self).wf(),
            old(self)@.surfaces(current_tick, due@),
            final(self)@ == old(self)@.advance(current_tick),
    {
        let due = self.due_at(current_tick);
        self.clear_due(current_tick);
        due
    }

    /// The earliest deadline among the pending requests: the tick at which the
    /// timer has to fire next. `None` when nothing is pending.
    pub fn next_deadline(&self) -> (earliest: Option<u64>)
        requires
            self.wf(),
        ensures
            self@.earliest(earliest),
    {
        let mut earliest: Option<u64> = None;
        let mut task: usize = 0;
        while task < self.deadlines.len()
            invariant
                self.wf(),
                task <= self.deadlines.len(),
                match earliest {
                    None => forall|t: int| 0 <= t < task ==> !#[trigger] self@.is_pending(t),
                    Some(d) => {
                        &&& exists|t: int| 0 <= t < task && #[trigger] self@.is_pending(t) && self@.deadlines[t] == Some(d)
                        &&& forall|t: int| 0 <= t < task && #[trigger] self@.is_pending(t) ==> d <= self@.deadlines[t].unwrap()
                    },
                },
            decreases self.deadlines.len() - task,
        {
            match self.deadlines[task] {
                Some(d) => {
                    let better = match earliest {
                        Some(e) => d < e,
                        None => true,
                    };
                    if better {
                        earliest = Some(d);
                        assert(self@.is_pending(task as int));
                    }
                },
                None => {},
            }
            task += 1;
        }
        earliest
    }
}

/// One movement of the clock: the tick it was moved to and the tasks that were
/// handed out at it.
pub struct Step {
    /// The tick the clock was moved to.
    pub tick: u64,
    /// What was handed out at it, in order.
    pub due: Seq<TaskId>,
}

/// One request: the task and the delay it was scheduled with.
pub struct Request {
    /// The task to be made eligible.
    pub task: TaskId,
    /// The ticks from the current tick to its deadline.
    pub delay: u64,
}

impl QueueModel {
    /// `steps` is a run of the queue: the clock never goes back, and each step
    /// hands out what is due at its tick in the queue the steps before it left.
    pub open spec fn stepped(self, steps: Seq<Step>) -> bool
        decreases steps.len(),
    {
        if steps.len() == 0 {
            true
        } else {
            &&& self.now <= steps[0].tick
            &&& self.surfaces(steps[0].tick, steps[0].due)
            &&& self.advance(steps[0].tick).stepped(steps.skip(1))
        }
    }

    /// The queue after every request of `requests` has been scheduled in turn.
    pub open spec fn scheduled_all(self, requests: Seq<Request>) -> QueueModel
        decreases requests.len(),
    {
        if requests.len() == 0 {
            self
        } else {
            self.scheduled_all(requests.drop_last()).schedule(
                requests.last().task as int,
                requests.last().delay,
            ).1
        }
    }

    /// Every request of `requests`, scheduled in turn, was accepted.
    pub open spec fn accepted_all(self, requests: Seq<Request>) -> bool
        decreases requests.len(),
    {
        if requests.len() == 0 {
            true
        } else {
            &&& self.accepted_all(requests.drop_last())
            &&& self.scheduled_all(requests.drop_last()).schedule(
                requests.last().task as int,
                requests.last().delay,
            ).0 is Ok
        }
    }
}

/// Everything that a run has handed out, in the order in which it was handed out.
pub open spec fn handed_out(steps: Seq<Step>) -> Seq<TaskId>
    decreases steps.len(),
{
    if steps.len() == 0 {
        Seq::empty()
    } else {
        steps[0].due + handed_out(steps.skip(1))
    }
}

/// Two lists that hold the same tasks, each in dispatch order, are one list.
proof fn lemma_dispatch_order_is_unique(queue: QueueModel, a: Seq<TaskId>, b: Seq<TaskId>)
    requires
        forall|i: int, j: int| 0 <= i < j < a.len() ==> queue.runs_before(#[trigger] a[i] as int, #[trigger] a[j] as int),
        forall|i: int, j: int| 0 <= i < j < b.len() ==> queue.runs_before(#[trigger] b[i] as int, #[trigger] b[j] as int),
        forall|task: TaskId| #[trigger] a.contains(task) ==> b.contains(task),
        forall|task: TaskId| #[trigger] b.contains(task) ==> a.contains(task),
    ensures
        a == b,
    decreases a.len(),
{
    if a.len() == 0 {
        if b.len() > 0 {
            assert(b.contains(b[0]));
            assert(a.contains(b[0]));
        }
        assert(a =~= b);
    } else {
        let top = a.len() - 1;
        assert(a.contains(a[top]));
        assert(b.contains(a[top]));
        let j = choose|j: int| 0 <= j < b.len() && b[j] == a[top];
        let end = b.len() - 1;
        if j < end {
            assert(b.contains(b[end]));
            assert(a.contains(b[end]));
            let i = choose|i: int| 0 <= i < a.len() && a[i] == b[end];
            assert(queue.runs_before(b[j] as int, b[end] as int));
            if i < top {
                assert(queue.runs_before(a[i] as int, a[top] as int));
            }
        }
        assert(b[end] == a[top]);
        let a0 = a.drop_last();
        let b0 = b.drop_last();
        assert forall|task: TaskId| #[trigger] a0.contains(task) implies b0.contains(task) by {
            let i = choose|i: int| 0 <= i < a0.len() && a0[i] == task;
            assert(a[i] == task);
            assert(a.contains(task));
            assert(b.contains(task));
            let k = choose|k: int| 0 <= k < b.len() && b[k] == task;
            assert(queue.runs_before(a[i] as int, a[top] as int));
            assert(b0[k] == task);
        }
        assert forall|task: TaskId| #[trigger] b0.contains(task) implies a0.contains(task) by {
            let k = choose|k: int| 0 <= k < b0.len() && b0[k] == task;
            assert(b[k] == task);
            assert(b.contains(task));
            assert(a.contains(task));
            let i = choose|i: int| 0 <= i < a.len() && a[i] == task;
            assert(queue.runs_before(b[k] as int, b[end] as int));
            assert(a0[i] == task);
        }
        assert forall|i: int, k: int| 0 <= i < k < a0.len() implies queue.runs_before(
            #[trigger] a0[i] as int,
            #[trigger] a0[k] as int,
        ) by {
            assert(queue.runs_before(a[i] as int, a[k] as int));
        }
        assert forall|i: int, k: int| 0 <= i < k < b0.len() implies queue.runs_before(
            #[trigger] b0[i] as int,
            #[trigger] b0[k] as int,
        ) by {
            assert(queue.runs_before(b[i] as int, b[k] as int));
        }
        lemma_dispatch_order_is_unique(queue, a0, b0);
        assert(a =~= a0.push(a[top]));
        assert(b =~= b0.push(b[end]));
    }
}

/// What is handed out at a tick is determined by the queue: two lists that
/// both hold exactly the due tasks in dispatch order are the same list.
pub proof fn law_handing_out_is_deterministic(queue: QueueModel, tick: u64, a: Seq<TaskId>, b: Seq<TaskId>)
    requires
        queue.surfaces(tick, a),
        queue.surfaces(tick, b),
    ensures
        a == b,
{
    assert forall|task: TaskId| #[trigger] a.contains(task) implies b.contains(task) by {
        let i = choose|i: int| 0 <= i < a.len() && a[i] == task;
        assert(queue.is_due(a[i] as int, tick));
        let j = choose|j: int| 0 <= j < b.len() && b[j] == task as int;
        assert(b[j] == task);
    }
    assert forall|task: TaskId| #[trigger] b.contains(task) implies a.contains(task) by {
        let j = choose|j: int| 0 <= j < b.len() && b[j] == task;
        assert(queue.is_due(b[j] as int, tick));
        let i = choose|i: int| 0 <= i < a.len() && a[i] == task as int;
        assert(a[i] == task);
    }
    lemma_dispatch_order_is_unique(queue, a, b);
}

/// Of two tasks that are handed out together with one deadline, the one of
/// higher priority comes first, and of two with one priority the one that was
/// registered first.
pub proof fn law_ties_go_by_priority_then_registration(queue: QueueModel, tick: u64, due: Seq<TaskId>, i: int, j: int)
    requires
        queue.surfaces(tick, due),
        0 <= i < due.len(),
        0 <= j < due.len(),
        queue.deadlines[due[i] as int] == queue.deadlines[due[j] as int],
        queue.priorities[due[i] as int] > queue.priorities[due[j] as int] || (queue.priorities[due[i] as int]
            == queue.priorities[due[j] as int] && due[i] < due[j]),
    ensures
        i < j,
{
    if j < i {
        assert(queue.runs_before(due[j] as int, due[i] as int));
    }
}

/// A run does not move the clock back.
proof fn lemma_run_ends_later(queue: QueueModel, steps: Seq<Step>)
    requires
        steps.len() > 0,
        queue.stepped(steps),
    ensures
        queue.now <= steps.last().tick,
    decreases steps.len(),
{
    let rest = steps.skip(1);
    if rest.len() > 0 {
        lemma_run_ends_later(queue.advance(steps[0].tick), rest);
        assert(rest.last() == steps.last());
    }
}

/// Each scheduled task is handed out exactly once, at or after its requested
/// tick, in tick order. For a run of the queue, however the clock was stepped:
/// the tasks handed out over the whole run are exactly those whose deadline
/// lies at or before the last tick, in the order of a single step to that
/// tick; none occurs twice; their deadlines never decrease along the run; and
/// a task handed out at some step had its deadline at or before that step's
/// tick.
pub proof fn law_each_request_is_handed_out_once_in_tick_order(queue: QueueModel, steps: Seq<Step>)
    requires
        queue.wf(),
        steps.len() > 0,
        queue.stepped(steps),
    ensures
        queue.surfaces(steps.last().tick, handed_out(steps)),
        forall|i: int, j: int|
            0 <= i < j < handed_out(steps).len() ==> #[trigger] handed_out(steps)[i] != #[trigger] handed_out(steps)[j],
        forall|i: int, j: int|
            0 <= i < j < handed_out(steps).len() ==> queue.deadlines[#[trigger] handed_out(steps)[i] as int].unwrap()
                <= queue.deadlines[#[trigger] handed_out(steps)[j] as int].unwrap(),
        forall|k: int, i: int|
            0 <= k < steps.len() && 0 <= i < steps[k].due.len() ==> queue.is_pending(
                #[trigger] steps[k].due[i] as int,
            ) && queue.deadlines[steps[k].due[i] as int].unwrap() <= steps[k].tick,
    decreases steps.len(),
{
    let first = steps[0];
    let rest = steps.skip(1);
    let next = queue.advance(first.tick);
    let all = handed_out(steps);
    let last = steps.last().tick;
    lemma_run_ends_later(queue, steps);
    if rest.len() == 0 {
        assert(handed_out(rest) =~= Seq::<TaskId>::empty());
        assert(all =~= first.due);
        assert forall|k: int, i: int| 0 <= k < steps.len() && 0 <= i < steps[k].due.len() implies queue.is_pending(
            #[trigger] steps[k].due[i] as int,
        ) && queue.deadlines[steps[k].due[i] as int].unwrap() <= steps[k].tick by {
            assert(queue.is_due(first.due[i] as int, first.tick));
        }
    } else {
        let later = handed_out(rest);
        law_each_request_is_handed_out_once_in_tick_order(next, rest);
        lemma_run_ends_later(next, rest);
        assert(rest.last() == steps.last());
        assert(first.tick <= last);
        let n = first.due.len() as int;
        assert(all.len() == n + later.len());
        assert forall|i: int| 0 <= i < all.len() implies queue.is_due(#[trigger] all[i] as int, last) by {
            if i < n {
                assert(all[i] == first.due[i]);
                assert(queue.is_due(first.due[i] as int, first.tick));
            } else {
                assert(all[i] == later[i - n]);
                assert(next.is_due(later[i - n] as int, last));
            }
        }
        assert forall|task: int| #[trigger] queue.is_due(task, last) implies exists|i: int|
            0 <= i < all.len() && all[i] == task by {
            if queue.is_due(task, first.tick) {
                let i = choose|i: int| 0 <= i < first.due.len() && first.due[i] == task;
                assert(all[i] == task);
            } else {
                assert(next.is_due(task, last));
                let i = choose|i: int| 0 <= i < later.len() && later[i] == task;
                assert(all[n + i] == task);
            }
        }
        assert forall|i: int, j: int| 0 <= i < j < all.len() implies queue.runs_before(
            #[trigger] all[i] as int,
            #[trigger] all[j] as int,
        ) by {
            if j < n {
                assert(all[i] == first.due[i] && all[j] == first.due[j]);
            } else if i >= n {
                assert(all[i] == later[i - n] && all[j] == later[j - n]);
                assert(next.is_due(later[i - n] as int, last));
                assert(next.is_due(later[j - n] as int, last));
                assert(next.runs_before(later[i - n] as int, later[j - n] as int));
            } else {
                assert(all[i] == first.due[i] && all[j] == later[j - n]);
                assert(queue.is_due(first.due[i] as int, first.tick));
                assert(next.is_due(later[j - n] as int, last));
            }
        }
        assert forall|k: int, i: int| 0 <= k < steps.len() && 0 <= i < steps[k].due.len() implies queue.is_pending(
            #[trigger] steps[k].due[i] as int,
        ) && queue.deadlines[steps[k].due[i] as int].unwrap() <= steps[k].tick by {
            if k == 0 {
                assert(queue.is_due(first.due[i] as int, first.tick));
            } else {
                assert(steps[k] == rest[k - 1]);
                assert(next.is_pending(rest[k - 1].due[i] as int));
            }
        }
    }
    assert forall|i: int, j: int| 0 <= i < j < all.len() implies #[trigger] all[i] != #[trigger] all[j] by {
        assert(queue.runs_before(all[i] as int, all[j] as int));
    }
    assert forall|i: int, j: int| 0 <= i < j < all.len() implies queue.deadlines[#[trigger] all[i] as int].unwrap()
        <= queue.deadlines[#[trigger] all[j] as int].unwrap() by {
        assert(queue.runs_before(all[i] as int, all[j] as int));
    }
}

/// Requests for distinct tasks that have nothing pending are all accepted:
/// each is recorded at the current tick plus its delay, and nothing else
/// changes.
pub proof fn law_distinct_requests_are_all_recorded(queue: QueueModel, requests: Seq<Request>)
    requires
        queue.wf(),
        forall|k: int| 0 <= k < requests.len() ==> queue.registered((#[trigger] requests[k]).task as int)
            && !queue.is_pending(requests[k].task as int) && queue.now + requests[k].delay <= u64::MAX,
        forall|k: int, m: int| 0 <= k < m < requests.len() ==> (#[trigger] requests[k]).task != (#[trigger] requests[m]).task,
    ensures
        queue.accepted_all(requests),
        queue.scheduled_all(requests).wf(),
        queue.scheduled_all(requests).now == queue.now,
        queue.scheduled_all(requests).priorities == queue.priorities,
        forall|k: int|
            0 <= k < requests.len() ==> queue.scheduled_all(requests).deadlines[(#[trigger] requests[k]).task as int]
                == Some((queue.now + requests[k].delay) as u64),
        forall|task: int|
            queue.registered(task) && !requests.map_values(|r: Request| r.task as int).contains(task)
                ==> #[trigger] queue.scheduled_all(requests).deadlines[task] == queue.deadlines[task],
    decreases requests.len(),
{
    if requests.len() > 0 {
        let earlier = requests.drop_last();
        let top = requests.len() - 1;
        let newest = requests[top];
        let names = requests.map_values(|r: Request| r.task as int);
        let earlier_names = earlier.map_values(|r: Request| r.task as int);
        assert forall|k: int| 0 <= k < earlier.len() implies queue.registered((#[trigger] earlier[k]).task as int)
            && !queue.is_pending(earlier[k].task as int) && queue.now + earlier[k].delay <= u64::MAX by {
            assert(earlier[k] == requests[k]);
        }
        assert forall|k: int, m: int| 0 <= k < m < earlier.len() implies (#[trigger] earlier[k]).task != (
        #[trigger] earlier[m]).task by {
            assert(earlier[k] == requests[k] && earlier[m] == requests[m]);
        }
        law_distinct_requests_are_all_recorded(queue, earlier);
        let before = queue.scheduled_all(earlier);
        let after = queue.scheduled_all(requests);
        assert(queue.registered(requests[top].task as int));
        if earlier_names.contains(newest.task as int) {
            let k = choose|k: int| 0 <= k < earlier_names.len() && earlier_names[k] == newest.task as int;
            assert(requests[k].task != requests[top].task);
        }
        assert(before.deadlines[newest.task as int] == queue.deadlines[newest.task as int]);
        assert(after == before.with_request(newest.task as int, (queue.now + newest.delay) as u64));
        assert forall|k: int| 0 <= k < requests.len() implies after.deadlines[(#[trigger] requests[k]).task as int]
            == Some((queue.now + requests[k].delay) as u64) by {
            assert(queue.registered(requests[k].task as int));
            if k < top {
                assert(earlier[k] == requests[k]);
                assert(requests[k].task != requests[top].task);
            }
        }
        assert forall|task: int| queue.registered(task) && !names.contains(task) implies #[trigger] after.deadlines[task]
            == queue.deadlines[task] by {
            assert(names[top] == newest.task as int);
            if earlier_names.contains(task) {
                let k = choose|k: int| 0 <= k < earlier_names.len() && earlier_names[k] == task;
                assert(names[k] == task);
            }
        }
    }
}

/// A second request for a task is refused while its first is pending, and the
/// first stands: it comes due at the tick it was made for, whatever delay the
/// refused request named.
pub proof fn law_duplicate_request_leaves_first_in_place(queue: QueueModel, task: int, first: u64, second: u64)
    requires
        queue.wf(),
        queue.registered(task),
        !queue.is_pending(task),
        queue.now + first <= u64::MAX,
    ensures
        queue.schedule(task, first).0 is Ok,
        queue.schedule(task, first).1.schedule(task, second) == (
            Err::<(), SchedulerError>(SchedulerError::DuplicateSchedule),
            queue.schedule(task, first).1,
        ),
        forall|tick: u64| #[trigger]
            queue.schedule(task, first).1.schedule(task, second).1.is_due(task, tick) <==> queue.now + first <= tick,
{
}

/// The requests of one task come due in the order in which they were made: a
/// request that is made once the one before it has been handed out has a
/// deadline that is not earlier.
pub proof fn law_requests_of_one_task_come_due_in_order(queue: QueueModel, task: int, tick: u64, delay: u64)
    requires
        queue.wf(),
        queue.now <= tick,
        queue.is_due(task, tick),
        tick + delay <= u64::MAX,
    ensures
        !queue.advance(tick).is_pending(task),
        queue.advance(tick).schedule(task, delay).0 is Ok,
        queue.advance(tick).schedule(task, delay).1.deadlines[task] == Some((tick + delay) as u64),
        queue.deadlines[task].unwrap() <= tick + delay,
{
}

/// For every sequence of requests for distinct tasks, each task is handed out
/// exactly once, at or after the tick it was requested for, in tick order.
/// The requests are made on a queue in which none of their tasks has a request
/// pending, and the run starts from the queue they leave. Then: a request whose
/// tick the run has reached has its task handed out; no task is handed out
/// twice; a task is handed out only at a step whose tick is at or after the
/// tick requested for it; and of two requests whose tasks are handed out, the
/// one handed out first does not have the later tick.
pub proof fn law_distinct_requests_are_each_handed_out_once(queue: QueueModel, requests: Seq<Request>, steps: Seq<Step>)
    requires
        queue.wf(),
        forall|k: int| 0 <= k < requests.len() ==> queue.registered((#[trigger] requests[k]).task as int)
            && !queue.is_pending(requests[k].task as int) && queue.now + requests[k].delay <= u64::MAX,
        forall|k: int, m: int| 0 <= k < m < requests.len() ==> (#[trigger] requests[k]).task != (#[trigger] requests[m]).task,
        steps.len() > 0,
        queue.scheduled_all(requests).stepped(steps),
    ensures
        queue.accepted_all(requests),
        forall|k: int|
            0 <= k < requests.len() && queue.now + (#[trigger] requests[k]).delay <= steps.last().tick
                ==> handed_out(steps).contains(requests[k].task),
        forall|i: int, j: int|
            0 <= i < j < handed_out(steps).len() ==> #[trigger] handed_out(steps)[i] != #[trigger] handed_out(steps)[j],
        forall|m: int, i: int, k: int|
            0 <= m < steps.len() && 0 <= i < steps[m].due.len() && 0 <= k < requests.len() && #[trigger] steps[m].due[i]
                == (#[trigger] requests[k]).task ==> queue.now + requests[k].delay <= steps[m].tick,
        forall|i: int, j: int, a: int, b: int|
            0 <= i < j < handed_out(steps).len() && 0 <= a < requests.len() && 0 <= b < requests.len()
                && #[trigger] handed_out(steps)[i] == (#[trigger] requests[a]).task && #[trigger] handed_out(steps)[j]
                == (#[trigger] requests[b]).task ==> requests[a].delay <= requests[b].delay,
{
    let start = queue.scheduled_all(requests);
    let all = handed_out(steps);
    law_distinct_requests_are_all_recorded(queue, requests);
    law_each_request_is_handed_out_once_in_tick_order(start, steps);
    assert forall|k: int|
        0 <= k < requests.len() && queue.now + (#[trigger] requests[k]).delay <= steps.last().tick implies all.contains(
        requests[k].task,
    ) by {
        assert(start.is_due(requests[k].task as int, steps.last().tick));
        let i = choose|i: int| 0 <= i < all.len() && all[i] == requests[k].task as int;
        assert(all[i] == requests[k].task);
    }
    assert forall|m: int, i: int, k: int|
        0 <= m < steps.len() && 0 <= i < steps[m].due.len() && 0 <= k < requests.len() && #[trigger] steps[m].due[i]
            == (#[trigger] requests[k]).task implies queue.now + requests[k].delay <= steps[m].tick by {
        assert(start.is_pending(steps[m].due[i] as int));
    }
    assert forall|i: int, j: int, a: int, b: int|
        0 <= i < j < all.len() && 0 <= a < requests.len() && 0 <= b < requests.len() && #[trigger] all[i] == (
        #[trigger] requests[a]).task && #[trigger] all[j] == (#[trigger] requests[b]).task implies requests[a].delay
        <= requests[b].delay by {
        assert(start.deadlines[all[i] as int].unwrap() <= start.deadlines[all[j] as int].unwrap());
    }
}

} // verus!
