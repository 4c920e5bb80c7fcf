//! The shared output line and the cell that serialises access to it.

use crate::error::SchedulerError;
use crate::queue::TaskId;
use vstd::prelude::*;

verus! {

/// The two states an output line can be driven to.
#[derive(Clone, Copy, Debug, PartialEq, Eq, Structural)]
pub enum Level {
    Low,
    High,
}

/// The handle of the output line. It remembers the level it was last driven to.
#[derive(Clone, Copy, Debug, PartialEq, Eq, Structural)]
pub struct OutputLine {
    level: Level,
}

impl View for OutputLine {
    type V = Level;

    closed spec fn view(&self) -> Level {
        self.level
    }
}

impl OutputLine {
    /// A line that is driven to `level`.
    pub fn new(level: Level) -> (line: OutputLine)
        ensures
            line@ == level,
    {
        OutputLine { level }
    }

    /// Drives the line to `level`.
    pub fn set(&mut self, level: Level)
        ensures
            final(self)@ == level,
    {
        self.level = level;
    }

    /// Drives the line high.
    pub fn set_high(&mut self)
        ensures
            final(self)@ == Level::High,
    {
        self.set(Level::High);
    }

    /// Drives the line low.
    pub fn set_low(&mut self)
        ensures
            final(self)@ == Level::Low,
    {
        self.set(Level::Low);
    }

    /// The level the line was last driven to.
    pub fn level(&self) -> (level: Level)
        ensures
            level == self@,
    {
        self.level
    }

    /// Whether the line is high.
    pub fn is_high(&self) -> (high: bool)
        ensures
            high == (self@ == Level::High),
    {
        match self.level {
            Level::High => true,
            Level::Low => false,
        }
    }
}

/// Who holds the cell, and the priority floor that was in force when it was taken.
#[derive(Clone, Copy, Debug, PartialEq, Eq, Structural)]
pub struct Lease {
    /// The task inside the critical section.
    pub holder: TaskId,
    /// The priority floor to go back to when the section is left.
    pub prior_floor: u8,
}

/// The mathematical content of a [`ResourceCell`].
pub struct CellModel {
    /// The level of the line inside the cell.
    pub level: Level,
    /// The highest priority among the tasks that use the line.
    pub ceiling: u8,
    /// Present while the cell is held.
    pub lease: Option<Lease>,
}

impl CellModel {
    /// Whether a task is inside the critical section.
    pub open spec fn is_held(self) -> bool {
        self.lease is Some
    }

    /// The floor that a holder coming from `floor` raises the priority to.
    pub open spec fn raised(self, floor: u8) -> u8 {
        if floor >= self.ceiling {
            floor
        } else {
            self.ceiling
        }
    }

    /// The priority floor the cell enforces: none while it is free.
    pub open spec fn floor(self) -> Option<u8> {
        match self.lease {
            Some(lease) => Some(self.raised(lease.prior_floor)),
            None => None,
        }
    }

    /// What `acquire` answers and the cell it leaves.
    pub open spec fn acquire(self, task: TaskId, floor: u8) -> (Result<u8, SchedulerError>, CellModel) {
        if self.is_held() {
            (Err(SchedulerError::ReentrantLock), self)
        } else {
            (
                Ok(self.raised(floor)),
                CellModel { lease: Some(Lease { holder: task, prior_floor: floor }), ..self },
            )
        }
    }

    /// What `release` answers and the cell it leaves.
    pub open spec fn release(self) -> (Option<Lease>, CellModel) {
        (self.lease, CellModel { lease: None, ..self })
    }

    /// The cell with the line at `level`.
    pub open spec fn with_level(self, level: Level) -> CellModel {
        CellModel { level, ..self }
    }

    /// One whole critical section: `pre` was free, `body` was run on the line
    /// exactly as `pre` held it, and `post` is `pre` with the line as `body`
    /// returned it, free again.
    pub open spec fn critical_section<F: FnOnce(OutputLine) -> OutputLine>(
        pre: CellModel,
        body: F,
        post: CellModel,
    ) -> bool {
        &&& !pre.is_held()
        &&& post == pre.with_level(post.level)
        &&& exists|before: OutputLine, after: OutputLine|
            before@ == pre.level && after@ == post.level && call_ensures(body, (before,), after)
    }
}

/// The one shared resource: the output line, guarded by a priority-ceiling lock.
pub struct ResourceCell {
    line: OutputLine,
    ceiling: u8,
    lease: Option<Lease>,
}

impl View for ResourceCell {
    type V = CellModel;

    closed spec fn view(&self) -> CellModel {
        CellModel { level: self.line@, ceiling: self.ceiling, lease: self.lease }
    }
}

impl ResourceCell {
    /// A free cell around a line driven to `initial`, with the given ceiling.
    pub fn new(initial: Level, ceiling: u8) -> (cell: ResourceCell)
        ensures
            cell@ == (CellModel { level: initial, ceiling, lease: None }),
    {
        ResourceCell { line: OutputLine::new(initial), ceiling, lease: None }
    }

    /// The level of the line, as the last critical section left it.
    pub fn read(&self) -> (level: Level)
        ensures
            level == self@.level,
    {
        self.line.level()
    }

    /// The ceiling priority of the cell.
    pub fn ceiling(&self) -> (ceiling: u8)
        ensures
            ceiling == self@.ceiling,
    {
        self.ceiling
    }

    /// The task that holds the cell, if it is held.
    pub fn holder(&self) -> (holder: Option<TaskId>)
        ensures
            holder == match self@.lease {
                Some(lease) => Some(lease.holder),
                None => None,
            },
    {
        match self.lease {
            Some(lease) => Some(lease.holder),
            None => None,
        }
    }

    /// The priority floor the cell enforces while it is held.
    pub fn floor(&self) -> (floor: Option<u8>)
        ensures
            floor == self@.floor(),
    {
        match self.lease {
            Some(lease) => Some(
                if lease.prior_floor >= self.ceiling {
                    lease.prior_floor
                } else {
                    self.ceiling
                },
            ),
            None => None,
        }
    }

    /// Enters the critical section for `task`, which runs at priority floor
    /// `floor`. The floor is recorded and the raised floor is returned: the
    /// larger of `floor` and the ceiling. A cell that is already held refuses
    /// with `ReentrantLock` and stays as it is.
    pub fn acquire(&mut self, task: TaskId, floor: u8) -> (outcome: Result<u8, SchedulerError>)
        ensures
            (outcome, final(self)@) == old(self)@.acquire(task, floor),
    {
        if self.lease.is_some() {
            return Err(SchedulerError::ReentrantLock);
        }
        self.lease = Some(Lease { holder: task, prior_floor: floor });
        Ok(if floor >= self.ceiling { floor } else { self.ceiling })
    }

    /// Leaves the critical section and hands back the lease, whose floor is to
    /// be restored. A free cell stays free and hands back nothing.
    pub fn release(&mut self) -> (lease: Option<Lease>)
        ensures
            (lease, final(self)@) == old(self)@.release(),
    {
        let lease = self.lease;
        self.lease = None;
        lease
    }

    /// Drives the line to `level` from inside a critical section that `task` has entered.
    /// Outside of one, or for another task, nothing happens and `false` is returned.
    pub fn set(&mut self, task: TaskId, level: Level) -> (done: bool)
        ensures
            done == (old(self)@.lease is Some && old(self)@.lease.unwrap().holder == task),
            final(self)@ == if done { old(self)@.with_level(level) } else { old(self)@ },
    {
        match self.lease {
            Some(lease) => {
                if lease.holder == task {
                    self.line.set(level);
                    true
                } else {
                    false
                }
            },
            None => false,
        }
    }

    /// Runs `body` with exclusive access to the line: the cell is taken for
    /// `task`, `body` receives the line as the last critical section left it,
    /// the line it returns is stored, and the cell is free again. A cell that is
    /// already held refuses with `ReentrantLock`; `body` is then not run.
    pub fn lock<F: FnOnce(OutputLine) -> OutputLine>(&mut self, task: TaskId, floor: u8, body: F) -> (outcome: Result<(), SchedulerError>)
        requires
            !old(self)@.is_held() ==> forall|line: OutputLine| line@ == old(self)@.level ==> call_requires(body, (line,)),
        ensures
            old(self)@.is_held() ==> outcome == Err::<(), SchedulerError>(SchedulerError::ReentrantLock) && final(self)@ == old(self)@,
            !old(self)@.is_held() ==> outcome is Ok && CellModel::critical_section(old(self)@, body, final(self)@),
    {
        match self.acquire(task, floor) {
            Err(e) => Err(e),
            Ok(_) => {
                let line = self.line;
                let after = body(line);
                self.line = after;
                self.release();
                Ok(())
            },
        }
    }
}

/// Critical sections do not interleave: of two that follow each other on one
/// cell, the second receives the line exactly as the first returned it, and
/// what it returns is what the cell holds afterwards.
pub proof fn law_critical_sections_run_in_sequence<F: FnOnce(OutputLine) -> OutputLine, G: FnOnce(OutputLine) -> OutputLine>(
    start: CellModel,
    first: F,
    between: CellModel,
    second: G,
    end: CellModel,
)
    requires
        CellModel::critical_section(start, first, between),
        CellModel::critical_section(between, second, end),
    ensures
        exists|a: OutputLine, b: OutputLine, c: OutputLine|
            a@ == start.level && b@ == between.level && c@ == end.level && call_ensures(first, (a,), b)
                && call_ensures(second, (b,), c),
        end == start.with_level(end.level),
{
    let (a, b) = choose|a: OutputLine, b: OutputLine|
        a@ == start.level && b@ == between.level && call_ensures(first, (a,), b);
    let (b2, c) = choose|b2: OutputLine, c: OutputLine|
        b2@ == between.level && c@ == end.level && call_ensures(second, (b2,), c);
    assert(b == b2);
    assert(a@ == start.level && b@ == between.level && c@ == end.level && call_ensures(first, (a,), b)
        && call_ensures(second, (b,), c));
}

/// The line keeps the level it was last driven to: of two writes that follow
/// each other only the second shows, and a read gives it back.
pub proof fn law_last_write_stands(cell: CellModel, earlier: Level, later: Level)
    ensures
        cell.with_level(earlier).with_level(later) == cell.with_level(later),
        cell.with_level(earlier).with_level(later).level == later,
{
}

} // verus!
