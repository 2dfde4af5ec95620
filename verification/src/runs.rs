//! Whole runs: sequences of operations on the state machine.

use vstd::prelude::*;
use crate::model::{Cursor, EngineState};
use crate::phase::Phase;
use crate::time::Time;

verus! {

/// One operation on an engine, with its arguments.
pub enum Op<B, T> {
    /// `spawn2` with the given phase and body.
    Spawn(Phase, B),
    /// `wake` for the task with the given number.
    Wake(usize),
    /// `suspend` for the task with the given number, with the given body.
    Suspend(usize, B),
    /// `complete` for the task with the given number, with the given value.
    Complete(usize, T),
    /// `join` on the handle of the first task, on behalf of the second.
    Join(usize, usize),
    /// `push_yield` for the task with the given number.
    PushYield(usize),
    /// `stop`.
    Stop,
    /// `clear`.
    Clear,
    /// `now`, where the clock shows this.
    Now(Time),
    /// `dispatch`.
    Dispatch,
}

impl<B, T> EngineState<B, T> {
    /// The operation may be called in this state: a resume-step is ended
    /// only while it is open, and the task table and the pass counter have
    /// room where the operation needs it.
    pub open spec fn admits(self, op: Op<B, T>) -> bool {
        match op {
            Op::Spawn(_, _) => self.tasks.len() < usize::MAX,
            Op::Suspend(task, _) => self.is_running(task),
            Op::Complete(task, _) => self.is_running(task),
            Op::Dispatch => self.pass_over() ==> self.iteration < u64::MAX,
            _ => true,
        }
    }

    /// The state after the operation.
    pub open spec fn apply(self, op: Op<B, T>) -> Self {
        match op {
            Op::Spawn(phase, body) => self.spawn(phase, body),
            Op::Wake(task) => self.wake(task),
            Op::Suspend(task, body) => self.suspend(task, body),
            Op::Complete(task, value) => self.complete(task, value),
            Op::Join(task, waker) => self.join(task, waker).0,
            Op::PushYield(task) => self.push_yield(task),
            Op::Stop => self.stop(),
            Op::Clear => self.clear(),
            Op::Now(sample) => self.now(sample).0,
            Op::Dispatch => self.dispatch().0,
        }
    }

    /// The state after the operations, first to last.
    pub open spec fn run(self, ops: Seq<Op<B, T>>) -> Self
        decreases ops.len(),
    {
        if ops.len() == 0 {
            self
        } else {
            self.apply(ops[0]).run(ops.skip(1))
        }
    }

    /// Every operation of the run may be called where it stands.
    pub open spec fn admits_all(self, ops: Seq<Op<B, T>>) -> bool
        decreases ops.len(),
    {
        ops.len() > 0 ==> self.admits(ops[0]) && self.apply(ops[0]).admits_all(ops.skip(1))
    }

    /// The task that the operation queues, if it queues one: the task that
    /// it wakes out of suspension, or the woken task that it suspends.
    pub open spec fn queued_by(self, op: Op<B, T>) -> Option<usize> {
        match op {
            Op::Wake(task) => if task < self.tasks.len() && self.tasks[task as int].state
                is Suspended {
                Some(task)
            } else {
                None
            },
            Op::Suspend(task, _) => if self.tasks[task as int].state is Woken {
                Some(task)
            } else {
                None
            },
            Op::Complete(task, _) => match self.tasks[task as int].waiter {
                Some(w) => if w < self.tasks.len() && w != task && self.tasks[w as int].state
                    is Suspended {
                    Some(w)
                } else {
                    None
                },
                None => None,
            },
            _ => None,
        }
    }

    /// The operation pushes no work to a phase before the one being drained.
    pub open spec fn orderly(self, op: Op<B, T>) -> bool {
        self.cursor matches Cursor::Draining(phase) ==> match op {
            Op::Spawn(into, _) => into.rank() >= phase.rank(),
            _ => match self.queued_by(op) {
                Some(task) => self.tasks[task as int].phase.rank() >= phase.rank(),
                None => true,
            },
        }
    }

    /// No operation of the run pushes work to a phase before the one being
    /// drained at that moment.
    pub open spec fn orderly_all(self, ops: Seq<Op<B, T>>) -> bool
        decreases ops.len(),
    {
        ops.len() > 0 ==> self.orderly(ops[0]) && self.apply(ops[0]).orderly_all(ops.skip(1))
    }

    /// The operation neither wakes `task` nor makes it wait for a result.
    pub open spec fn spares(self, op: Op<B, T>, task: usize) -> bool {
        match op {
            Op::Wake(woken) => woken != task,
            Op::Join(_, waker) => waker != task,
            _ => true,
        }
    }

    /// No operation of the run wakes `task` or makes it wait for a result.
    pub open spec fn spares_all(self, ops: Seq<Op<B, T>>, task: usize) -> bool
        decreases ops.len(),
    {
        ops.len() > 0 ==> self.spares(ops[0], task) && self.apply(ops[0]).spares_all(
            ops.skip(1),
            task,
        )
    }

    /// A call of `dispatch` in this state would start a pass.
    pub open spec fn starts_pass(self) -> bool {
        (self.cursor is Idle || self.pass_over()) && self.dispatch().1 is Run
    }

    /// No call of `dispatch` in the run starts a pass.
    pub open spec fn within_pass(self, ops: Seq<Op<B, T>>) -> bool
        decreases ops.len(),
    {
        ops.len() > 0 ==> !(ops[0] is Dispatch && self.starts_pass()) && self.apply(
            ops[0],
        ).within_pass(ops.skip(1))
    }

    /// No task waits for the result of another on behalf of `task`.
    pub open spec fn awaited_by_none(self, task: usize) -> bool {
        forall|t: int| 0 <= t < self.tasks.len() ==> (#[trigger] self.tasks[t]).waiter != Some(task)
    }

    /// An operation that may be called keeps the invariant.
    pub proof fn lemma_apply_wf(self, op: Op<B, T>)
        requires
            self.wf(),
            self.admits(op),
        ensures
            self.apply(op).wf(),
            self.apply(op).iteration >= self.iteration,
            self.apply(op).tasks.len() >= self.tasks.len(),
    {
        match op {
            Op::Spawn(phase, body) => {
                self.lemma_spawn_wf(phase, body);
            },
            Op::Wake(task) => {
                self.lemma_wake_wf(task);
            },
            Op::Suspend(task, body) => {
                self.lemma_suspend_wf(task, body);
            },
            Op::Complete(task, value) => {
                self.lemma_complete_wf(task, value);
                self.lemma_complete_frame(task, value);
            },
            Op::Join(task, waker) => {
                self.lemma_join_wf(task, waker);
            },
            Op::PushYield(task) => {
                self.lemma_push_yield_wf(task);
            },
            Op::Stop => {},
            Op::Clear => {
                self.lemma_clear_wf();
            },
            Op::Now(sample) => {
                self.lemma_now_wf(sample);
            },
            Op::Dispatch => {
                self.lemma_dispatch_wf();
                self.lemma_dispatch_grows();
            },
        }
    }

    /// Completing a task touches neither the counter nor the cursor.
    pub proof fn lemma_complete_frame(self, task: usize, value: T)
        requires
            self.wf(),
            self.is_running(task),
        ensures
            self.complete(task, value).iteration == self.iteration,
            self.complete(task, value).cursor == self.cursor,
            self.complete(task, value).stopped == self.stopped,
            self.complete(task, value).now == self.now,
            self.complete(task, value).yields == self.yields,
            self.complete(task, value).stash == self.stash,
            self.complete(task, value).tasks.len() == self.tasks.len(),
    {
    }

    /// Starting a pass drops no task and touches only the task that it
    /// hands out, which was queued.
    pub proof fn lemma_begin_touches(self)
        requires
            self.wf(),
            self.stash.len() == 0,
        ensures
            self.begin().0.tasks.len() == self.tasks.len(),
            self.begin().0.iteration == self.iteration,
            forall|t: int|
                0 <= t < self.tasks.len() && !(self.tasks[t].state is Queued)
                    ==> #[trigger] self.begin().0.tasks[t] == self.tasks[t],
            forall|t: int|
                0 <= t < self.tasks.len() ==> (#[trigger] self.begin().0.tasks[t]).waiter
                    == self.tasks[t].waiter,
    {
        self.lemma_first_ready(0);
        let r = self.first_ready(0);
        if r < 4 {
            assert(self.entry_ok(self.queues[r][0], r));
        }
    }

    /// A step of the dispatch loop never lowers the pass counter and drops
    /// no task. Unless it counts a pass, it touches only the task that it
    /// hands out, which was queued.
    pub proof fn lemma_dispatch_grows(self)
        requires
            self.wf(),
            self.admits(Op::Dispatch),
        ensures
            self.dispatch().0.iteration >= self.iteration,
            self.dispatch().0.tasks.len() == self.tasks.len(),
            forall|t: int|
                0 <= t < self.tasks.len() && !(self.tasks[t].state is Queued) && !self.pass_over()
                    ==> #[trigger] self.dispatch().0.tasks[t] == self.tasks[t],
            forall|t: int|
                0 <= t < self.tasks.len() && !self.pass_over() ==> (
                #[trigger] self.dispatch().0.tasks[t]).waiter == self.tasks[t].waiter,
    {
        match self.cursor {
            Cursor::Idle => {
                self.lemma_begin_touches();
            },
            Cursor::Draining(phase) => {
                if self.stopped {
                } else if self.stash.len() > 0 {
                    assert(self.entry_ok(self.stash[0], phase.rank()));
                } else {
                    self.lemma_next_ready(phase.rank());
                    let r = self.next_ready(phase.rank());
                    if r < 4 {
                        assert(self.entry_ok(self.queues[r][0], r));
                    } else {
                        let counted = EngineState {
                            iteration: self.iteration + 1,
                            yields: Seq::empty(),
                            cursor: Cursor::Idle,
                            ..self
                        };
                        assert(counted.wf());
                        counted.lemma_wake_all_wf(self.yields);
                        counted.wake_all(self.yields).lemma_begin_touches();
                    }
                }
            },
        }
    }
}

} // verus!
