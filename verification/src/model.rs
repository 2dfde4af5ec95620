//! The engine as a mathematical state machine.
//!
//! [`EngineState`] is the abstract value of an engine, and each operation of
//! the engine is a function from state to state here. The executable engine
//! is proved to follow these functions step by step.

use vstd::prelude::*;
use crate::phase::Phase;
use crate::task::{Poll, Slot, Task, TaskState, YieldWaiter};
use crate::time::Time;

verus! {

/// Where the dispatch loop stands between two calls of `dispatch`.
#[derive(Copy, Clone, PartialEq, Eq, Structural, Debug)]
pub enum Cursor {
    /// No pass is under way.
    Idle,
    /// A pass is under way and is draining this phase. A task of this phase
    /// has been handed out and its resume-step is over or still running.
    Draining(Phase),
}

/// What one call of `dispatch` asks the caller to do.
pub enum Step<B> {
    /// Resume the body that comes second; it belongs to the task whose
    /// number comes first.
    Run(usize, B),
    /// Nothing is pending anywhere.
    Idle,
    /// The stop flag is set: the pass was abandoned.
    Stopped,
}

/// The abstract state of an engine.
pub struct EngineState<B, T> {
    /// Every task ever spawned, by its number.
    pub tasks: Seq<Task<B, T>>,
    /// The four phase queues, by rank; each holds task numbers, oldest first.
    pub queues: Seq<Seq<usize>>,
    /// What is left of the buffer that is being drained.
    pub stash: Seq<usize>,
    /// The tasks to wake at the end of the pass, in order of registration.
    pub yields: Seq<YieldWaiter>,
    pub cursor: Cursor,
    /// The number of entries in the four phase queues.
    pub pending: nat,
    /// The number of completed passes.
    pub iteration: nat,
    pub stopped: bool,
    /// The timestamp cached for the current pass.
    pub now: Option<Time>,
}

impl<B, T> EngineState<B, T> {
    /// The state of a new engine.
    pub open spec fn init() -> Self {
        EngineState {
            tasks: Seq::empty(),
            queues: Seq::new(4, |p: int| Seq::empty()),
            stash: Seq::empty(),
            yields: Seq::empty(),
            cursor: Cursor::Idle,
            pending: 0,
            iteration: 0,
            stopped: false,
            now: None,
        }
    }

    /// `task` is a task of this engine that is being resumed.
    pub open spec fn is_running(self, task: usize) -> bool {
        &&& task < self.tasks.len()
        &&& (self.tasks[task as int].state is Running || self.tasks[task as int].state is Woken)
    }

    /// Every queue of a phase before the one being drained is empty.
    pub open spec fn settled(self) -> bool {
        forall|q: int|
            0 <= q < 4 && self.cursor is Draining && q < self.cursor->0.rank()
                ==> (#[trigger] self.queues[q]).len() == 0
    }

    // ----- well-formedness -----

    /// `task` may stand in the list for the phase of rank `rank`.
    pub open spec fn entry_ok(self, task: usize, rank: int) -> bool {
        &&& task < self.tasks.len()
        &&& self.tasks[task as int].state is Queued
        &&& self.tasks[task as int].phase.rank() == rank
    }

    /// The invariant of the engine.
    pub open spec fn wf(self) -> bool {
        &&& self.queues.len() == 4
        &&& self.tasks.len() <= usize::MAX
        &&& self.iteration <= u64::MAX
        &&& self.pending == self.queues[0].len() + self.queues[1].len() + self.queues[2].len()
            + self.queues[3].len()
        &&& (self.stash.len() > 0 ==> self.cursor is Draining)
        &&& forall|p: int, i: int|
            0 <= p < 4 && 0 <= i < self.queues[p].len() ==> self.entry_ok(
                #[trigger] self.queues[p][i],
                p,
            )
        &&& forall|i: int|
            0 <= i < self.stash.len() ==> self.entry_ok(
                #[trigger] self.stash[i],
                self.cursor->0.rank(),
            )
        &&& forall|p: int| 0 <= p < 4 ==> (#[trigger] self.queues[p]).no_duplicates()
        &&& self.stash.no_duplicates()
        &&& forall|i: int, j: int|
            self.cursor is Draining && 0 <= i < self.stash.len() && 0 <= j
                < self.queues[self.cursor->0.rank()].len() ==> #[trigger] self.stash[i]
                != #[trigger] self.queues[self.cursor->0.rank()][j]
        &&& forall|i: int|
            0 <= i < self.yields.len() ==> (#[trigger] self.yields[i]).since <= self.iteration
        &&& forall|t: int|
            0 <= t < self.tasks.len() ==> ((#[trigger] self.tasks[t]).body is Some <==> (
            self.tasks[t].state is Queued || self.tasks[t].state is Suspended))
    }

    // ----- operations -----

    /// Appends an entry for `task` to the queue of `phase`.
    pub open spec fn push(self, task: usize, phase: Phase) -> Self {
        EngineState {
            queues: self.queues.update(phase.rank(), self.queues[phase.rank()].push(task)),
            pending: self.pending + 1,
            ..self
        }
    }

    /// Adds a task for `body` and queues its first entry in `phase`.
    pub open spec fn spawn(self, phase: Phase, body: B) -> Self {
        let task = Task {
            phase,
            state: TaskState::Queued,
            body: Some(body),
            slot: Slot::Unset,
            waiter: None,
        };
        EngineState { tasks: self.tasks.push(task), ..self }.push(self.tasks.len() as usize, phase)
    }

    /// Replaces the state of `task`.
    pub open spec fn set_state(self, task: usize, state: TaskState) -> Self {
        EngineState {
            tasks: self.tasks.update(task as int, Task { state, ..self.tasks[task as int] }),
            ..self
        }
    }

    /// Signals that `task` should be resumed. A suspended task is queued in
    /// its phase; a running task is marked so that it is queued again when it
    /// suspends; any other task, or an unknown number, changes nothing.
    pub open spec fn wake(self, task: usize) -> Self {
        if task >= self.tasks.len() {
            self
        } else if self.tasks[task as int].state is Suspended {
            self.set_state(task, TaskState::Queued).push(task, self.tasks[task as int].phase)
        } else if self.tasks[task as int].state is Running {
            self.set_state(task, TaskState::Woken)
        } else {
            self
        }
    }

    /// Wakes the tasks of `waiters`, first to last.
    pub open spec fn wake_all(self, waiters: Seq<YieldWaiter>) -> Self
        decreases waiters.len(),
    {
        if waiters.len() == 0 {
            self
        } else {
            self.wake(waiters[0].task).wake_all(waiters.skip(1))
        }
    }

    /// Ends a resume-step that left the body unfinished: the task parks, or
    /// is queued again at once if it was woken during the step.
    pub open spec fn suspend(self, task: usize, body: B) -> Self {
        let old = self.tasks[task as int];
        if old.state is Woken {
            EngineState {
                tasks: self.tasks.update(
                    task as int,
                    Task { state: TaskState::Queued, body: Some(body), ..old },
                ),
                ..self
            }.push(task, old.phase)
        } else {
            EngineState {
                tasks: self.tasks.update(
                    task as int,
                    Task { state: TaskState::Suspended, body: Some(body), ..old },
                ),
                ..self
            }
        }
    }

    /// Ends a resume-step that finished the body: stores the result and
    /// wakes the task that waits for it, if there is one.
    pub open spec fn complete(self, task: usize, value: T) -> Self {
        let old = self.tasks[task as int];
        let done = EngineState {
            tasks: self.tasks.update(
                task as int,
                Task {
                    state: TaskState::Completed,
                    body: None,
                    slot: Slot::Ready(value),
                    waiter: None,
                    ..old
                },
            ),
            ..self
        };
        match old.waiter {
            Some(w) => done.wake(w),
            None => done,
        }
    }

    /// One resume-step of the join handle of `task`, made on behalf of the
    /// task `waker`: takes the result if it is there, else registers `waker`.
    /// Once the result is taken, and for a number that is no task's, nothing
    /// changes.
    pub open spec fn join(self, task: usize, waker: usize) -> (Self, Poll<T>) {
        let old = self.tasks[task as int];
        if task >= self.tasks.len() {
            (self, Poll::Pending)
        } else {
            match old.slot {
                Slot::Unset => (
                    EngineState {
                        tasks: self.tasks.update(task as int, Task { waiter: Some(waker), ..old }),
                        ..self
                    },
                    Poll::Pending,
                ),
                Slot::Ready(value) => (
                    EngineState {
                        tasks: self.tasks.update(task as int, Task { slot: Slot::Taken, ..old }),
                        ..self
                    },
                    Poll::Ready(value),
                ),
                Slot::Taken => (self, Poll::Pending),
            }
        }
    }

    /// Registers `task` to be woken at the end of the pass.
    pub open spec fn push_yield(self, task: usize) -> Self {
        EngineState {
            yields: self.yields.push(YieldWaiter { task, since: self.iteration as u64 }),
            ..self
        }
    }

    /// Sets the stop flag.
    pub open spec fn stop(self) -> Self {
        EngineState { stopped: true, ..self }
    }

    /// What `clear` makes of a task: a queued task loses its entry and its
    /// body; every other task stays as it is.
    pub open spec fn discard(task: Task<B, T>) -> Task<B, T> {
        if task.state is Queued {
            Task { state: TaskState::Discarded, body: None, ..task }
        } else {
            task
        }
    }

    /// Throws away every queued entry and every yield-waiter.
    pub open spec fn clear(self) -> Self {
        EngineState {
            tasks: Seq::new(self.tasks.len(), |t: int| Self::discard(self.tasks[t])),
            queues: Seq::new(4, |p: int| Seq::empty()),
            stash: Seq::empty(),
            yields: Seq::empty(),
            cursor: Cursor::Idle,
            pending: 0,
            ..self
        }
    }

    /// The cached timestamp, or `sample` where nothing is cached; `sample`
    /// is cached then.
    pub open spec fn now(self, sample: Time) -> (Self, Time) {
        match self.now {
            Some(t) => (self, t),
            None => (EngineState { now: Some(sample), ..self }, sample),
        }
    }

    // ----- dispatch -----

    /// The rank of the first non-empty queue at or after `from`; 4 if there
    /// is none.
    pub open spec fn first_ready(self, from: int) -> int
        decreases 4 - from,
    {
        if from >= 4 {
            4
        } else if from >= 0 && self.queues[from].len() > 0 {
            from
        } else {
            self.first_ready(from + 1)
        }
    }

    /// Moves the whole queue of `phase` into the drain buffer.
    pub open spec fn refill(self, phase: Phase) -> Self {
        EngineState {
            stash: self.queues[phase.rank()],
            queues: self.queues.update(phase.rank(), Seq::empty()),
            pending: (self.pending - self.queues[phase.rank()].len()) as nat,
            cursor: Cursor::Draining(phase),
            ..self
        }
    }

    /// Takes the first entry of the drain buffer and hands out its body.
    pub open spec fn hand_out(self) -> (Self, Step<B>) {
        let t = self.stash[0];
        let task = self.tasks[t as int];
        (
            EngineState {
                stash: self.stash.skip(1),
                tasks: self.tasks.update(
                    t as int,
                    Task { state: TaskState::Running, body: None, ..task },
                ),
                ..self
            },
            Step::Run(t, task.body->0),
        )
    }

    /// Starts a pass if anything is pending: forgets the cached timestamp and
    /// hands out the first entry of the first non-empty queue.
    pub open spec fn begin(self) -> (Self, Step<B>) {
        let r = self.first_ready(0);
        if self.pending == 0 || r >= 4 {
            (EngineState { cursor: Cursor::Idle, ..self }, Step::Idle)
        } else {
            EngineState { now: None, ..self }.refill(Phase::at(r)).hand_out()
        }
    }

    /// Ends a pass in which nothing is left to run: counts it, wakes the
    /// tasks that yielded, in the order in which they registered, and starts
    /// the next pass if that made work.
    pub open spec fn end_pass(self) -> (Self, Step<B>) {
        EngineState {
            iteration: self.iteration + 1,
            yields: Seq::empty(),
            cursor: Cursor::Idle,
            ..self
        }.wake_all(self.yields).begin()
    }

    /// Abandons the pass: what is left of the drain buffer goes back to the
    /// front of the queue of `phase`.
    pub open spec fn abort(self, phase: Phase) -> Self {
        EngineState {
            queues: self.queues.update(phase.rank(), self.stash + self.queues[phase.rank()]),
            pending: self.pending + self.stash.len(),
            stash: Seq::empty(),
            cursor: Cursor::Idle,
            ..self
        }
    }

    /// The rank of the phase that a pass drains next when it has reached the
    /// phase of rank `from`: the first non-empty queue at or after `from`,
    /// or, if there is none, the first non-empty queue of all; 4 if all four
    /// queues are empty.
    pub open spec fn next_ready(self, from: int) -> int {
        if self.first_ready(from) < 4 {
            self.first_ready(from)
        } else {
            self.first_ready(0)
        }
    }

    /// The pass under way is over: the stop flag is clear, and the drain
    /// buffer and all four queues are empty at the same time.
    pub open spec fn pass_over(self) -> bool {
        &&& self.cursor is Draining
        &&& !self.stopped
        &&& self.stash.len() == 0
        &&& forall|q: int| 0 <= q < 4 ==> (#[trigger] self.queues[q]).len() == 0
    }

    /// One step of the dispatch loop.
    ///
    /// With no pass under way, a pass starts if anything is pending. Within a
    /// pass, a set stop flag abandons it. Else the next entry of the phase
    /// being drained is handed out, from the drain buffer or, once that is
    /// empty, from whatever was pushed to the phase's queue meanwhile; only
    /// when both are empty the pass moves on to the next non-empty phase.
    /// Where no later phase has work and an earlier one does, the same pass
    /// goes on with the first phase that has work. The pass ends only when
    /// all four queues are empty together.
    pub open spec fn dispatch(self) -> (Self, Step<B>) {
        match self.cursor {
            Cursor::Idle => self.begin(),
            Cursor::Draining(phase) => {
                if self.stopped {
                    (self.abort(phase), Step::Stopped)
                } else if self.stash.len() > 0 {
                    self.hand_out()
                } else {
                    let r = self.next_ready(phase.rank());
                    if r < 4 {
                        self.refill(Phase::at(r)).hand_out()
                    } else {
                        self.end_pass()
                    }
                }
            },
        }
    }
}

} // verus!
