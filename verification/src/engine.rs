//! The executable engine.

use vstd::prelude::*;
use std::collections::VecDeque;
use crate::laws::{
    law_iteration_counts_passes, law_phase_order, law_yield_wakes_in_later_pass,
    lemma_dispatch_keeps_time,
};
use crate::model::{Cursor, EngineState, Step};
use crate::phase::Phase;
use crate::task::{Poll, Runnable, Slot, SpawnedFuture, Task, TaskState, Waker, YieldWaiter};
use crate::time::{sample_uncached, Time};
use crate::yielding::Yield;

verus! {

/// What one call of [`AsyncEngine::dispatch`] asks the caller to do.
pub enum Dispatch<B> {
    /// Resume this body once, then report with `suspend` or `complete`.
    Run(Runnable, B),
    /// Nothing is pending anywhere: the engine is quiescent.
    Idle,
    /// The stop flag is set: the pass was abandoned.
    Stopped,
}

impl<B> Dispatch<B> {
    /// The step of the state machine that this value stands for.
    pub open spec fn step(self) -> Step<B> {
        match self {
            Dispatch::Run(runnable, body) => Step::Run(runnable.id(), body),
            Dispatch::Idle => Step::Idle,
            Dispatch::Stopped => Step::Stopped,
        }
    }
}

/// The phase-ordered scheduler.
///
/// `B` is the type of the suspendable computations, `T` that of their
/// results. The engine owns each body while its task is queued or parked and
/// lends it out for one resume-step at a time.
///
/// The table of tasks only grows. A body is dropped when its task completes
/// or is discarded, but the record of the task, its name and a result that
/// no join handle has taken stay for as long as the engine lives.
pub struct AsyncEngine<B, T> {
    num_queued: usize,
    queues: [VecDeque<usize>; 4],
    iteration: u64,
    yields: VecDeque<YieldWaiter>,
    stash: VecDeque<usize>,
    stopped: bool,
    now: Option<Time>,
    cursor: Cursor,
    tasks: Vec<Task<B, T>>,
    names: Vec<String>,
}

impl<B, T> View for AsyncEngine<B, T> {
    type V = EngineState<B, T>;

    closed spec fn view(&self) -> EngineState<B, T> {
        EngineState {
            tasks: self.tasks@,
            queues: Seq::new(4, |p: int| self.queues@[p]@),
            stash: self.stash@,
            yields: self.yields@,
            cursor: self.cursor,
            pending: self.num_queued as nat,
            iteration: self.iteration as nat,
            stopped: self.stopped,
            now: self.now,
        }
    }
}

impl<B, T> AsyncEngine<B, T> {
    /// The names under which the tasks were spawned, by task number.
    pub closed spec fn names(&self) -> Seq<Seq<char>> {
        Seq::new(self.names@.len(), |t: int| self.names@[t]@)
    }

    /// The invariant of the engine: that of its state machine, and one name
    /// for every task.
    pub open spec fn wf(&self) -> bool {
        &&& self@.wf()
        &&& self.names().len() == self@.tasks.len()
    }

    /// Creates an engine with no tasks, in its first pass.
    pub fn new() -> (engine: Self)
        ensures
            engine.wf(),
            engine@ == EngineState::<B, T>::init(),
            engine.names().len() == 0,
    {
        let engine = AsyncEngine {
            num_queued: 0,
            queues: [VecDeque::new(), VecDeque::new(), VecDeque::new(), VecDeque::new()],
            iteration: 0,
            yields: VecDeque::new(),
            stash: VecDeque::new(),
            stopped: false,
            now: None,
            cursor: Cursor::Idle,
            tasks: Vec::new(),
            names: Vec::new(),
        };
        proof {
            assert(engine@.queues =~~= EngineState::<B, T>::init().queues);
            EngineState::<B, T>::lemma_init_wf();
        }
        engine
    }

    /// Sets the stop flag. The pass under way is abandoned by the next call
    /// of `dispatch`; the flag is never reset.
    pub fn stop(&mut self)
        requires
            old(self).wf(),
        ensures
            final(self).wf(),
            final(self)@ == old(self)@.stop(),
            final(self).names() == old(self).names(),
    {
        self.stopped = true;
    }

    /// The number of completed passes.
    pub fn iteration(&self) -> (n: u64)
        ensures
            n == self@.iteration,
    {
        self.iteration
    }

    /// The number of entries in the four phase queues.
    pub fn pending(&self) -> (n: usize)
        ensures
            n == self@.pending,
    {
        self.num_queued
    }

    /// Whether the stop flag is set.
    pub fn is_stopped(&self) -> (b: bool)
        ensures
            b == self@.stopped,
    {
        self.stopped
    }

    /// The number of tasks spawned so far.
    pub fn task_count(&self) -> (n: usize)
        ensures
            n == self@.tasks.len(),
    {
        self.tasks.len()
    }

    /// The state of a task, if the number is that of a task.
    pub fn state_of(&self, task: usize) -> (s: Option<TaskState>)
        ensures
            task < self@.tasks.len() ==> s == Some(self@.tasks[task as int].state),
            task >= self@.tasks.len() ==> s is None,
    {
        if task < self.tasks.len() {
            Some(self.tasks[task].state)
        } else {
            None
        }
    }

    /// Whether `runnable` stands for a resume-step of this engine that is
    /// still open: the condition under which `suspend` and `complete` may be
    /// called with it.
    pub fn is_running(&self, runnable: &Runnable) -> (b: bool)
        ensures
            b == self@.is_running(runnable.id()),
    {
        let task = runnable.task();
        if task < self.tasks.len() {
            match self.tasks[task].state {
                TaskState::Running => true,
                TaskState::Woken => true,
                _ => false,
            }
        } else {
            false
        }
    }

    /// The name under which a task was spawned, if the number is that of a
    /// task.
    pub fn name_of(&self, task: usize) -> (name: Option<&str>)
        ensures
            task < self.names().len() ==> name is Some && name->0@ == self.names()[task as int],
            task >= self.names().len() ==> name is None,
    {
        if task < self.names.len() {
            Some(self.names[task].as_str())
        } else {
            None
        }
    }

    /// Appends an entry for the task of `runnable` to the queue of `phase`
    /// and counts it.
    pub(crate) fn push(&mut self, runnable: Runnable, phase: Phase)
        requires
            old(self).wf(),
            old(self)@.absent(runnable.id()),
            old(self)@.entry_ok(runnable.id(), phase.rank()),
            old(self)@.pending < usize::MAX,
        ensures
            final(self).wf(),
            final(self)@ == old(self)@.push(runnable.id(), phase),
            final(self).names() == old(self).names(),
    {
        let p = phase.index();
        self.queues[p].push_back(runnable.task());
        self.num_queued = self.num_queued + 1;
        proof {
            assert(self@.queues =~~= old(self)@.push(runnable.id(), phase).queues);
            old(self)@.lemma_push_wf(runnable.id(), phase);
        }
    }

    /// Registers `waker` to be woken at the end of the pass under way, and
    /// notes the number of passes completed so far with it.
    pub fn push_yield(&mut self, waker: Waker)
        requires
            old(self).wf(),
        ensures
            final(self).wf(),
            final(self)@ == old(self)@.push_yield(waker.id()),
            final(self).names() == old(self).names(),
    {
        self.yields.push_back(YieldWaiter { task: waker.task(), since: self.iteration });
        proof {
            old(self)@.lemma_push_yield_wf(waker.id());
        }
    }

    /// Spawns a task for `body` into the first phase, `EventHandling`.
    pub fn spawn(&mut self, name: &str, body: B) -> (handle: SpawnedFuture)
        requires
            old(self).wf(),
        ensures
            final(self).wf(),
            final(self)@ == old(self)@.spawn(Phase::EventHandling, body),
            handle.id() == old(self)@.tasks.len(),
            final(self).names() == old(self).names().push(name@),
    {
        self.spawn2(name, Phase::EventHandling, body)
    }

    /// Spawns a task for `body` into `phase`: the task gets the next free
    /// number, its first entry goes to the back of the queue of `phase`, and
    /// the handle for its result is returned at once.
    pub fn spawn2(&mut self, name: &str, phase: Phase, body: B) -> (handle: SpawnedFuture)
        requires
            old(self).wf(),
        ensures
            final(self).wf(),
            final(self)@ == old(self)@.spawn(phase, body),
            handle.id() == old(self)@.tasks.len(),
            final(self).names() == old(self).names().push(name@),
    {
        let task = self.tasks.len();
        self.tasks.push(
            Task { phase, state: TaskState::Queued, body: Some(body), slot: Slot::Unset, waiter: None },
        );
        self.names.push(name.to_owned());
        proof {
            let grown = old(self)@.grow(phase, body);
            assert(self.names() =~= old(self).names().push(name@));
            assert(self@.queues =~~= grown.queues);
            assert(self@ == grown);
            // The table has grown, so its old length was below the limit;
            // and no more entries are pending than there were tasks.
            assert(self.tasks@.len() == self.tasks.len());
            old(self)@.lemma_grow_wf(phase, body);
            old(self)@.lemma_capacity();
        }
        self.push(Runnable::new(task), phase);
        SpawnedFuture::new(task)
    }

    /// A `Yield` that notes the number of passes completed so far. No queue
    /// is touched until the returned value is polled.
    pub fn yield_now(&self) -> (y: Yield)
        ensures
            y.captured() == self@.iteration,
            y.is_fresh(),
    {
        Yield::new(self.iteration)
    }

    /// Signals that the task of `waker` should be resumed. A suspended task
    /// is queued in its phase; a task that is being resumed is queued again
    /// when it suspends; in every other case nothing happens.
    pub fn wake(&mut self, waker: &Waker)
        requires
            old(self).wf(),
        ensures
            final(self).wf(),
            final(self)@ == old(self)@.wake(waker.id()),
            final(self).names() == old(self).names(),
    {
        self.wake_task(waker.task());
    }

    fn wake_task(&mut self, task: usize)
        requires
            old(self).wf(),
        ensures
            final(self).wf(),
            final(self)@ == old(self)@.wake(task),
            final(self).names() == old(self).names(),
    {
        if task >= self.tasks.len() {
            return ;
        }
        proof {
            old(self)@.lemma_wake_wf(task);
        }
        match self.tasks[task].state {
            TaskState::Suspended => {
                let phase = self.tasks[task].phase;
                proof {
                    old(self)@.lemma_room(task);
                    old(self)@.lemma_unqueued_absent(task);
                    old(self)@.lemma_update_wf(
                        task,
                        Task { state: TaskState::Queued, ..old(self)@.tasks[task as int] },
                    );
                }
                self.tasks[task].state = TaskState::Queued;
                proof {
                    let mid = old(self)@.set_state(task, TaskState::Queued);
                    assert(self@.tasks =~= mid.tasks);
                    assert(self@.queues =~~= mid.queues);
                    assert(self@ == mid);
                }
                self.push(Runnable::new(task), phase);
            },
            TaskState::Running => {
                self.tasks[task].state = TaskState::Woken;
                proof {
                    let mid = old(self)@.set_state(task, TaskState::Woken);
                    assert(self@.tasks =~= mid.tasks);
                    assert(self@.queues =~~= mid.queues);
                }
            },
            _ => {},
        }
    }

    /// Ends the resume-step of `runnable` with the body unfinished. The task
    /// parks until it is woken; if it was woken during the step, it goes to
    /// the back of the queue of its phase at once.
    pub fn suspend(&mut self, runnable: Runnable, body: B)
        requires
            old(self).wf(),
            old(self)@.is_running(runnable.id()),
        ensures
            final(self).wf(),
            final(self)@ == old(self)@.suspend(runnable.id(), body),
            final(self).names() == old(self).names(),
    {
        let task = runnable.task();
        let phase = self.tasks[task].phase;
        let woken = match self.tasks[task].state {
            TaskState::Woken => true,
            _ => false,
        };
        proof {
            old(self)@.lemma_suspend_wf(task, body);
            old(self)@.lemma_unqueued_absent(task);
            old(self)@.lemma_room(task);
        }
        self.tasks[task].body = Some(body);
        if woken {
            self.tasks[task].state = TaskState::Queued;
            proof {
                let before = old(self)@;
                let new = Task {
                    state: TaskState::Queued,
                    body: Some(body),
                    ..before.tasks[task as int]
                };
                let mid = EngineState { tasks: before.tasks.update(task as int, new), ..before };
                before.lemma_update_wf(task, new);
                assert(self@.tasks =~= mid.tasks);
                assert(self@.queues =~~= mid.queues);
                assert(self@ == mid);
            }
            self.push(runnable, phase);
        } else {
            self.tasks[task].state = TaskState::Suspended;
            proof {
                let before = old(self)@;
                assert(self@.tasks =~= before.suspend(task, body).tasks);
                assert(self@.queues =~~= before.suspend(task, body).queues);
            }
        }
    }

    /// Ends the resume-step of `runnable` with the body finished: the result
    /// goes into the completion slot, the body is dropped, and the task that
    /// waits for the result, if one registered, is woken.
    pub fn complete(&mut self, runnable: Runnable, value: T)
        requires
            old(self).wf(),
            old(self)@.is_running(runnable.id()),
        ensures
            final(self).wf(),
            final(self)@ == old(self)@.complete(runnable.id(), value),
            final(self).names() == old(self).names(),
    {
        let task = runnable.task();
        let waiter = self.tasks[task].waiter;
        proof {
            old(self)@.lemma_complete_wf(task, value);
            old(self)@.lemma_unqueued_absent(task);
        }
        self.tasks[task].state = TaskState::Completed;
        self.tasks[task].slot = Slot::Ready(value);
        self.tasks[task].waiter = None;
        proof {
            let before = old(self)@;
            let new = Task {
                state: TaskState::Completed,
                body: None,
                slot: Slot::Ready(value),
                waiter: None,
                ..before.tasks[task as int]
            };
            let done = EngineState { tasks: before.tasks.update(task as int, new), ..before };
            before.lemma_update_wf(task, new);
            assert(self@.tasks =~= done.tasks);
            assert(self@.queues =~~= done.queues);
            assert(self@ == done);
        }
        match waiter {
            Some(w) => {
                self.wake_task(w);
            },
            None => {},
        }
    }

    /// One resume-step of the join handle `handle`, made on behalf of the
    /// task of `waker`. While the result is not there, `waker` is registered
    /// to be woken when it lands, and the step reports `Pending`. Once it is
    /// there, it is returned and the slot is marked as taken. After that, and
    /// for a handle of no task, nothing changes and the step reports
    /// `Pending`.
    pub fn join(&mut self, handle: &SpawnedFuture, waker: &Waker) -> (poll: Poll<T>)
        requires
            old(self).wf(),
        ensures
            final(self).wf(),
            (final(self)@, poll) == old(self)@.join(handle.id(), waker.id()),
            final(self).names() == old(self).names(),
    {
        let task = handle.task();
        if task >= self.tasks.len() {
            return Poll::Pending;
        }
        proof {
            old(self)@.lemma_join_wf(task, waker.id());
        }
        let mut slot = Slot::Taken;
        core::mem::swap(&mut self.tasks[task].slot, &mut slot);
        match slot {
            Slot::Unset => {
                self.tasks[task].slot = Slot::Unset;
                self.tasks[task].waiter = Some(waker.task());
                proof {
                    let after = old(self)@.join(task, waker.id()).0;
                    assert(self@.tasks =~= after.tasks);
                    assert(self@.queues =~~= after.queues);
                }
                Poll::Pending
            },
            Slot::Ready(value) => {
                proof {
                    let after = old(self)@.join(task, waker.id()).0;
                    assert(self@.tasks =~= after.tasks);
                    assert(self@.queues =~~= after.queues);
                }
                Poll::Ready(value)
            },
            Slot::Taken => {
                proof {
                    assert(self@.tasks =~= old(self)@.tasks);
                    assert(self@.queues =~~= old(self)@.queues);
                }
                Poll::Pending
            },
        }
    }

    /// The timestamp of the pass under way, where `sample` is what the clock
    /// shows: the cached value if there is one, else `sample`, which is
    /// cached then.
    pub fn now_or(&mut self, sample: Time) -> (t: Time)
        requires
            old(self).wf(),
        ensures
            final(self).wf(),
            (final(self)@, t) == old(self)@.now(sample),
            final(self).names() == old(self).names(),
    {
        proof {
            old(self)@.lemma_now_wf(sample);
        }
        match self.now {
            Some(t) => t,
            None => {
                self.now = Some(sample);
                sample
            },
        }
    }

    /// The timestamp of the pass under way. The clock is read on the first
    /// call after the start of a pass; every later call within the pass gets
    /// the same value.
    pub fn now(&mut self) -> (t: Time)
        requires
            old(self).wf(),
        ensures
            final(self).wf(),
            (final(self)@, t) == old(self)@.now(t),
            final(self).names() == old(self).names(),
    {
        let cached = self.now;
        match cached {
            Some(t) => t,
            None => {
                let sample = sample_uncached();
                self.now_or(sample)
            },
        }
    }

    /// Throws away every queued entry and every yield-waiter, without
    /// running or waking anything, and abandons the pass under way. The
    /// tasks that had an entry are marked as discarded and their bodies
    /// dropped. The pass counter, the stop flag and the cached timestamp stay
    /// as they are.
    pub fn clear(&mut self)
        requires
            old(self).wf(),
        ensures
            final(self).wf(),
            final(self)@ == old(self)@.clear(),
            final(self).names() == old(self).names(),
    {
        self.stash.clear();
        self.yields.clear();
        self.queues[0].clear();
        self.queues[1].clear();
        self.queues[2].clear();
        self.queues[3].clear();
        self.num_queued = 0;
        self.cursor = Cursor::Idle;
        let n = self.tasks.len();
        let mut t: usize = 0;
        while t < n
            invariant
                t <= n,
                n == old(self)@.tasks.len(),
                self.tasks@.len() == n,
                forall|u: int|
                    0 <= u < t ==> self.tasks@[u] == EngineState::<B, T>::discard(
                        #[trigger] old(self)@.tasks[u],
                    ),
                forall|u: int| t <= u < n ==> self.tasks@[u] == #[trigger] old(self)@.tasks[u],
                self.names() == old(self).names(),
                self.stash@.len() == 0,
                self.yields@.len() == 0,
                forall|p: int| 0 <= p < 4 ==> (#[trigger] self.queues@[p])@.len() == 0,
                self.num_queued == 0,
                self.cursor == Cursor::Idle,
                self.iteration == old(self)@.iteration,
                self.stopped == old(self)@.stopped,
                self.now == old(self)@.now,
            decreases n - t,
        {
            let queued = match self.tasks[t].state {
                TaskState::Queued => true,
                _ => false,
            };
            if queued {
                self.tasks[t].state = TaskState::Discarded;
                self.tasks[t].body = None;
            }
            t = t + 1;
        }
        proof {
            let after = old(self)@.clear();
            assert(self@.tasks =~= after.tasks);
            assert(self@.queues =~~= after.queues);
            assert(self@.stash =~= after.stash);
            assert(self@.yields =~= after.yields);
            old(self)@.lemma_clear_wf();
        }
    }

    /// The first phase at or after `from` whose queue is not empty.
    fn first_ready(&self, from: usize) -> (found: Option<Phase>)
        requires
            self.wf(),
            from <= 4,
        ensures
            self@.first_ready(from as int) < 4 ==> found == Some(
                Phase::at(self@.first_ready(from as int)),
            ),
            self@.first_ready(from as int) >= 4 ==> found is None,
    {
        let mut p: usize = from;
        while p < 4
            invariant
                from <= p <= 4,
                self@.first_ready(p as int) == self@.first_ready(from as int),
            decreases 4 - p,
        {
            if self.queues[p].len() > 0 {
                return Phase::from_index(p);
            }
            p = p + 1;
        }
        None
    }

    /// Moves the whole queue of `phase` into the empty drain buffer and
    /// takes its entries off the count of pending ones.
    fn refill(&mut self, phase: Phase)
        requires
            old(self).wf(),
            old(self)@.stash.len() == 0,
        ensures
            final(self).wf(),
            final(self)@ == old(self)@.refill(phase),
            final(self).names() == old(self).names(),
    {
        let p = phase.index();
        core::mem::swap(&mut self.queues[p], &mut self.stash);
        self.num_queued = self.num_queued - self.stash.len();
        self.cursor = Cursor::Draining(phase);
        proof {
            let after = old(self)@.refill(phase);
            assert(self@.queues =~~= after.queues);
            old(self)@.lemma_refill_wf(phase);
        }
    }

    /// Takes the first entry of the drain buffer and hands out the body of
    /// its task.
    fn hand_out(&mut self) -> (d: Dispatch<B>)
        requires
            old(self).wf(),
            old(self)@.stash.len() > 0,
        ensures
            final(self).wf(),
            (final(self)@, d.step()) == old(self)@.hand_out(),
            d matches Dispatch::Run(runnable, _) ==> final(self)@.is_running(runnable.id()),
            final(self).names() == old(self).names(),
    {
        proof {
            old(self)@.lemma_hand_out_wf();
            assert(old(self)@.entry_ok(old(self)@.stash[0], old(self)@.cursor->0.rank()));
        }
        let task = self.stash.pop_front().unwrap();
        self.tasks[task].state = TaskState::Running;
        let body = self.tasks[task].body.take().unwrap();
        proof {
            let after = old(self)@.hand_out().0;
            assert(self@.stash =~= after.stash);
            assert(self@.tasks =~= after.tasks);
            assert(self@.queues =~~= after.queues);
        }
        Dispatch::Run(Runnable::new(task), body)
    }

    /// Starts a pass if anything is pending.
    fn begin(&mut self) -> (d: Dispatch<B>)
        requires
            old(self).wf(),
            old(self)@.stash.len() == 0,
        ensures
            final(self).wf(),
            (final(self)@, d.step()) == old(self)@.begin(),
            d matches Dispatch::Run(runnable, _) ==> final(self)@.is_running(runnable.id()),
            final(self).names() == old(self).names(),
    {
        proof {
            old(self)@.lemma_begin_wf();
        }
        let found = if self.num_queued == 0 {
            None
        } else {
            self.first_ready(0)
        };
        match found {
            None => {
                self.cursor = Cursor::Idle;
                proof {
                    assert(self@.queues =~~= old(self)@.queues);
                }
                Dispatch::Idle
            },
            Some(phase) => {
                self.now = None;
                proof {
                    let fresh = EngineState { now: None, ..old(self)@ };
                    assert(self@.queues =~~= fresh.queues);
                    assert(self@ == fresh);
                    assert(fresh.wf());
                    old(self)@.lemma_first_ready(0);
                }
                self.refill(phase);
                self.hand_out()
            },
        }
    }

    /// Abandons the pass: what is left of the drain buffer goes back to the
    /// front of the queue of `phase` and is counted as pending again.
    fn abort(&mut self, phase: Phase)
        requires
            old(self).wf(),
            old(self)@.cursor == Cursor::Draining(phase),
        ensures
            final(self).wf(),
            final(self)@ == old(self)@.abort(phase),
            final(self).names() == old(self).names(),
    {
        let p = phase.index();
        proof {
            old(self)@.lemma_capacity();
            old(self)@.lemma_abort_wf(phase);
        }
        self.num_queued = self.num_queued + self.stash.len();
        self.stash.append(&mut self.queues[p]);
        core::mem::swap(&mut self.queues[p], &mut self.stash);
        self.cursor = Cursor::Idle;
        proof {
            let after = old(self)@.abort(phase);
            assert(self@.queues =~~= after.queues);
            assert(self@.stash =~= after.stash);
        }
    }

    /// Ends a pass: counts it, wakes the tasks that yielded, in the order in
    /// which they registered, and starts the next pass if that made work.
    fn end_pass(&mut self) -> (d: Dispatch<B>)
        requires
            old(self).wf(),
            old(self)@.stash.len() == 0,
            old(self)@.iteration < u64::MAX,
        ensures
            final(self).wf(),
            (final(self)@, d.step()) == old(self)@.end_pass(),
            d matches Dispatch::Run(runnable, _) ==> final(self)@.is_running(runnable.id()),
            final(self).names() == old(self).names(),
    {
        self.iteration = self.iteration + 1;
        self.cursor = Cursor::Idle;
        let mut woken: VecDeque<YieldWaiter> = VecDeque::new();
        core::mem::swap(&mut self.yields, &mut woken);
        let ghost counted = EngineState {
            iteration: old(self)@.iteration + 1,
            yields: Seq::empty(),
            cursor: Cursor::Idle,
            ..old(self)@
        };
        proof {
            assert(self@.queues =~~= counted.queues);
            assert(self@.yields =~= counted.yields);
            assert(self@ == counted);
            assert(counted.wf());
            assert(woken@ == old(self)@.yields);
        }
        while woken.len() > 0
            invariant
                self.wf(),
                self.names() == old(self).names(),
                self@.stash.len() == 0,
                self@.wake_all(woken@) == counted.wake_all(old(self)@.yields),
            decreases woken@.len(),
        {
            let ghost before = self@;
            let ghost rest = woken@;
            let waiter = woken.pop_front().unwrap();
            proof {
                assert(woken@ =~= rest.skip(1));
                before.lemma_wake_wf(waiter.task);
            }
            self.wake_task(waiter.task);
        }
        self.begin()
    }

    /// Runs the dispatch loop up to the next resume-step.
    ///
    /// With no pass under way, a pass starts if anything is pending, and the
    /// cached timestamp is forgotten; else the call reports `Idle`. Within a
    /// pass, the phases are drained in order, each to a fixpoint: the entries
    /// of a phase are handed out oldest first, and what is pushed to that
    /// phase meanwhile is handed out too, before the pass moves on. Work
    /// that was pushed to a phase that the pass has left belongs to the same
    /// pass: once no later phase has work, the pass goes on with the first
    /// phase that has. Only when all four queues are empty together is the
    /// pass counted; then every task that yielded is woken, in the order of
    /// registration, and the next pass starts if there is work. A set stop
    /// flag abandons the pass under way: the call reports `Stopped`, and
    /// what was not handed out stays queued.
    ///
    /// The caller resumes the body that comes with `Run` once, reports the
    /// outcome with `suspend` or `complete`, and calls `dispatch` again,
    /// until it reports `Idle` or `Stopped`.
    ///
    /// The pass counter must have room only where the call counts a pass.
    pub fn dispatch(&mut self) -> (d: Dispatch<B>)
        requires
            old(self).wf(),
            old(self)@.pass_over() ==> old(self)@.iteration < u64::MAX,
        ensures
            final(self).wf(),
            (final(self)@, d.step()) == old(self)@.dispatch(),
            d matches Dispatch::Run(runnable, _) ==> final(self)@.is_running(runnable.id()),
            // Phase order: no earlier phase has work when a task is handed
            // out, unless work was pushed to a phase that the pass had left.
            old(self)@.settled() && d is Run ==> final(self)@.settled(),
            // The counter moves by one, and only when the pass is over.
            final(self)@.iteration == old(self)@.iteration + (if old(self)@.pass_over() {
                1nat
            } else {
                0nat
            }),
            // Without work and without a pass under way nothing changes.
            old(self)@.cursor is Idle && old(self)@.pending == 0 ==> d is Idle && final(self)@
                == old(self)@,
            // The yield-waiters stay until the pass is counted.
            !old(self)@.pass_over() ==> final(self)@.yields == old(self)@.yields,
            // The cached timestamp is forgotten exactly when a pass starts.
            final(self)@.now == (if old(self)@.starts_pass() {
                None
            } else {
                old(self)@.now
            }),
            // A set stop flag halts the pass under way.
            old(self)@.stopped && old(self)@.cursor is Draining ==> d is Stopped
                && final(self)@.tasks == old(self)@.tasks,
            final(self).names() == old(self).names(),
    {
        proof {
            law_iteration_counts_passes(old(self)@);
            law_yield_wakes_in_later_pass(old(self)@, 0);
            lemma_dispatch_keeps_time(old(self)@);
            if old(self)@.settled() && old(self)@.dispatch().1 is Run {
                law_phase_order(old(self)@);
            }
        }
        match self.cursor {
            Cursor::Idle => self.begin(),
            Cursor::Draining(phase) => {
                if self.stopped {
                    self.abort(phase);
                    Dispatch::Stopped
                } else if self.stash.len() > 0 {
                    self.hand_out()
                } else {
                    let ahead = self.first_ready(phase.index());
                    let found = match ahead {
                        Some(next) => Some(next),
                        None => self.first_ready(0),
                    };
                    proof {
                        old(self)@.lemma_next_ready(phase.rank());
                    }
                    match found {
                        Some(next) => {
                            self.refill(next);
                            self.hand_out()
                        },
                        None => self.end_pass(),
                    }
                }
            },
        }
    }
}

} // verus!
