//! Every operation of the state machine keeps the engine's invariant.

use vstd::prelude::*;
use vstd::seq_lib::lemma_no_dup_in_concat;
use vstd::set_lib::{lemma_int_range, lemma_len_subset, set_int_range};
use crate::model::{Cursor, EngineState};
use crate::phase::Phase;
use crate::task::{Slot, Task, TaskState, YieldWaiter};
use crate::time::Time;

verus! {

impl<B, T> EngineState<B, T> {
    /// `task` stands in none of the queues and not in the drain buffer.
    pub open spec fn absent(self, task: usize) -> bool {
        &&& forall|p: int, i: int|
            0 <= p < 4 && 0 <= i < self.queues[p].len() ==> #[trigger] self.queues[p][i] != task
        &&& forall|i: int| 0 <= i < self.stash.len() ==> #[trigger] self.stash[i] != task
    }

    /// A task that is not queued has no entry anywhere.
    pub proof fn lemma_unqueued_absent(self, task: usize)
        requires
            self.wf(),
            task < self.tasks.len(),
            !(self.tasks[task as int].state is Queued),
        ensures
            self.absent(task),
    {
    }

    /// A new engine is well-formed.
    pub proof fn lemma_init_wf()
        ensures
            Self::init().wf(),
    {
    }

    /// Queuing a task that has no entry yet keeps the invariant.
    pub proof fn lemma_push_wf(self, task: usize, phase: Phase)
        requires
            self.wf(),
            self.absent(task),
            self.entry_ok(task, phase.rank()),
        ensures
            self.push(task, phase).wf(),
    {
        let s = self.push(task, phase);
        let r = phase.rank();
        assert forall|p: int, i: int| 0 <= p < 4 && 0 <= i < s.queues[p].len() implies s.entry_ok(
            #[trigger] s.queues[p][i],
            p,
        ) by {
            if p == r && i == self.queues[p].len() {
            } else {
                assert(s.queues[p][i] == self.queues[p][i]);
            }
        }
        assert forall|p: int| 0 <= p < 4 implies (#[trigger] s.queues[p]).no_duplicates() by {
            assert(self.queues[p].no_duplicates());
            if p == r {
                assert forall|i: int, j: int|
                    0 <= i < s.queues[p].len() && 0 <= j < s.queues[p].len() && i != j implies s.queues[p][i]
                    != s.queues[p][j] by {
                    if i < self.queues[p].len() {
                        assert(s.queues[p][i] == self.queues[p][i]);
                    }
                    if j < self.queues[p].len() {
                        assert(s.queues[p][j] == self.queues[p][j]);
                    }
                }
            }
        }
        assert forall|i: int, j: int|
            s.cursor is Draining && 0 <= i < s.stash.len() && 0 <= j
                < s.queues[s.cursor->0.rank()].len() implies #[trigger] s.stash[i]
            != #[trigger] s.queues[s.cursor->0.rank()][j] by {
            let c = s.cursor->0.rank();
            if c == r && j == self.queues[c].len() {
            } else {
                assert(s.queues[c][j] == self.queues[c][j]);
            }
        }
    }

    /// Changing a task that has no entry, in a way that keeps its body where
    /// its state wants it, keeps the invariant.
    pub proof fn lemma_update_wf(self, task: usize, new: Task<B, T>)
        requires
            self.wf(),
            task < self.tasks.len(),
            self.absent(task),
            new.body is Some <==> (new.state is Queued || new.state is Suspended),
        ensures
            (EngineState { tasks: self.tasks.update(task as int, new), ..self }).wf(),
    {
        let s = EngineState { tasks: self.tasks.update(task as int, new), ..self };
        assert forall|p: int, i: int| 0 <= p < 4 && 0 <= i < s.queues[p].len() implies s.entry_ok(
            #[trigger] s.queues[p][i],
            p,
        ) by {
            assert(self.entry_ok(self.queues[p][i], p));
        }
        assert forall|i: int| 0 <= i < s.stash.len() implies s.entry_ok(
            #[trigger] s.stash[i],
            s.cursor->0.rank(),
        ) by {
            assert(self.entry_ok(self.stash[i], self.cursor->0.rank()));
        }
        assert forall|p: int| 0 <= p < 4 implies (#[trigger] s.queues[p]).no_duplicates() by {
            assert(self.queues[p].no_duplicates());
        }
    }

    /// The state with one more task, before its first entry is queued.
    pub open spec fn grow(self, phase: Phase, body: B) -> Self {
        EngineState {
            tasks: self.tasks.push(
                Task {
                    phase,
                    state: TaskState::Queued,
                    body: Some(body),
                    slot: Slot::Unset,
                    waiter: None,
                },
            ),
            ..self
        }
    }

    /// Adding a task keeps the invariant, as long as the task table can
    /// grow, and the new task has no entry yet.
    pub proof fn lemma_grow_wf(self, phase: Phase, body: B)
        requires
            self.wf(),
            self.tasks.len() < usize::MAX,
        ensures
            self.grow(phase, body).wf(),
            self.grow(phase, body).absent(self.tasks.len() as usize),
            self.grow(phase, body).entry_ok(self.tasks.len() as usize, phase.rank()),
            self.grow(phase, body).push(self.tasks.len() as usize, phase) == self.spawn(
                phase,
                body,
            ),
    {
        let n = self.tasks.len() as usize;
        let grown = self.grow(phase, body);
        assert forall|p: int, i: int|
            0 <= p < 4 && 0 <= i < grown.queues[p].len() implies grown.entry_ok(
            #[trigger] grown.queues[p][i],
            p,
        ) && grown.queues[p][i] != n by {
            assert(self.entry_ok(self.queues[p][i], p));
        }
        assert forall|i: int| 0 <= i < grown.stash.len() implies grown.entry_ok(
            #[trigger] grown.stash[i],
            grown.cursor->0.rank(),
        ) && grown.stash[i] != n by {
            assert(self.entry_ok(self.stash[i], self.cursor->0.rank()));
        }
        assert forall|p: int| 0 <= p < 4 implies (#[trigger] grown.queues[p]).no_duplicates() by {
            assert(self.queues[p].no_duplicates());
        }
    }

    /// Spawning keeps the invariant, as long as the task table can grow.
    pub proof fn lemma_spawn_wf(self, phase: Phase, body: B)
        requires
            self.wf(),
            self.tasks.len() < usize::MAX,
        ensures
            self.spawn(phase, body).wf(),
    {
        self.lemma_grow_wf(phase, body);
        self.grow(phase, body).lemma_push_wf(self.tasks.len() as usize, phase);
    }

    /// Waking keeps the invariant, whatever the task number.
    pub proof fn lemma_wake_wf(self, task: usize)
        requires
            self.wf(),
        ensures
            self.wake(task).wf(),
            self.wake(task).tasks.len() == self.tasks.len(),
            self.wake(task).iteration == self.iteration,
            self.wake(task).yields == self.yields,
            self.wake(task).cursor == self.cursor,
            self.wake(task).stash == self.stash,
    {
        if task < self.tasks.len() {
            let old = self.tasks[task as int];
            if old.state is Suspended {
                self.lemma_unqueued_absent(task);
                self.lemma_update_wf(task, Task { state: TaskState::Queued, ..old });
                let mid = self.set_state(task, TaskState::Queued);
                mid.lemma_push_wf(task, old.phase);
            } else if old.state is Running {
                self.lemma_unqueued_absent(task);
                self.lemma_update_wf(task, Task { state: TaskState::Woken, ..old });
            }
        }
    }

    /// Waking a list of tasks keeps the invariant.
    pub proof fn lemma_wake_all_wf(self, waiters: Seq<YieldWaiter>)
        requires
            self.wf(),
        ensures
            self.wake_all(waiters).wf(),
            self.wake_all(waiters).tasks.len() == self.tasks.len(),
            self.wake_all(waiters).iteration == self.iteration,
            self.wake_all(waiters).yields == self.yields,
            self.wake_all(waiters).cursor == self.cursor,
            self.wake_all(waiters).stash == self.stash,
        decreases waiters.len(),
    {
        if waiters.len() > 0 {
            self.lemma_wake_wf(waiters[0].task);
            self.wake(waiters[0].task).lemma_wake_all_wf(waiters.skip(1));
        }
    }

    /// Suspending a task that is being resumed keeps the invariant.
    pub proof fn lemma_suspend_wf(self, task: usize, body: B)
        requires
            self.wf(),
            self.is_running(task),
        ensures
            self.suspend(task, body).wf(),
    {
        let old = self.tasks[task as int];
        self.lemma_unqueued_absent(task);
        if old.state is Woken {
            let new = Task { state: TaskState::Queued, body: Some(body), ..old };
            self.lemma_update_wf(task, new);
            let mid = EngineState { tasks: self.tasks.update(task as int, new), ..self };
            mid.lemma_push_wf(task, old.phase);
        } else {
            self.lemma_update_wf(
                task,
                Task { state: TaskState::Suspended, body: Some(body), ..old },
            );
        }
    }

    /// Completing a task that is being resumed keeps the invariant.
    pub proof fn lemma_complete_wf(self, task: usize, value: T)
        requires
            self.wf(),
            self.is_running(task),
        ensures
            self.complete(task, value).wf(),
    {
        let old = self.tasks[task as int];
        let new = Task {
            state: TaskState::Completed,
            body: None,
            slot: Slot::Ready(value),
            waiter: None,
            ..old
        };
        self.lemma_unqueued_absent(task);
        self.lemma_update_wf(task, new);
        let done = EngineState { tasks: self.tasks.update(task as int, new), ..self };
        match old.waiter {
            Some(w) => {
                done.lemma_wake_wf(w);
            },
            None => {},
        }
    }

    /// A resume-step of a join handle keeps the invariant.
    pub proof fn lemma_join_wf(self, task: usize, waker: usize)
        requires
            self.wf(),
        ensures
            self.join(task, waker).0.wf(),
    {
        let s = self.join(task, waker).0;
        assert forall|p: int, i: int| 0 <= p < 4 && 0 <= i < s.queues[p].len() implies s.entry_ok(
            #[trigger] s.queues[p][i],
            p,
        ) by {
            assert(self.entry_ok(self.queues[p][i], p));
        }
        assert forall|i: int| 0 <= i < s.stash.len() implies s.entry_ok(
            #[trigger] s.stash[i],
            s.cursor->0.rank(),
        ) by {
            assert(self.entry_ok(self.stash[i], self.cursor->0.rank()));
        }
        assert forall|p: int| 0 <= p < 4 implies (#[trigger] s.queues[p]).no_duplicates() by {
            assert(self.queues[p].no_duplicates());
        }
        assert forall|t: int| 0 <= t < s.tasks.len() implies ((#[trigger] s.tasks[t]).body is Some
            <==> (s.tasks[t].state is Queued || s.tasks[t].state is Suspended)) by {
            assert(self.tasks[t].body is Some <==> (self.tasks[t].state is Queued
                || self.tasks[t].state is Suspended));
        }
    }

    /// Registering a yield-waiter keeps the invariant.
    pub proof fn lemma_push_yield_wf(self, task: usize)
        requires
            self.wf(),
        ensures
            self.push_yield(task).wf(),
    {
        let s = self.push_yield(task);
        assert forall|i: int| 0 <= i < s.yields.len() implies (#[trigger] s.yields[i]).since
            <= s.iteration by {
            if i < self.yields.len() {
                assert(s.yields[i] == self.yields[i]);
            }
        }
    }

    /// Reading the time keeps the invariant.
    pub proof fn lemma_now_wf(self, sample: Time)
        requires
            self.wf(),
        ensures
            self.now(sample).0.wf(),
    {
    }

    /// Clearing keeps the invariant.
    pub proof fn lemma_clear_wf(self)
        requires
            self.wf(),
        ensures
            self.clear().wf(),
    {
    }

    /// `first_ready` finds the first non-empty queue at or after `from`.
    pub proof fn lemma_first_ready(self, from: int)
        requires
            0 <= from <= 4,
        ensures
            from <= self.first_ready(from) <= 4,
            self.first_ready(from) < 4 ==> self.queues[self.first_ready(from)].len() > 0,
            forall|q: int| from <= q < self.first_ready(from) ==> (#[trigger] self.queues[q]).len() == 0,
        decreases 4 - from,
    {
        if from < 4 && self.queues[from].len() == 0 {
            self.lemma_first_ready(from + 1);
        }
    }

    /// Moving a queue into the empty drain buffer keeps the invariant.
    pub proof fn lemma_refill_wf(self, phase: Phase)
        requires
            self.wf(),
            self.stash.len() == 0,
        ensures
            self.refill(phase).wf(),
    {
        let s = self.refill(phase);
        let r = phase.rank();
        assert forall|p: int, i: int| 0 <= p < 4 && 0 <= i < s.queues[p].len() implies s.entry_ok(
            #[trigger] s.queues[p][i],
            p,
        ) by {
            assert(self.entry_ok(self.queues[p][i], p));
        }
        assert forall|i: int| 0 <= i < s.stash.len() implies s.entry_ok(
            #[trigger] s.stash[i],
            s.cursor->0.rank(),
        ) by {
            assert(self.entry_ok(self.queues[r][i], r));
        }
        assert forall|p: int| 0 <= p < 4 implies (#[trigger] s.queues[p]).no_duplicates() by {
            assert(self.queues[p].no_duplicates());
        }
        assert(self.queues[r].no_duplicates());
    }

    /// Handing out the first entry of the drain buffer keeps the invariant.
    pub proof fn lemma_hand_out_wf(self)
        requires
            self.wf(),
            self.stash.len() > 0,
        ensures
            self.hand_out().0.wf(),
            self.hand_out().0.is_running(self.stash[0]),
    {
        let s = self.hand_out().0;
        let t = self.stash[0];
        let c = self.cursor->0.rank();
        assert(self.entry_ok(self.stash[0], c));
        assert forall|p: int, i: int| 0 <= p < 4 && 0 <= i < s.queues[p].len() implies s.entry_ok(
            #[trigger] s.queues[p][i],
            p,
        ) by {
            assert(self.entry_ok(self.queues[p][i], p));
            if p == c {
                assert(self.stash[0] != self.queues[c][i]);
            }
        }
        assert forall|i: int| 0 <= i < s.stash.len() implies s.entry_ok(
            #[trigger] s.stash[i],
            s.cursor->0.rank(),
        ) by {
            assert(s.stash[i] == self.stash[i + 1]);
            assert(self.entry_ok(self.stash[i + 1], c));
        }
        assert forall|p: int| 0 <= p < 4 implies (#[trigger] s.queues[p]).no_duplicates() by {
            assert(self.queues[p].no_duplicates());
        }
        assert forall|i: int, j: int|
            0 <= i < s.stash.len() && 0 <= j < s.stash.len() && i != j implies s.stash[i]
            != s.stash[j] by {
            assert(s.stash[i] == self.stash[i + 1]);
            assert(s.stash[j] == self.stash[j + 1]);
        }
        assert forall|i: int, j: int|
            s.cursor is Draining && 0 <= i < s.stash.len() && 0 <= j
                < s.queues[s.cursor->0.rank()].len() implies #[trigger] s.stash[i]
            != #[trigger] s.queues[s.cursor->0.rank()][j] by {
            assert(s.stash[i] == self.stash[i + 1]);
        }
        assert forall|u: int| 0 <= u < s.tasks.len() implies ((#[trigger] s.tasks[u]).body is Some
            <==> (s.tasks[u].state is Queued || s.tasks[u].state is Suspended)) by {
            assert(self.tasks[u].body is Some <==> (self.tasks[u].state is Queued
                || self.tasks[u].state is Suspended));
        }
    }

    /// Abandoning a pass keeps the invariant.
    pub proof fn lemma_abort_wf(self, phase: Phase)
        requires
            self.wf(),
            self.cursor == Cursor::Draining(phase),
        ensures
            self.abort(phase).wf(),
    {
        let s = self.abort(phase);
        let r = phase.rank();
        let joined = self.stash + self.queues[r];
        assert forall|p: int, i: int| 0 <= p < 4 && 0 <= i < s.queues[p].len() implies s.entry_ok(
            #[trigger] s.queues[p][i],
            p,
        ) by {
            if p == r {
                if i < self.stash.len() {
                    assert(joined[i] == self.stash[i]);
                    assert(self.entry_ok(self.stash[i], r));
                } else {
                    assert(joined[i] == self.queues[r][i - self.stash.len()]);
                    assert(self.entry_ok(self.queues[r][i - self.stash.len()], r));
                }
            } else {
                assert(self.entry_ok(self.queues[p][i], p));
            }
        }
        assert forall|p: int| 0 <= p < 4 implies (#[trigger] s.queues[p]).no_duplicates() by {
            assert(self.queues[p].no_duplicates());
            if p == r {
                lemma_no_dup_in_concat(self.stash, self.queues[r]);
            }
        }
    }

    /// Starting a pass keeps the invariant.
    pub proof fn lemma_begin_wf(self)
        requires
            self.wf(),
            self.stash.len() == 0,
        ensures
            self.begin().0.wf(),
    {
        let r = self.first_ready(0);
        self.lemma_first_ready(0);
        if !(self.pending == 0 || r >= 4) {
            let fresh = EngineState { now: None, ..self };
            assert(fresh.wf());
            fresh.lemma_refill_wf(Phase::at(r));
            fresh.refill(Phase::at(r)).lemma_hand_out_wf();
        }
    }

    /// Ending a pass keeps the invariant, as long as the pass counter can grow.
    pub proof fn lemma_end_pass_wf(self)
        requires
            self.wf(),
            self.stash.len() == 0,
            self.iteration < u64::MAX,
        ensures
            self.end_pass().0.wf(),
    {
        let counted = EngineState {
            iteration: self.iteration + 1,
            yields: Seq::empty(),
            cursor: Cursor::Idle,
            ..self
        };
        assert(counted.wf());
        counted.lemma_wake_all_wf(self.yields);
        counted.wake_all(self.yields).lemma_begin_wf();
    }

    /// `next_ready` finds a non-empty queue unless all four are empty.
    pub proof fn lemma_next_ready(self, from: int)
        requires
            0 <= from <= 4,
        ensures
            0 <= self.next_ready(from) <= 4,
            self.next_ready(from) < 4 ==> self.queues[self.next_ready(from)].len() > 0,
            self.next_ready(from) >= 4 ==> forall|q: int|
                0 <= q < 4 ==> (#[trigger] self.queues[q]).len() == 0,
            self.next_ready(from) < from ==> forall|q: int|
                from <= q < 4 ==> (#[trigger] self.queues[q]).len() == 0,
            forall|q: int|
                (from <= q < self.next_ready(from) || (self.next_ready(from) < from && 0 <= q
                    < self.next_ready(from))) ==> (#[trigger] self.queues[q]).len() == 0,
    {
        self.lemma_first_ready(from);
        self.lemma_first_ready(0);
    }

    /// A step of the dispatch loop keeps the invariant, as long as the pass
    /// counter can grow where the step counts a pass.
    pub proof fn lemma_dispatch_wf(self)
        requires
            self.wf(),
            self.pass_over() ==> self.iteration < u64::MAX,
        ensures
            self.dispatch().0.wf(),
    {
        match self.cursor {
            Cursor::Idle => {
                self.lemma_begin_wf();
            },
            Cursor::Draining(phase) => {
                if self.stopped {
                    self.lemma_abort_wf(phase);
                } else if self.stash.len() > 0 {
                    self.lemma_hand_out_wf();
                } else {
                    let r = self.next_ready(phase.rank());
                    self.lemma_next_ready(phase.rank());
                    if r < 4 {
                        self.lemma_refill_wf(Phase::at(r));
                        self.refill(Phase::at(r)).lemma_hand_out_wf();
                    } else {
                        self.lemma_end_pass_wf();
                    }
                }
            },
        }
    }

    /// The entries of the four queues and of the drain buffer, in one list.
    pub open spec fn entries(self) -> Seq<usize> {
        self.queues[0] + self.queues[1] + self.queues[2] + self.queues[3] + self.stash
    }

    /// No task has two entries, and every entry belongs to a queued task.
    pub proof fn lemma_entries_unique(self)
        requires
            self.wf(),
        ensures
            self.entries().no_duplicates(),
            self.entries().len() == self.pending + self.stash.len(),
            forall|i: int|
                0 <= i < self.entries().len() ==> (#[trigger] self.entries()[i]) < self.tasks.len()
                    && self.tasks[self.entries()[i] as int].state is Queued,
    {
        let q0 = self.queues[0];
        let q1 = self.queues[1];
        let q2 = self.queues[2];
        let q3 = self.queues[3];
        let a1 = q0 + q1;
        let a2 = a1 + q2;
        let a3 = a2 + q3;
        let all = a3 + self.stash;
        assert(q0.no_duplicates() && q1.no_duplicates() && q2.no_duplicates()
            && q3.no_duplicates());
        assert forall|i: int| 0 <= i < a1.len() implies (#[trigger] a1[i]) < self.tasks.len()
            && self.tasks[a1[i] as int].state is Queued && self.tasks[a1[i] as int].phase.rank()
            <= 1 by {
            if i < q0.len() {
                assert(self.entry_ok(self.queues[0][i], 0));
            } else {
                assert(self.entry_ok(self.queues[1][i - q0.len()], 1));
            }
        }
        assert forall|i: int, j: int| 0 <= i < q0.len() && 0 <= j < q1.len() implies q0[i]
            != q1[j] by {
            assert(self.entry_ok(self.queues[0][i], 0));
            assert(self.entry_ok(self.queues[1][j], 1));
        }
        lemma_no_dup_in_concat(q0, q1);
        assert forall|i: int| 0 <= i < a2.len() implies (#[trigger] a2[i]) < self.tasks.len()
            && self.tasks[a2[i] as int].state is Queued && self.tasks[a2[i] as int].phase.rank()
            <= 2 by {
            if i < a1.len() {
                assert(a2[i] == a1[i]);
            } else {
                assert(self.entry_ok(self.queues[2][i - a1.len()], 2));
            }
        }
        assert forall|i: int, j: int| 0 <= i < a1.len() && 0 <= j < q2.len() implies a1[i]
            != q2[j] by {
            assert(self.tasks[a1[i] as int].phase.rank() <= 1);
            assert(self.entry_ok(self.queues[2][j], 2));
        }
        lemma_no_dup_in_concat(a1, q2);
        assert forall|i: int| 0 <= i < a3.len() implies (#[trigger] a3[i]) < self.tasks.len()
            && self.tasks[a3[i] as int].state is Queued by {
            if i < a2.len() {
                assert(a3[i] == a2[i]);
            } else {
                assert(self.entry_ok(self.queues[3][i - a2.len()], 3));
            }
        }
        assert forall|i: int, j: int| 0 <= i < a2.len() && 0 <= j < q3.len() implies a2[i]
            != q3[j] by {
            assert(self.tasks[a2[i] as int].phase.rank() <= 2);
            assert(self.entry_ok(self.queues[3][j], 3));
        }
        lemma_no_dup_in_concat(a2, q3);
        assert forall|i: int, j: int| 0 <= i < a3.len() && 0 <= j < self.stash.len() implies a3[i]
            != self.stash[j] by {
            let c = self.cursor->0.rank();
            assert(self.entry_ok(self.stash[j], c));
            if i < q0.len() {
                assert(a3[i] == self.queues[0][i]);
                assert(self.entry_ok(self.queues[0][i], 0));
            } else if i < a1.len() {
                assert(a3[i] == self.queues[1][i - q0.len()]);
                assert(self.entry_ok(self.queues[1][i - q0.len()], 1));
            } else if i < a2.len() {
                assert(a3[i] == self.queues[2][i - a1.len()]);
                assert(self.entry_ok(self.queues[2][i - a1.len()], 2));
            } else {
                assert(a3[i] == self.queues[3][i - a2.len()]);
                assert(self.entry_ok(self.queues[3][i - a2.len()], 3));
            }
        }
        lemma_no_dup_in_concat(a3, self.stash);
        assert forall|i: int| 0 <= i < all.len() implies (#[trigger] all[i]) < self.tasks.len()
            && self.tasks[all[i] as int].state is Queued by {
            if i < a3.len() {
                assert(all[i] == a3[i]);
            } else {
                assert(self.entry_ok(self.stash[i - a3.len()], self.cursor->0.rank()));
            }
        }
    }

    /// A set of task numbers that holds every entry has at least as many
    /// elements as there are entries.
    proof fn lemma_entries_within(self, room: Set<int>)
        requires
            self.wf(),
            room.finite(),
            forall|t: int|
                0 <= t < self.tasks.len() && self.tasks[t].state is Queued ==> room.contains(t),
        ensures
            self.pending + self.stash.len() <= room.len(),
    {
        self.lemma_entries_unique();
        let all = self.entries();
        let ids = Seq::new(all.len(), |i: int| all[i] as int);
        assert(ids.no_duplicates()) by {
            assert forall|i: int, j: int|
                0 <= i < ids.len() && 0 <= j < ids.len() && i != j implies ids[i] != ids[j] by {
                assert(all[i] != all[j]);
            }
        }
        ids.unique_seq_to_set();
        assert(ids.to_set().subset_of(room)) by {
            assert forall|x: int| ids.to_set().contains(x) implies room.contains(x) by {
                let i = choose|i: int| 0 <= i < ids.len() && ids[i] == x;
                assert(all[i] < self.tasks.len() && self.tasks[all[i] as int].state is Queued);
            }
        }
        lemma_len_subset(ids.to_set(), room);
    }

    /// There are at least as many tasks as entries.
    pub proof fn lemma_capacity(self)
        requires
            self.wf(),
        ensures
            self.pending + self.stash.len() <= self.tasks.len(),
    {
        lemma_int_range(0, self.tasks.len() as int);
        self.lemma_entries_within(set_int_range(0, self.tasks.len() as int));
    }

    /// There are more tasks than entries when some task is not queued. So
    /// the count of pending entries cannot overflow when such a task is
    /// queued.
    pub proof fn lemma_room(self, task: usize)
        requires
            self.wf(),
            task < self.tasks.len(),
            !(self.tasks[task as int].state is Queued),
        ensures
            self.pending + self.stash.len() < self.tasks.len(),
    {
        lemma_int_range(0, self.tasks.len() as int);
        self.lemma_entries_within(set_int_range(0, self.tasks.len() as int).remove(task as int));
    }

    /// Waking touches nothing but the states of tasks, the queues and the
    /// count of pending entries.
    pub proof fn lemma_wake_all_frame(self, waiters: Seq<YieldWaiter>)
        ensures
            self.wake_all(waiters).iteration == self.iteration,
            self.wake_all(waiters).yields == self.yields,
            self.wake_all(waiters).cursor == self.cursor,
            self.wake_all(waiters).stash == self.stash,
            self.wake_all(waiters).stopped == self.stopped,
            self.wake_all(waiters).now == self.now,
            self.wake_all(waiters).tasks.len() == self.tasks.len(),
        decreases waiters.len(),
    {
        if waiters.len() > 0 {
            self.wake(waiters[0].task).lemma_wake_all_frame(waiters.skip(1));
        }
    }

    /// Waking moves no task to another phase.
    pub proof fn lemma_wake_all_keeps_phases(self, waiters: Seq<YieldWaiter>)
        ensures
            self.wake_all(waiters).tasks.len() == self.tasks.len(),
            forall|t: int|
                0 <= t < self.tasks.len() ==> (#[trigger] self.wake_all(waiters).tasks[t]).phase
                    == self.tasks[t].phase,
        decreases waiters.len(),
    {
        if waiters.len() > 0 {
            let next = self.wake(waiters[0].task);
            next.lemma_wake_all_keeps_phases(waiters.skip(1));
            assert forall|t: int| 0 <= t < self.tasks.len() implies (#[trigger] self.wake_all(
                waiters,
            ).tasks[t]).phase == self.tasks[t].phase by {
                assert(next.wake_all(waiters.skip(1)).tasks[t].phase == next.tasks[t].phase);
            }
        }
    }
}

} // verus!
