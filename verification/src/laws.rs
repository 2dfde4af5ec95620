//! What the engine guarantees, stated over its state machine and proved.

use vstd::prelude::*;
use crate::model::{Cursor, EngineState, Step};
use crate::phase::{lemma_rank_at, Phase};
use crate::runs::Op;
use crate::task::{Poll, Slot, Task, TaskState, YieldWaiter};
use crate::time::Time;

verus! {

/// Phase order. When a pass hands out a task, every queue of an earlier
/// phase is empty, unless something was pushed to a phase that the pass had
/// already left: an engine that is settled before the step is settled after
/// it, and is draining the phase of the task that it handed out.
pub proof fn law_phase_order<B, T>(s: EngineState<B, T>)
    requires
        s.wf(),
        s.pass_over() ==> s.iteration < u64::MAX,
        s.settled(),
        s.dispatch().1 is Run,
    ensures
        s.dispatch().0.cursor == Cursor::Draining(
            s.tasks[s.dispatch().1->Run_0 as int].phase,
        ),
        s.dispatch().0.settled(),
        forall|q: int|
            0 <= q < s.tasks[s.dispatch().1->Run_0 as int].phase.rank() ==> (
            #[trigger] s.dispatch().0.queues[q]).len() == 0,
{
    let task = s.dispatch().1->Run_0;
    lemma_rank_at(s.tasks[task as int].phase);
    match s.cursor {
        Cursor::Idle => {
            lemma_first_handed_out(s);
        },
        Cursor::Draining(phase) => {
            if s.stash.len() > 0 {
                assert(s.entry_ok(s.stash[0], phase.rank()));
            } else {
                s.lemma_next_ready(phase.rank());
                s.lemma_first_ready(phase.rank());
                let r = s.next_ready(phase.rank());
                if r < 4 {
                    assert(s.queues[r].len() > 0);
                    assert(r >= phase.rank());
                    assert(s.refill(Phase::at(r)).stash[0] == s.queues[r][0]);
                    assert(s.entry_ok(s.queues[r][0], r));
                } else {
                    let counted = EngineState {
                        iteration: s.iteration + 1,
                        yields: Seq::empty(),
                        cursor: Cursor::Idle,
                        ..s
                    };
                    assert(counted.wf());
                    counted.lemma_wake_all_wf(s.yields);
                    let woke = counted.wake_all(s.yields);
                    lemma_first_handed_out(woke);
                    assert(woke.tasks[task as int].phase == s.tasks[task as int].phase) by {
                        counted.lemma_wake_all_keeps_phases(s.yields);
                    }
                }
            }
        },
    }
}

/// A pass starts with the first task of the first queue that is not empty,
/// and every queue before that one is empty.
proof fn lemma_first_handed_out<B, T>(s: EngineState<B, T>)
    requires
        s.wf(),
        s.begin().1 is Run,
    ensures
        s.begin().0.cursor == Cursor::Draining(s.tasks[s.begin().1->Run_0 as int].phase),
        s.begin().0.settled(),
        s.begin().1->Run_0 < s.tasks.len(),
{
    s.lemma_first_ready(0);
    let r = s.first_ready(0);
    let fresh = EngineState { now: None, ..s };
    assert(fresh.refill(Phase::at(r)).stash[0] == s.queues[r][0]);
    assert(s.entry_ok(s.queues[r][0], r));
    lemma_rank_at(s.tasks[s.queues[r][0] as int].phase);
    let after = s.begin().0;
    assert forall|q: int|
        0 <= q < 4 && after.cursor is Draining && q < after.cursor->0.rank() implies (
    #[trigger] after.queues[q]).len() == 0 by {
        assert(after.queues[q] == s.queues[q]);
    }
}

/// The state after `bodies` were spawned into `phase`, first to last.
pub open spec fn spawn_all<B, T>(s: EngineState<B, T>, phase: Phase, bodies: Seq<B>) -> EngineState<
    B,
    T,
>
    decreases bodies.len(),
{
    if bodies.len() == 0 {
        s
    } else {
        spawn_all(s, phase, bodies.drop_last()).spawn(phase, bodies.last())
    }
}

/// The state after `k` calls of `dispatch`, where the caller ends each
/// resume-step at once and wakes nothing: step `i` completes its task with
/// the value `outcomes[i]` if there is one, and suspends it otherwise.
pub open spec fn drained<B, T>(s: EngineState<B, T>, outcomes: Seq<Option<T>>, k: nat) -> EngineState<
    B,
    T,
>
    decreases k,
{
    if k == 0 {
        s
    } else {
        let before = drained(s, outcomes, (k - 1) as nat);
        let (after, step) = before.dispatch();
        match step {
            Step::Run(task, body) => match outcomes[k - 1] {
                Some(value) => after.complete(task, value),
                None => after.suspend(task, body),
            },
            _ => after,
        }
    }
}

/// What `spawn_all` makes of a quiescent engine.
proof fn lemma_spawn_all<B, T>(s: EngineState<B, T>, phase: Phase, bodies: Seq<B>)
    requires
        s.wf(),
        s.cursor is Idle,
        s.pending == 0,
        s.tasks.len() + bodies.len() <= usize::MAX,
    ensures
        ({
            let after = spawn_all(s, phase, bodies);
            &&& after.wf()
            &&& after.tasks.len() == s.tasks.len() + bodies.len()
            &&& after.cursor is Idle
            &&& after.stopped == s.stopped
            &&& after.iteration == s.iteration
            &&& after.yields == s.yields
            &&& after.queues[phase.rank()].len() == bodies.len()
            &&& after.pending == bodies.len()
            &&& forall|i: int|
                0 <= i < bodies.len() ==> #[trigger] after.queues[phase.rank()][i] == s.tasks.len()
                    + i
            &&& forall|i: int|
                0 <= i < bodies.len() ==> (#[trigger] after.tasks[s.tasks.len() + i]).body == Some(
                    bodies[i],
                ) && after.tasks[s.tasks.len() + i].waiter is None
            &&& forall|q: int|
                0 <= q < 4 && q != phase.rank() ==> (#[trigger] after.queues[q]).len() == 0
        }),
    decreases bodies.len(),
{
    if bodies.len() > 0 {
        let front = bodies.drop_last();
        lemma_spawn_all(s, phase, front);
        let before = spawn_all(s, phase, front);
        before.lemma_spawn_wf(phase, bodies.last());
        let after = before.spawn(phase, bodies.last());
        assert forall|i: int| 0 <= i < bodies.len() implies #[trigger] after.queues[phase.rank()][i]
            == s.tasks.len() + i by {
            if i < front.len() {
                assert(after.queues[phase.rank()][i] == before.queues[phase.rank()][i]);
            }
        }
        assert forall|i: int| 0 <= i < bodies.len() implies (#[trigger] after.tasks[s.tasks.len()
            + i]).body == Some(bodies[i]) && after.tasks[s.tasks.len() + i].waiter is None by {
            if i < front.len() {
                assert(after.tasks[s.tasks.len() + i] == before.tasks[s.tasks.len() + i]);
                assert(front[i] == bodies[i]);
            }
        }
        assert forall|q: int| 0 <= q < 4 && q != phase.rank() implies (#[trigger] after.queues[q]).len()
            == 0 by {
            assert(after.queues[q] == before.queues[q]);
        }
    }
}

/// The engine in the middle of draining a batch that was spawned into
/// `origin`: `k` of the tasks of the batch, which start at number `base`,
/// have had their resume-step, the rest waits in the drain buffer, and the
/// queues are empty.
spec fn mid_batch<B, T>(
    s: EngineState<B, T>,
    origin: EngineState<B, T>,
    phase: Phase,
    base: nat,
    bodies: Seq<B>,
    k: nat,
) -> bool {
    &&& s.wf()
    &&& !s.stopped
    &&& s.cursor == Cursor::Draining(phase)
    &&& s.iteration == origin.iteration
    &&& s.yields == origin.yields
    &&& forall|q: int| 0 <= q < 4 ==> (#[trigger] s.queues[q]).len() == 0
    &&& s.tasks.len() == base + bodies.len()
    &&& s.stash.len() == bodies.len() - k
    &&& forall|i: int| 0 <= i < s.stash.len() ==> #[trigger] s.stash[i] == base + k + i
    &&& forall|i: int|
        k <= i < bodies.len() ==> (#[trigger] s.tasks[base + i]).body == Some(bodies[i])
            && s.tasks[base + i].waiter is None
}

/// One resume-step in the middle of a batch hands out the next task of the
/// batch and leaves the engine in the middle of the batch.
proof fn lemma_batch_step<B, T>(
    s: EngineState<B, T>,
    origin: EngineState<B, T>,
    phase: Phase,
    base: nat,
    bodies: Seq<B>,
    k: nat,
    outcome: Option<T>,
)
    requires
        k < bodies.len(),
        mid_batch(s, origin, phase, base, bodies, k),
    ensures
        s.dispatch().1 == Step::Run((base + k) as usize, bodies[k as int]),
        mid_batch(
            match outcome {
                Some(value) => s.dispatch().0.complete((base + k) as usize, value),
                None => s.dispatch().0.suspend((base + k) as usize, bodies[k as int]),
            },
            origin,
            phase,
            base,
            bodies,
            k + 1,
        ),
{
    let task = (base + k) as usize;
    assert(s.stash[0] == base + k);
    assert(s.tasks[(base + k) as int].body == Some(bodies[k as int]));
    let after = s.dispatch().0;
    s.lemma_hand_out_wf();
    assert(after.tasks[task as int].state is Running);
    let end = match outcome {
        Some(value) => after.complete(task, value),
        None => after.suspend(task, bodies[k as int]),
    };
    match outcome {
        Some(value) => {
            after.lemma_complete_wf(task, value);
        },
        None => {
            after.lemma_suspend_wf(task, bodies[k as int]);
        },
    }
    assert forall|i: int| 0 <= i < end.stash.len() implies #[trigger] end.stash[i] == base + (k + 1)
        + i by {
        assert(end.stash[i] == s.stash[i + 1]);
    }
    assert forall|i: int| k + 1 <= i < bodies.len() implies (#[trigger] end.tasks[base + i]).body
        == Some(bodies[i]) && end.tasks[base + i].waiter is None by {
        assert(end.tasks[base + i] == s.tasks[base + i]);
    }
    assert forall|q: int| 0 <= q < 4 implies (#[trigger] end.queues[q]).len() == 0 by {
        assert(s.queues[q].len() == 0);
    }
}

/// FIFO within a phase. Let `bodies` be spawned into one phase of an engine
/// in which nothing is pending and no pass is under way, and let every
/// resume-step end without waking a task. Then the step number `k` hands out
/// the body number `k`: the draining order is the spawn order.
///
/// The stop flag is taken to be clear: with the flag set every other call of
/// `dispatch` reports `Stopped` in place of a task.
pub proof fn law_fifo<B, T>(
    s: EngineState<B, T>,
    phase: Phase,
    bodies: Seq<B>,
    outcomes: Seq<Option<T>>,
    k: nat,
)
    requires
        s.wf(),
        s.cursor is Idle,
        s.pending == 0,
        !s.stopped,
        s.tasks.len() + bodies.len() <= usize::MAX,
        outcomes.len() == bodies.len(),
        k < bodies.len(),
    ensures
        drained(spawn_all(s, phase, bodies), outcomes, k).dispatch().1 == Step::Run(
            (s.tasks.len() + k) as usize,
            bodies[k as int],
        ),
    decreases k,
{
    let start = spawn_all(s, phase, bodies);
    let base = s.tasks.len();
    lemma_spawn_all(s, phase, bodies);
    lemma_drained(s, phase, bodies, outcomes, k);
    if k > 0 {
        lemma_batch_step(
            drained(start, outcomes, k),
            s,
            phase,
            base,
            bodies,
            k,
            outcomes[k as int],
        );
    }
}

/// One pass per batch. Under the conditions of `law_fifo`, the pass counter
/// stands still while the batch is drained, and the call of `dispatch`
/// after the last task of the batch finds the pass over and counts it: the
/// whole batch makes exactly one pass, whatever its size. If no task had
/// yielded before, that call hands out nothing and reports `Idle`, so each
/// task of the batch was handed out exactly once.
pub proof fn law_batch_is_one_pass<B, T>(
    s: EngineState<B, T>,
    phase: Phase,
    bodies: Seq<B>,
    outcomes: Seq<Option<T>>,
    k: nat,
)
    requires
        s.wf(),
        s.cursor is Idle,
        s.pending == 0,
        !s.stopped,
        s.tasks.len() + bodies.len() <= usize::MAX,
        outcomes.len() == bodies.len(),
        0 < bodies.len(),
        k <= bodies.len(),
    ensures
        drained(spawn_all(s, phase, bodies), outcomes, k).iteration == s.iteration,
        k < bodies.len() ==> !drained(spawn_all(s, phase, bodies), outcomes, k).pass_over(),
        k == bodies.len() ==> {
            let last = drained(spawn_all(s, phase, bodies), outcomes, k);
            &&& last.pass_over()
            &&& last.dispatch().0.iteration == s.iteration + 1
            &&& s.yields.len() == 0 ==> last.dispatch().1 == Step::<B>::Idle
                && last.dispatch().0.pending == 0
        },
{
    let start = spawn_all(s, phase, bodies);
    lemma_spawn_all(s, phase, bodies);
    lemma_drained(s, phase, bodies, outcomes, k);
    let last = drained(start, outcomes, k);
    if k == 0 {
        assert(last == start);
    } else {
        lemma_dispatch_frame(last);
        if k < bodies.len() {
            assert(last.stash.len() > 0);
        } else if s.yields.len() == 0 {
            let counted = EngineState {
                iteration: last.iteration + 1,
                yields: Seq::empty(),
                cursor: Cursor::Idle,
                ..last
            };
            assert(counted.wake_all(last.yields) == counted);
        }
    }
}

/// The first step of a batch starts the pass with the first task, and every
/// later step finds the engine in the middle of the batch.
proof fn lemma_drained<B, T>(
    s: EngineState<B, T>,
    phase: Phase,
    bodies: Seq<B>,
    outcomes: Seq<Option<T>>,
    k: nat,
)
    requires
        s.wf(),
        s.cursor is Idle,
        s.pending == 0,
        !s.stopped,
        s.tasks.len() + bodies.len() <= usize::MAX,
        outcomes.len() == bodies.len(),
        0 < bodies.len(),
        k <= bodies.len(),
    ensures
        k == 0 ==> drained(spawn_all(s, phase, bodies), outcomes, k).dispatch().1 == Step::Run(
            s.tasks.len() as usize,
            bodies[0],
        ),
        k > 0 ==> mid_batch(
            drained(spawn_all(s, phase, bodies), outcomes, k),
            s,
            phase,
            s.tasks.len(),
            bodies,
            k,
        ),
    decreases k,
{
    let start = spawn_all(s, phase, bodies);
    let base = s.tasks.len();
    lemma_spawn_all(s, phase, bodies);
    start.lemma_first_ready(0);
    let r = phase.rank();
    assert(start.first_ready(0) == r) by {
        if start.first_ready(0) < r {
            assert(start.queues[start.first_ready(0)].len() == 0);
        }
        if start.first_ready(0) > r {
            assert(start.queues[r].len() == 0);
        }
    }
    let fresh = EngineState { now: None, ..start };
    assert(fresh.wf());
    fresh.lemma_refill_wf(phase);
    let filled = fresh.refill(phase);
    assert(filled.stash[0] == base);
    assert(start.tasks[base as int].body == Some(bodies[0]));
    if k == 1 {
        // The first step: from the start of the pass into the batch.
        let (after, step) = start.dispatch();
        filled.lemma_hand_out_wf();
        assert(step == Step::Run(base as usize, bodies[0]));
        let end = match outcomes[0] {
            Some(value) => after.complete(base as usize, value),
            None => after.suspend(base as usize, bodies[0]),
        };
        match outcomes[0] {
            Some(value) => {
                after.lemma_complete_wf(base as usize, value);
                assert(after.tasks[base as int].waiter is None);
            },
            None => {
                after.lemma_suspend_wf(base as usize, bodies[0]);
            },
        }
        assert(drained(start, outcomes, 1) == end) by {
            assert(drained(start, outcomes, 0) == start);
        }
        assert forall|i: int| 0 <= i < end.stash.len() implies #[trigger] end.stash[i] == base + 1
            + i by {
            assert(end.stash[i] == filled.stash[i + 1]);
        }
        assert forall|i: int| 1 <= i < bodies.len() implies (#[trigger] end.tasks[base + i]).body
            == Some(bodies[i]) && end.tasks[base + i].waiter is None by {
            assert(end.tasks[base + i] == start.tasks[base + i]);
        }
        assert forall|q: int| 0 <= q < 4 implies (#[trigger] end.queues[q]).len() == 0 by {
            if q != r {
                assert(start.queues[q].len() == 0);
            }
        }
    } else if k > 1 {
        lemma_drained(s, phase, bodies, outcomes, (k - 1) as nat);
        lemma_batch_step(
            drained(start, outcomes, (k - 1) as nat),
            s,
            phase,
            base,
            bodies,
            (k - 1) as nat,
            outcomes[k - 1],
        );
    }
}

/// Fixpoint. While the phase being drained has an entry, in the drain
/// buffer or pushed to its queue meanwhile, `dispatch` hands out the oldest
/// of them: the pass does not move on and is not counted.
pub proof fn law_fixpoint<B, T>(s: EngineState<B, T>, phase: Phase)
    requires
        s.wf(),
        s.cursor == Cursor::Draining(phase),
        !s.stopped,
        s.stash.len() + s.queues[phase.rank()].len() > 0,
    ensures
        s.dispatch().1 is Run,
        s.dispatch().1->Run_0 == (if s.stash.len() > 0 {
            s.stash[0]
        } else {
            s.queues[phase.rank()][0]
        }),
        s.tasks[s.dispatch().1->Run_0 as int].phase == phase,
        s.dispatch().0.cursor == Cursor::Draining(phase),
        s.dispatch().0.iteration == s.iteration,
{
    if s.stash.len() > 0 {
        assert(s.entry_ok(s.stash[0], phase.rank()));
    } else {
        s.lemma_first_ready(phase.rank());
        assert(s.next_ready(phase.rank()) == phase.rank());
        assert(s.refill(phase).stash[0] == s.queues[phase.rank()][0]);
        assert(s.entry_ok(s.queues[phase.rank()][0], phase.rank()));
    }
}

/// A task that wakes itself during its resume-step and then suspends goes to
/// the back of the queue of its own phase. If nothing else waits in that
/// phase, the next call of `dispatch` hands the same task out again, with
/// the body it suspended with, in the same pass.
pub proof fn law_requeued_task_runs_again<B, T>(s: EngineState<B, T>, task: usize, body: B)
    requires
        s.wf(),
        !s.stopped,
        task < s.tasks.len(),
        s.tasks[task as int].state is Running,
        s.cursor == Cursor::Draining(s.tasks[task as int].phase),
    ensures
        s.wake(task).suspend(task, body).queues[s.tasks[task as int].phase.rank()]
            == s.queues[s.tasks[task as int].phase.rank()].push(task),
        s.stash.len() == 0 && s.queues[s.tasks[task as int].phase.rank()].len() == 0 ==> {
            let (after, step) = s.wake(task).suspend(task, body).dispatch();
            &&& step == Step::Run(task, body)
            &&& after.iteration == s.iteration
            &&& after.cursor == s.cursor
        },
{
    let phase = s.tasks[task as int].phase;
    let woken = s.wake(task);
    s.lemma_wake_wf(task);
    let again = woken.suspend(task, body);
    woken.lemma_suspend_wf(task, body);
    if s.stash.len() == 0 && s.queues[phase.rank()].len() == 0 {
        law_fixpoint(again, phase);
        assert(again.refill(phase).stash[0] == task);
    }
}

/// Yield. A task that registers as a yield-waiter is stamped with the number
/// of passes completed so far. A call of `dispatch` that does not count a
/// pass leaves the yield-waiters alone. One that counts a pass wakes them
/// all, in the order in which they registered, and every stamp is below the
/// new count: a task that yielded is woken in a later pass than the one in
/// which it suspended, never in the same.
pub proof fn law_yield_wakes_in_later_pass<B, T>(s: EngineState<B, T>, task: usize)
    requires
        s.wf(),
    ensures
        s.push_yield(task).yields == s.yields.push(
            YieldWaiter { task, since: s.iteration as u64 },
        ),
        s.dispatch().0.iteration == s.iteration ==> s.dispatch().0.yields == s.yields,
        s.dispatch().0.iteration != s.iteration ==> {
            &&& s.dispatch().0.iteration == s.iteration + 1
            &&& s.dispatch().0.yields.len() == 0
            &&& s.dispatch() == (EngineState {
                iteration: s.iteration + 1,
                yields: Seq::empty(),
                cursor: Cursor::Idle,
                ..s
            }).wake_all(s.yields).begin()
            &&& forall|i: int|
                0 <= i < s.yields.len() ==> (#[trigger] s.yields[i]).since < s.dispatch().0.iteration
        },
{
    lemma_dispatch_frame(s);
}

/// What a call of `dispatch` does to the pass counter, to the yield-waiters
/// and to the cached timestamp.
proof fn lemma_dispatch_frame<B, T>(s: EngineState<B, T>)
    requires
        s.wf(),
    ensures
        s.dispatch().0.iteration == s.iteration + (if s.pass_over() {
            1nat
        } else {
            0nat
        }),
        !s.pass_over() ==> s.dispatch().0.yields == s.yields,
        s.pass_over() ==> s.dispatch().0.yields.len() == 0 && s.dispatch() == (EngineState {
            iteration: s.iteration + 1,
            yields: Seq::empty(),
            cursor: Cursor::Idle,
            ..s
        }).wake_all(s.yields).begin(),
        s.cursor is Draining && !s.pass_over() ==> s.dispatch().0.now == s.now,
{
    match s.cursor {
        Cursor::Idle => {},
        Cursor::Draining(phase) => {
            s.lemma_next_ready(phase.rank());
            if !s.stopped && s.stash.len() == 0 && s.next_ready(phase.rank()) >= 4 {
                let counted = EngineState {
                    iteration: s.iteration + 1,
                    yields: Seq::empty(),
                    cursor: Cursor::Idle,
                    ..s
                };
                counted.lemma_wake_all_frame(s.yields);
            }
        },
    }
}

/// Pass counter. A call of `dispatch` adds exactly one to the counter when
/// it finds the pass over, and nothing otherwise. With no pass under way and
/// nothing pending, the call reports `Idle` and changes nothing at all.
pub proof fn law_iteration_counts_passes<B, T>(s: EngineState<B, T>)
    requires
        s.wf(),
    ensures
        s.pass_over() ==> s.dispatch().0.iteration == s.iteration + 1,
        !s.pass_over() ==> s.dispatch().0.iteration == s.iteration,
        s.cursor is Idle && s.pending == 0 ==> s.dispatch() == (s, Step::<B>::Idle),
{
    lemma_dispatch_frame(s);
}

/// Cached time. A second reading of the time gives the first one again,
/// whatever the clock shows by then, and so does a reading after a call of
/// `dispatch` within the same pass. No other operation but `clear` and
/// `dispatch` touches the cache, and `clear` keeps it too.
pub proof fn law_now_is_stable<B, T>(
    s: EngineState<B, T>,
    first: Time,
    second: Time,
    phase: Phase,
    body: B,
    value: T,
    task: usize,
    other: usize,
)
    requires
        s.wf(),
    ensures
        s.now(first).0.now(second).1 == s.now(first).1,
        s.cursor is Draining && !s.pass_over() ==> s.now(first).0.dispatch().0.now(second).1
            == s.now(first).1,
        s.spawn(phase, body).now == s.now,
        s.wake(task).now == s.now,
        s.suspend(task, body).now == s.now,
        s.complete(task, value).now == s.now,
        s.join(task, other).0.now == s.now,
        s.push_yield(task).now == s.now,
        s.stop().now == s.now,
        s.clear().now == s.now,
{
    let read = s.now(first).0;
    s.lemma_now_wf(first);
    lemma_dispatch_frame(read);
    assert(read.pass_over() == s.pass_over());
}

/// Clear. After `clear` nothing is pending, and a call of `dispatch` hands
/// out nothing: it reports `Idle` and changes nothing.
pub proof fn law_clear_then_dispatch<B, T>(s: EngineState<B, T>)
    requires
        s.wf(),
    ensures
        s.clear().pending == 0,
        s.clear().dispatch() == (s.clear(), Step::<B>::Idle),
{
}

/// Stop. With the stop flag set within a pass, however it came to be set,
/// the next call of `dispatch` hands out nothing and reports `Stopped`. No
/// task is touched, no pass is counted and no yield-waiter is woken. What was
/// left of the drain buffer is back at the front of its own queue, every
/// other queue is as it was, and the count of pending entries is again the
/// number of entries that have not run.
pub proof fn law_stop_halts_the_pass<B, T>(s: EngineState<B, T>, phase: Phase)
    requires
        s.wf(),
        s.cursor == Cursor::Draining(phase),
        s.stopped,
    ensures
        s.dispatch().1 == Step::<B>::Stopped,
        s.dispatch().0.wf(),
        s.dispatch().0.tasks == s.tasks,
        s.dispatch().0.iteration == s.iteration,
        s.dispatch().0.yields == s.yields,
        s.dispatch().0.now == s.now,
        s.dispatch().0.queues[phase.rank()] == s.stash + s.queues[phase.rank()],
        forall|q: int|
            0 <= q < 4 && q != phase.rank() ==> #[trigger] s.dispatch().0.queues[q] == s.queues[q],
        s.dispatch().0.pending == s.pending + s.stash.len(),
        s.dispatch().0.stash.len() == 0,
        s.stop().stopped && s.stop().cursor == s.cursor,
{
    s.lemma_abort_wf(phase);
}

/// A resume-step. Whatever a task does while it is resumed, short of
/// `clear` and of a call of `dispatch`, leaves the pass where it is: the
/// phase being drained, the pass counter and the drain buffer stay, no
/// yield-waiter leaves its queue, and a stop flag that is set, before or
/// within the step, stays set.
pub proof fn law_resume_step_keeps_the_pass<B, T>(s: EngineState<B, T>, ops: Seq<Op<B, T>>)
    requires
        s.wf(),
        s.admits_all(ops),
        forall|i: int| 0 <= i < ops.len() ==> !(ops[i] is Dispatch) && !(ops[i] is Clear),
    ensures
        s.run(ops).wf(),
        s.run(ops).cursor == s.cursor,
        s.run(ops).iteration == s.iteration,
        s.run(ops).stash == s.stash,
        s.yields.is_prefix_of(s.run(ops).yields),
        s.stopped ==> s.run(ops).stopped,
        (exists|i: int| 0 <= i < ops.len() && ops[i] is Stop) ==> s.run(ops).stopped,
    decreases ops.len(),
{
    if ops.len() > 0 {
        let next = s.apply(ops[0]);
        let rest = ops.skip(1);
        s.lemma_apply_wf(ops[0]);
        match ops[0] {
            Op::Wake(task) => {
                s.lemma_wake_wf(task);
            },
            Op::Complete(task, value) => {
                s.lemma_complete_frame(task, value);
            },
            _ => {},
        }
        assert forall|i: int| 0 <= i < rest.len() implies !(rest[i] is Dispatch) && !(rest[i]
            is Clear) by {
            assert(rest[i] == ops[i + 1]);
        }
        law_resume_step_keeps_the_pass(next, rest);
        if exists|i: int| 0 <= i < ops.len() && ops[i] is Stop {
            let i = choose|i: int| 0 <= i < ops.len() && ops[i] is Stop;
            if i > 0 {
                assert(rest[i - 1] is Stop);
            }
        }
    }
}

/// Stop before a pass. With the stop flag set and no pass under way,
/// `dispatch` still starts a pass and hands out one task if anything is
/// pending; the call after that reports `Stopped`.
pub proof fn law_stopped_engine_runs_one<B, T>(s: EngineState<B, T>)
    requires
        s.wf(),
        s.cursor is Idle,
        s.stopped,
        s.pending > 0,
    ensures
        s.dispatch().1 is Run,
        s.dispatch().0.dispatch().1 == Step::<B>::Stopped,
{
    s.lemma_first_ready(0);
    if s.first_ready(0) >= 4 {
        assert(s.queues[0].len() == 0 && s.queues[1].len() == 0 && s.queues[2].len() == 0
            && s.queues[3].len() == 0);
    }
}

/// Join. A resume-step of a join handle finds no result while the task has
/// not completed, and registers the waiter. When the task completes, the
/// waiter is woken and forgotten; the next resume-step of the handle returns
/// the result and marks the slot as taken, and every step after that finds
/// nothing: the result is delivered exactly once.
pub proof fn law_join_delivers_once<B, T>(
    s: EngineState<B, T>,
    task: usize,
    waiter: usize,
    value: T,
)
    requires
        s.wf(),
        s.is_running(task),
        s.tasks[task as int].slot is Unset,
    ensures
        ({
            let (registered, first) = s.join(task, waiter);
            let done = registered.complete(task, value);
            let (taken, second) = done.join(task, waiter);
            let (after, third) = taken.join(task, waiter);
            &&& first is Pending
            &&& registered.tasks[task as int].waiter == Some(waiter)
            &&& done == (EngineState {
                tasks: registered.tasks.update(
                    task as int,
                    Task {
                        state: TaskState::Completed,
                        body: None,
                        slot: Slot::Ready(value),
                        waiter: None,
                        ..registered.tasks[task as int]
                    },
                ),
                ..registered
            }).wake(waiter)
            &&& done.tasks[task as int].waiter is None
            &&& second == Poll::Ready(value)
            &&& taken.tasks[task as int].slot is Taken
            &&& third is Pending
            &&& after == taken
        }),
{
    let (registered, first) = s.join(task, waiter);
    s.lemma_join_wf(task, waiter);
    let finished = EngineState {
        tasks: registered.tasks.update(
            task as int,
            Task {
                state: TaskState::Completed,
                body: None,
                slot: Slot::Ready(value),
                waiter: None,
                ..registered.tasks[task as int]
            },
        ),
        ..registered
    };
    let done = finished.wake(waiter);
    assert(done.tasks[task as int] == finished.tasks[task as int]);
}

/// Runs. Every run of operations, each called where it may be called,
/// keeps the invariant; the pass counter never goes down and no task is
/// dropped from the table.
pub proof fn law_run_keeps_the_invariant<B, T>(s: EngineState<B, T>, ops: Seq<Op<B, T>>)
    requires
        s.wf(),
        s.admits_all(ops),
    ensures
        s.run(ops).wf(),
        s.run(ops).iteration >= s.iteration,
        s.run(ops).tasks.len() >= s.tasks.len(),
    decreases ops.len(),
{
    if ops.len() > 0 {
        s.lemma_apply_wf(ops[0]);
        law_run_keeps_the_invariant(s.apply(ops[0]), ops.skip(1));
    }
}

/// An operation that pushes no work to a phase that the pass has left keeps
/// the engine settled.
proof fn lemma_apply_settled<B, T>(s: EngineState<B, T>, op: Op<B, T>)
    requires
        s.wf(),
        s.settled(),
        s.admits(op),
        s.orderly(op),
    ensures
        s.apply(op).settled(),
{
    let after = s.apply(op);
    match op {
        Op::Dispatch => {
            if s.dispatch().1 is Run {
                law_phase_order(s);
            } else {
                lemma_dispatch_without_task(s);
            }
        },
        Op::Complete(task, value) => {
            s.lemma_complete_frame(task, value);
            assert forall|q: int|
                0 <= q < 4 && after.cursor is Draining && q < after.cursor->0.rank() implies (
            #[trigger] after.queues[q]).len() == 0 by {
                assert(s.queues[q].len() == 0);
            }
        },
        Op::Wake(task) => {
            s.lemma_wake_wf(task);
            assert forall|q: int|
                0 <= q < 4 && after.cursor is Draining && q < after.cursor->0.rank() implies (
            #[trigger] after.queues[q]).len() == 0 by {
                assert(s.queues[q].len() == 0);
            }
        },
        _ => {
            assert forall|q: int|
                0 <= q < 4 && after.cursor is Draining && q < after.cursor->0.rank() implies (
            #[trigger] after.queues[q]).len() == 0 by {
                assert(s.queues[q].len() == 0);
            }
        },
    }
}

/// A call of `dispatch` that hands out no task leaves no pass under way.
proof fn lemma_dispatch_without_task<B, T>(s: EngineState<B, T>)
    requires
        s.wf(),
        !(s.dispatch().1 is Run),
    ensures
        s.dispatch().0.cursor is Idle,
{
    match s.cursor {
        Cursor::Idle => {},
        Cursor::Draining(phase) => {
            if !s.stopped && s.stash.len() == 0 {
                s.lemma_next_ready(phase.rank());
            }
        },
    }
}

/// Phase order, for whole runs. Take an engine in which no queue before the
/// phase being drained holds work, and any run of operations of which none
/// pushes work to a phase before the one being drained at that moment. Then
/// at every point of the run no queue before the phase being drained holds
/// work; and whenever `dispatch` hands out a task at such a point, the task
/// is of the phase being drained and the queue of every earlier phase is
/// empty.
pub proof fn law_phase_order_in_every_run<B, T>(s: EngineState<B, T>, ops: Seq<Op<B, T>>)
    requires
        s.wf(),
        s.settled(),
        s.admits_all(ops),
        s.orderly_all(ops),
    ensures
        s.run(ops).wf(),
        s.run(ops).settled(),
        s.run(ops).admits(Op::Dispatch) && s.run(ops).dispatch().1 is Run ==> {
            let (after, step) = s.run(ops).dispatch();
            &&& after.cursor == Cursor::Draining(s.run(ops).tasks[step->Run_0 as int].phase)
            &&& forall|q: int|
                0 <= q < s.run(ops).tasks[step->Run_0 as int].phase.rank() ==> (
                #[trigger] after.queues[q]).len() == 0
        },
    decreases ops.len(),
{
    if ops.len() > 0 {
        s.lemma_apply_wf(ops[0]);
        lemma_apply_settled(s, ops[0]);
        law_phase_order_in_every_run(s.apply(ops[0]), ops.skip(1));
    } else {
        if s.admits(Op::Dispatch) && s.dispatch().1 is Run {
            law_phase_order(s);
        }
    }
}

/// A suspended task that nothing waits on behalf of, and that no operation
/// wakes, stays suspended for as long as the pass counter stands still.
proof fn lemma_apply_spares<B, T>(s: EngineState<B, T>, op: Op<B, T>, task: usize)
    requires
        s.wf(),
        task < s.tasks.len(),
        s.tasks[task as int].state is Suspended,
        s.awaited_by_none(task),
        s.admits(op),
        s.spares(op, task),
        s.apply(op).iteration == s.iteration,
    ensures
        task < s.apply(op).tasks.len(),
        s.apply(op).tasks[task as int].state is Suspended,
        s.apply(op).awaited_by_none(task),
{
    let after = s.apply(op);
    match op {
        Op::Dispatch => {
            lemma_dispatch_frame(s);
            s.lemma_dispatch_grows();
            assert forall|t: int| 0 <= t < after.tasks.len() implies (#[trigger] after.tasks[t]).waiter
                != Some(task) by {
                assert(s.tasks[t].waiter != Some(task));
            }
        },
        Op::Complete(done, value) => {
            let old = s.tasks[done as int];
            let finished = EngineState {
                tasks: s.tasks.update(
                    done as int,
                    Task {
                        state: TaskState::Completed,
                        body: None,
                        slot: Slot::Ready(value),
                        waiter: None,
                        ..old
                    },
                ),
                ..s
            };
            assert(old.waiter != Some(task));
            assert forall|t: int| 0 <= t < after.tasks.len() implies (#[trigger] after.tasks[t]).waiter
                != Some(task) by {
                assert(s.tasks[t].waiter != Some(task));
                assert(finished.tasks[t].waiter != Some(task));
            }
        },
        _ => {
            assert forall|t: int| 0 <= t < after.tasks.len() implies (#[trigger] after.tasks[t]).waiter
                != Some(task) by {
                if t < s.tasks.len() {
                    assert(s.tasks[t].waiter != Some(task));
                }
            }
        },
    }
}

/// Yield, for whole runs. Let a task that is being resumed register as a
/// yield-waiter and suspend, with nothing waiting on its behalf. Take any
/// run of operations after that of which none wakes the task by other means
/// or makes it wait for a result. Then at every point of the run at which
/// the pass counter still stands where it stood, the task is suspended: it
/// has not been queued, let alone handed out. So whenever `dispatch` hands
/// the task out, the counter is above the count at which it suspended.
pub proof fn law_yield_resumes_in_a_later_pass<B, T>(
    s: EngineState<B, T>,
    task: usize,
    body: B,
    ops: Seq<Op<B, T>>,
)
    requires
        s.wf(),
        task < s.tasks.len(),
        s.tasks[task as int].state is Running,
        s.awaited_by_none(task),
        s.push_yield(task).suspend(task, body).admits_all(ops),
        s.push_yield(task).suspend(task, body).spares_all(ops, task),
    ensures
        ({
            let parked = s.push_yield(task).suspend(task, body);
            let later = parked.run(ops);
            &&& parked.yields.last() == YieldWaiter { task, since: s.iteration as u64 }
            &&& later.wf()
            &&& later.iteration >= s.iteration
            &&& later.iteration == s.iteration ==> later.tasks[task as int].state is Suspended
            &&& later.admits(Op::Dispatch) && later.dispatch().1 is Run && later.dispatch().1->Run_0
                == task ==> later.dispatch().0.iteration > s.iteration
        }),
{
    let parked = s.push_yield(task).suspend(task, body);
    s.lemma_push_yield_wf(task);
    s.push_yield(task).lemma_suspend_wf(task, body);
    assert(parked.awaited_by_none(task)) by {
        assert forall|t: int| 0 <= t < parked.tasks.len() implies (#[trigger] parked.tasks[t]).waiter
            != Some(task) by {
            assert(s.tasks[t].waiter != Some(task));
        }
    }
    lemma_run_spares(parked, task, ops);
    let later = parked.run(ops);
    if later.admits(Op::Dispatch) && later.dispatch().1 is Run && later.dispatch().1->Run_0
        == task {
        later.lemma_dispatch_grows();
        lemma_dispatch_frame(later);
        if later.iteration == s.iteration && !later.pass_over() {
            lemma_handed_out_was_queued(later);
        }
    }
}

/// A step that counts no pass hands out only a task that was queued.
proof fn lemma_handed_out_was_queued<B, T>(s: EngineState<B, T>)
    requires
        s.wf(),
        !s.pass_over(),
        s.dispatch().1 is Run,
    ensures
        s.dispatch().1->Run_0 < s.tasks.len(),
        s.tasks[s.dispatch().1->Run_0 as int].state is Queued,
{
    match s.cursor {
        Cursor::Idle => {
            s.lemma_first_ready(0);
            let r = s.first_ready(0);
            assert(s.entry_ok(s.queues[r][0], r));
        },
        Cursor::Draining(phase) => {
            if s.stash.len() > 0 {
                assert(s.entry_ok(s.stash[0], phase.rank()));
            } else {
                s.lemma_next_ready(phase.rank());
                let r = s.next_ready(phase.rank());
                assert(s.entry_ok(s.queues[r][0], r));
            }
        },
    }
}

/// The induction behind `law_yield_resumes_in_a_later_pass`.
proof fn lemma_run_spares<B, T>(s: EngineState<B, T>, task: usize, ops: Seq<Op<B, T>>)
    requires
        s.wf(),
        task < s.tasks.len(),
        s.tasks[task as int].state is Suspended,
        s.awaited_by_none(task),
        s.admits_all(ops),
        s.spares_all(ops, task),
    ensures
        s.run(ops).wf(),
        s.run(ops).iteration >= s.iteration,
        task < s.run(ops).tasks.len(),
        s.run(ops).iteration == s.iteration ==> s.run(ops).tasks[task as int].state is Suspended,
    decreases ops.len(),
{
    if ops.len() > 0 {
        let next = s.apply(ops[0]);
        s.lemma_apply_wf(ops[0]);
        if next.iteration == s.iteration {
            lemma_apply_spares(s, ops[0], task);
            lemma_run_spares(next, task, ops.skip(1));
        } else {
            law_run_keeps_the_invariant(next, ops.skip(1));
        }
    }
}

/// Cached time, for whole runs. Once a timestamp is cached, every run of
/// operations during which no pass starts leaves it cached: every reading
/// of the time in the run, and the next one after it, gives that timestamp,
/// whatever the clock shows.
pub proof fn law_now_is_stable_in_every_run<B, T>(
    s: EngineState<B, T>,
    cached: Time,
    ops: Seq<Op<B, T>>,
    sample: Time,
)
    requires
        s.wf(),
        s.now == Some(cached),
        s.admits_all(ops),
        s.within_pass(ops),
    ensures
        s.run(ops).now == Some(cached),
        s.run(ops).now(sample).1 == cached,
    decreases ops.len(),
{
    if ops.len() > 0 {
        let next = s.apply(ops[0]);
        s.lemma_apply_wf(ops[0]);
        match ops[0] {
            Op::Dispatch => {
                lemma_dispatch_keeps_time(s);
            },
            Op::Complete(task, value) => {
                s.lemma_complete_frame(task, value);
            },
            _ => {},
        }
        law_now_is_stable_in_every_run(next, cached, ops.skip(1), sample);
    }
}

/// A call of `dispatch` forgets the cached timestamp exactly when it starts
/// a pass.
pub proof fn lemma_dispatch_keeps_time<B, T>(s: EngineState<B, T>)
    requires
        s.wf(),
    ensures
        !s.starts_pass() ==> s.dispatch().0.now == s.now,
        s.starts_pass() ==> s.dispatch().0.now is None,
{
    match s.cursor {
        Cursor::Idle => {},
        Cursor::Draining(phase) => {
            lemma_dispatch_frame(s);
            if s.pass_over() {
                let counted = EngineState {
                    iteration: s.iteration + 1,
                    yields: Seq::empty(),
                    cursor: Cursor::Idle,
                    ..s
                };
                counted.lemma_wake_all_frame(s.yields);
            }
        },
    }
}

/// Fresh time. A call of `dispatch` that starts a pass forgets the cached
/// timestamp: the first reading in the new pass gives what the clock shows
/// then, and every further reading gives that value again. A call that
/// starts no pass leaves the cache as it is.
pub proof fn law_now_is_sampled_anew<B, T>(s: EngineState<B, T>, clock: Time, later: Time)
    requires
        s.wf(),
    ensures
        s.starts_pass() ==> {
            let fresh = s.dispatch().0;
            &&& fresh.now is None
            &&& fresh.now(clock).1 == clock
            &&& fresh.now(clock).0.now(later).1 == clock
        },
        !s.starts_pass() ==> s.dispatch().0.now == s.now,
{
    lemma_dispatch_keeps_time(s);
}

/// One entry per task. No task has an entry in two queues, or two entries
/// in one, and only a queued task has an entry at all.
pub proof fn law_one_entry_per_task<B, T>(s: EngineState<B, T>)
    requires
        s.wf(),
    ensures
        s.entries().no_duplicates(),
        s.entries().len() == s.pending + s.stash.len(),
        forall|i: int|
            0 <= i < s.entries().len() ==> (#[trigger] s.entries()[i]) < s.tasks.len()
                && s.tasks[s.entries()[i] as int].state is Queued,
{
    s.lemma_entries_unique();
}

} // verus!
