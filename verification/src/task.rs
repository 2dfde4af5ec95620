//! Tasks, their completion slots and the handles that refer to them.

use vstd::prelude::*;
use crate::phase::Phase;

verus! {

/// Result of one resume-step of a suspendable computation.
pub enum Poll<T> {
    /// The computation has finished with this value.
    Ready(T),
    /// The computation is suspended and waits to be woken.
    Pending,
}

/// Where a task stands in its life cycle.
#[derive(Copy, Clone, PartialEq, Eq, Structural, Debug)]
pub enum TaskState {
    /// An entry for the task waits in the queue of its phase.
    Queued,
    /// The body is with the caller for one resume-step.
    Running,
    /// Like `Running`, and the task was woken during the resume-step: it is
    /// queued again as soon as it suspends.
    Woken,
    /// The body is parked until the task is woken.
    Suspended,
    /// The body has produced its result.
    Completed,
    /// The queued entry was thrown away before the task could run.
    Discarded,
}

/// The completion slot of a task.
pub enum Slot<T> {
    /// The body has not finished yet.
    Unset,
    /// The result waits for the join handle.
    Ready(T),
    /// The join handle has consumed the result.
    Taken,
}

/// One suspendable computation with its scheduling state.
pub struct Task<B, T> {
    /// The phase whose queue the task is pushed to whenever it becomes ready.
    pub phase: Phase,
    pub state: TaskState,
    /// The computation. Present exactly while the task is queued or suspended.
    pub body: Option<B>,
    pub slot: Slot<T>,
    /// The task to wake when the result lands, registered by the join handle.
    pub waiter: Option<usize>,
}

/// An entry of the yield-waiters queue.
#[derive(Copy, Clone, PartialEq, Eq, Structural, Debug)]
pub struct YieldWaiter {
    /// The task to wake at the end of the pass.
    pub task: usize,
    /// The number of completed passes at the moment of registration.
    pub since: u64,
}

/// A single-shot handle for one resume-step of a task. The engine hands it
/// out together with the body and takes it back when the step is over.
#[derive(Debug)]
pub struct Runnable {
    task: usize,
}

impl Runnable {
    /// The task that this handle resumes.
    pub closed spec fn id(&self) -> usize {
        self.task
    }

    pub(crate) fn new(task: usize) -> (r: Runnable)
        ensures
            r.id() == task,
    {
        Runnable { task }
    }

    /// The task that this handle resumes.
    pub fn task(&self) -> (t: usize)
        ensures
            t == self.id(),
    {
        self.task
    }

    /// A wake handle for the task being resumed.
    pub fn waker(&self) -> (w: Waker)
        ensures
            w.id() == self.id(),
    {
        Waker { task: self.task }
    }
}

/// A handle that signals "this suspended task should be resumed".
#[derive(Copy, Clone, Debug)]
pub struct Waker {
    task: usize,
}

impl Waker {
    /// The task that this handle wakes.
    pub closed spec fn id(&self) -> usize {
        self.task
    }

    pub(crate) fn new(task: usize) -> (w: Waker)
        ensures
            w.id() == task,
    {
        Waker { task }
    }

    /// The task that this handle wakes.
    pub fn task(&self) -> (t: usize)
        ensures
            t == self.id(),
    {
        self.task
    }
}

/// The caller's handle for the result of a spawned task.
#[derive(Debug)]
pub struct SpawnedFuture {
    task: usize,
}

impl SpawnedFuture {
    /// The task whose result this handle retrieves.
    pub closed spec fn id(&self) -> usize {
        self.task
    }

    pub(crate) fn new(task: usize) -> (h: SpawnedFuture)
        ensures
            h.id() == task,
    {
        SpawnedFuture { task }
    }

    /// The task whose result this handle retrieves.
    pub fn task(&self) -> (t: usize)
        ensures
            t == self.id(),
    {
        self.task
    }
}

} // verus!
