//! Suspending a task until the pass under way is over.

use vstd::prelude::*;
use crate::engine::AsyncEngine;
use crate::task::{Poll, Waker};

verus! {

/// The three stages of a [`Yield`].
#[derive(Copy, Clone, PartialEq, Eq, Structural, Debug)]
pub enum YieldState {
    /// Not polled yet.
    Unregistered,
    /// Polled once: the task waits among the yield-waiters of the engine.
    Registered,
    /// Polled twice: resolved.
    Ready,
}

/// A suspendable computation that resolves on its second resume-step. The
/// first one registers the task with the engine, which wakes it at the end
/// of the pass.
#[derive(Debug)]
pub struct Yield {
    iteration: u64,
    state: YieldState,
}

impl Yield {
    /// The number of completed passes at the time of creation.
    pub closed spec fn captured(&self) -> u64 {
        self.iteration
    }

    /// The stage that the value is in.
    pub closed spec fn state(&self) -> YieldState {
        self.state
    }

    /// The value has not been polled yet.
    pub open spec fn is_fresh(&self) -> bool {
        self.state() is Unregistered
    }

    pub(crate) fn new(iteration: u64) -> (y: Yield)
        ensures
            y.captured() == iteration,
            y.is_fresh(),
    {
        Yield { iteration, state: YieldState::Unregistered }
    }

    /// The number of completed passes at the time of creation.
    pub fn iteration(&self) -> (n: u64)
        ensures
            n == self.captured(),
    {
        self.iteration
    }

    /// The stage that the value is in.
    pub fn stage(&self) -> (s: YieldState)
        ensures
            s == self.state(),
    {
        self.state
    }

    /// One resume-step, made on behalf of the task of `waker`.
    ///
    /// The first step always suspends: it registers `waker` among the
    /// yield-waiters of `engine`, whatever the pass counter shows. The second
    /// step resolves, and so does every later one; none of them touches the
    /// engine.
    pub fn poll<B, T>(&mut self, engine: &mut AsyncEngine<B, T>, waker: &Waker) -> (poll: Poll<()>)
        requires
            old(engine).wf(),
        ensures
            final(engine).wf(),
            final(engine).names() == old(engine).names(),
            final(self).captured() == old(self).captured(),
            old(self).state() is Unregistered ==> poll is Pending && final(self).state()
                is Registered && final(engine)@ == old(engine)@.push_yield(waker.id()),
            !(old(self).state() is Unregistered) ==> poll is Ready && final(self).state() is Ready
                && final(engine)@ == old(engine)@,
    {
        match self.state {
            YieldState::Unregistered => {
                engine.push_yield(*waker);
                self.state = YieldState::Registered;
                Poll::Pending
            },
            _ => {
                self.state = YieldState::Ready;
                Poll::Ready(())
            },
        }
    }
}

} // verus!
