//! The four pipeline stages that work can be scheduled into.

use vstd::prelude::*;

verus! {

/// Number of phases. Fixed: adding a phase changes the design of the engine.
pub const NUM_PHASES: usize = 4;

/// A pipeline stage. The phases are totally ordered by [`Phase::rank`]:
/// `EventHandling < Layout < PostLayout < Present`.
#[derive(Copy, Clone, PartialEq, Eq, Structural, Debug)]
pub enum Phase {
    EventHandling,
    Layout,
    PostLayout,
    Present,
}

impl Phase {
    /// Position of the phase in the pipeline, from 0 to 3.
    pub open spec fn rank(self) -> int {
        match self {
            Phase::EventHandling => 0,
            Phase::Layout => 1,
            Phase::PostLayout => 2,
            Phase::Present => 3,
        }
    }

    /// The phase at position `rank`; `Present` for every rank past the end.
    pub open spec fn at(rank: int) -> Phase {
        if rank <= 0 {
            Phase::EventHandling
        } else if rank == 1 {
            Phase::Layout
        } else if rank == 2 {
            Phase::PostLayout
        } else {
            Phase::Present
        }
    }

    /// Index of the phase's queue.
    pub fn index(self) -> (i: usize)
        ensures
            i == self.rank(),
            i < NUM_PHASES,
    {
        match self {
            Phase::EventHandling => 0,
            Phase::Layout => 1,
            Phase::PostLayout => 2,
            Phase::Present => 3,
        }
    }

    /// The phase whose queue has index `i`, if there is one.
    pub fn from_index(i: usize) -> (p: Option<Phase>)
        ensures
            i < NUM_PHASES ==> p == Some(Phase::at(i as int)),
            i >= NUM_PHASES ==> p is None,
    {
        if i == 0 {
            Some(Phase::EventHandling)
        } else if i == 1 {
            Some(Phase::Layout)
        } else if i == 2 {
            Some(Phase::PostLayout)
        } else if i == 3 {
            Some(Phase::Present)
        } else {
            None
        }
    }
}

/// Every phase is the phase at its own rank, and the ranks run from 0 to 3.
pub proof fn lemma_rank_at(p: Phase)
    ensures
        0 <= p.rank() < NUM_PHASES,
        Phase::at(p.rank()) == p,
{
}

} // verus!
