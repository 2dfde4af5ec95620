//! A cooperative, single-threaded task scheduler for frame-oriented hosts.
//!
//! Every task belongs to one of four ordered phases. Within a pass the engine
//! drains each phase to a fixpoint before it moves on to the next one, counts
//! the completed passes, and wakes the tasks that yielded once a pass is over.
//!
//! The engine never runs a task body itself. `AsyncEngine::dispatch` hands the
//! next body to the caller, who resumes it and reports back with `suspend` or
//! `complete`; then it asks for the next one.

pub mod engine;
pub mod laws;
pub mod model;
pub mod phase;
pub mod runs;
pub mod task;
pub mod time;
pub mod wellformed;
pub mod yielding;

pub use engine::{AsyncEngine, Dispatch};
pub use phase::{Phase, NUM_PHASES};
pub use task::{Poll, Runnable, Slot, SpawnedFuture, Task, TaskState, Waker, YieldWaiter};
pub use time::Time;
pub use model::{Cursor, EngineState, Step};
pub use yielding::{Yield, YieldState};
pub use runs::Op;
