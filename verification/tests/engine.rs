use async_engine::{AsyncEngine, Dispatch, Phase, Poll, TaskState, Yield};
use std::collections::VecDeque;

/// One instruction of a scripted task body.
enum Op {
    /// Wake the task that is running.
    WakeSelf,
    /// Spawn a task with this name and script into a phase.
    Spawn(&'static str, Phase, Vec<Op>),
    /// Await `yield_now()`.
    YieldNow,
    /// Set the stop flag.
    Stop,
    /// End the resume-step and wait to be woken.
    Park,
}

struct Body {
    name: &'static str,
    ops: VecDeque<Op>,
    yielding: Option<Yield>,
}

fn body(name: &'static str, ops: Vec<Op>) -> Body {
    Body { name, ops: ops.into(), yielding: None }
}

type Engine = AsyncEngine<Body, u32>;

/// What one call of the original's `dispatch` did: steps until the engine
/// reports `Idle` or `Stopped`. Logs the name of each body that is resumed
/// and the pass count at that moment. A body whose script is used up
/// completes with the number of passes completed so far.
fn run(engine: &mut Engine, log: &mut Vec<(&'static str, u64)>) -> bool {
    loop {
        assert!(engine.iteration() < u64::MAX);
        match engine.dispatch() {
            Dispatch::Idle => return true,
            Dispatch::Stopped => return false,
            Dispatch::Run(runnable, mut body) => {
                log.push((body.name, engine.iteration()));
                let waker = runnable.waker();
                let mut parked = false;
                while !parked {
                    if let Some(mut y) = body.yielding.take() {
                        match y.poll(engine, &waker) {
                            Poll::Pending => {
                                body.yielding = Some(y);
                                parked = true;
                                continue;
                            }
                            Poll::Ready(()) => {}
                        }
                    }
                    match body.ops.pop_front() {
                        None => break,
                        Some(Op::WakeSelf) => engine.wake(&waker),
                        Some(Op::Spawn(name, phase, ops)) => {
                            engine.spawn2(name, phase, self::body(name, ops));
                        }
                        Some(Op::YieldNow) => body.yielding = Some(engine.yield_now()),
                        Some(Op::Stop) => engine.stop(),
                        Some(Op::Park) => parked = true,
                    }
                }
                assert!(engine.is_running(&runnable));
                if parked {
                    engine.suspend(runnable, body);
                } else {
                    let passes = engine.iteration() as u32;
                    engine.complete(runnable, passes);
                }
            }
        }
    }
}

fn names(log: &[(&'static str, u64)]) -> Vec<&'static str> {
    log.iter().map(|entry| entry.0).collect()
}

#[test]
fn later_phase_spawned_first_runs_last() {
    let mut engine = Engine::new();
    let a = engine.spawn2("a", Phase::Present, body("a", vec![]));
    let b = engine.spawn2("b", Phase::EventHandling, body("b", vec![]));
    let mut log = Vec::new();
    assert!(run(&mut engine, &mut log));
    assert_eq!(names(&log), vec!["b", "a"]);
    assert_eq!(a.task(), 0);
    assert_eq!(b.task(), 1);
    assert_eq!(engine.iteration(), 1);
    assert_eq!(engine.pending(), 0);
}

#[test]
fn phases_drain_in_pipeline_order() {
    let mut engine = Engine::new();
    engine.spawn2("present", Phase::Present, body("present", vec![]));
    engine.spawn2("post", Phase::PostLayout, body("post", vec![]));
    engine.spawn2("layout", Phase::Layout, body("layout", vec![]));
    engine.spawn("events", body("events", vec![]));
    engine.spawn2("present2", Phase::Present, body("present2", vec![]));
    engine.spawn2("layout2", Phase::Layout, body("layout2", vec![]));
    assert_eq!(engine.pending(), 6);
    let mut log = Vec::new();
    assert!(run(&mut engine, &mut log));
    assert_eq!(
        names(&log),
        vec!["events", "layout", "layout2", "post", "present", "present2"]
    );
    assert_eq!(engine.iteration(), 1);
}

#[test]
fn spawn_uses_the_first_phase() {
    let mut engine = Engine::new();
    engine.spawn2("layout", Phase::Layout, body("layout", vec![]));
    engine.spawn("plain", body("plain", vec![]));
    let mut log = Vec::new();
    assert!(run(&mut engine, &mut log));
    assert_eq!(names(&log), vec!["plain", "layout"]);
}

#[test]
fn single_phase_drains_in_spawn_order() {
    let mut engine = Engine::new();
    let labels = ["t0", "t1", "t2", "t3", "t4", "t5", "t6", "t7"];
    for name in labels {
        engine.spawn2(name, Phase::Layout, body(name, vec![]));
    }
    let mut log = Vec::new();
    assert!(run(&mut engine, &mut log));
    assert_eq!(names(&log), labels.to_vec());
    assert_eq!(engine.iteration(), 1);
}

#[test]
fn self_requeuing_task_runs_six_times_in_one_dispatch() {
    let mut engine = Engine::new();
    let mut ops = Vec::new();
    for _ in 0..5 {
        ops.push(Op::WakeSelf);
        ops.push(Op::Park);
    }
    engine.spawn2("counter", Phase::Layout, body("counter", ops));
    engine.spawn2("after", Phase::PostLayout, body("after", vec![]));
    let mut log = Vec::new();
    assert!(run(&mut engine, &mut log));
    assert_eq!(
        log,
        vec![
            ("counter", 0),
            ("counter", 0),
            ("counter", 0),
            ("counter", 0),
            ("counter", 0),
            ("counter", 0),
            ("after", 0)
        ]
    );
    assert_eq!(engine.iteration(), 1);
    assert_eq!(engine.state_of(0), Some(TaskState::Completed));
}

#[test]
fn task_spawned_into_the_phase_being_drained_runs_in_the_same_pass() {
    let mut engine = Engine::new();
    engine.spawn2(
        "parent",
        Phase::Layout,
        body("parent", vec![Op::Spawn("child", Phase::Layout, vec![])]),
    );
    engine.spawn2("present", Phase::Present, body("present", vec![]));
    let mut log = Vec::new();
    assert!(run(&mut engine, &mut log));
    assert_eq!(log, vec![("parent", 0), ("child", 0), ("present", 0)]);
    assert_eq!(engine.iteration(), 1);
}

#[test]
fn task_spawned_into_an_earlier_phase_runs_in_the_same_pass() {
    let mut engine = Engine::new();
    engine.spawn2(
        "first",
        Phase::Present,
        body("first", vec![Op::Spawn("late", Phase::EventHandling, vec![])]),
    );
    engine.spawn2("second", Phase::Present, body("second", vec![]));
    let mut log = Vec::new();
    assert!(run(&mut engine, &mut log));
    assert_eq!(log, vec![("first", 0), ("second", 0), ("late", 0)]);
    assert_eq!(engine.iteration(), 1);
}

#[test]
fn pass_is_not_counted_while_an_earlier_phase_has_work() {
    let mut engine = Engine::new();
    engine.spawn2(
        "present",
        Phase::Present,
        body("present", vec![Op::Spawn("late", Phase::EventHandling, vec![])]),
    );
    engine.spawn2("yielder", Phase::Layout, body("yielder", vec![Op::YieldNow]));
    let mut log = Vec::new();
    assert!(run(&mut engine, &mut log));
    // The yielder is woken only after the late task has run too.
    assert_eq!(
        log,
        vec![("yielder", 0), ("present", 0), ("late", 0), ("yielder", 1)]
    );
    assert_eq!(engine.iteration(), 2);
}

#[test]
fn pass_goes_back_and_then_forward_again() {
    let mut engine = Engine::new();
    engine.spawn2(
        "present",
        Phase::Present,
        body(
            "present",
            vec![Op::Spawn(
                "events",
                Phase::EventHandling,
                vec![Op::Spawn("layout", Phase::Layout, vec![])],
            )],
        ),
    );
    let mut log = Vec::new();
    assert!(run(&mut engine, &mut log));
    assert_eq!(log, vec![("present", 0), ("events", 0), ("layout", 0)]);
    assert_eq!(engine.iteration(), 1);
}

#[test]
fn yield_resumes_in_a_later_pass() {
    let mut engine = Engine::new();
    engine.spawn2("yielder", Phase::Layout, body("yielder", vec![Op::YieldNow]));
    engine.spawn2("present", Phase::Present, body("present", vec![]));
    let mut log = Vec::new();
    assert!(run(&mut engine, &mut log));
    assert_eq!(log, vec![("yielder", 0), ("present", 0), ("yielder", 1)]);
    assert_eq!(engine.iteration(), 2);
}

#[test]
fn yield_waiters_wake_in_order_of_registration() {
    let mut engine = Engine::new();
    engine.spawn2("p", Phase::Present, body("p", vec![Op::YieldNow]));
    engine.spawn2("e", Phase::EventHandling, body("e", vec![Op::YieldNow]));
    engine.spawn2("q", Phase::Present, body("q", vec![Op::YieldNow]));
    let mut log = Vec::new();
    assert!(run(&mut engine, &mut log));
    assert_eq!(
        log,
        vec![("e", 0), ("p", 0), ("q", 0), ("e", 1), ("p", 1), ("q", 1)]
    );
}

#[test]
fn two_yields_take_two_passes() {
    let mut engine = Engine::new();
    let handle = engine.spawn("twice", body("twice", vec![Op::YieldNow, Op::YieldNow]));
    let mut log = Vec::new();
    assert!(run(&mut engine, &mut log));
    assert_eq!(log, vec![("twice", 0), ("twice", 1), ("twice", 2)]);
    assert_eq!(engine.iteration(), 3);
    let waker = {
        let other = engine.spawn("reader", body("reader", vec![]));
        assert_eq!(other.task(), 1);
        match engine.dispatch() {
            Dispatch::Run(runnable, _) => {
                let waker = runnable.waker();
                engine.complete(runnable, 0);
                waker
            }
            _ => panic!("the reader is pending"),
        }
    };
    match engine.join(&handle, &waker) {
        Poll::Ready(passes) => assert_eq!(passes, 2),
        Poll::Pending => panic!("the task has completed"),
    }
}

#[test]
fn iteration_counts_one_per_pass() {
    let mut engine = Engine::new();
    let mut log = Vec::new();
    assert_eq!(engine.iteration(), 0);
    assert!(run(&mut engine, &mut log));
    assert_eq!(engine.iteration(), 0);
    engine.spawn("a", body("a", vec![]));
    assert!(run(&mut engine, &mut log));
    assert_eq!(engine.iteration(), 1);
    assert!(run(&mut engine, &mut log));
    assert!(run(&mut engine, &mut log));
    assert_eq!(engine.iteration(), 1);
    engine.spawn("b", body("b", vec![]));
    engine.spawn2("c", Phase::Present, body("c", vec![]));
    assert!(run(&mut engine, &mut log));
    assert_eq!(engine.iteration(), 2);
    assert_eq!(log, vec![("a", 0), ("b", 1), ("c", 1)]);
}

#[test]
fn dispatch_without_work_reports_idle() {
    let mut engine = Engine::new();
    assert!(matches!(engine.dispatch(), Dispatch::Idle));
    assert!(matches!(engine.dispatch(), Dispatch::Idle));
    assert_eq!(engine.iteration(), 0);
    assert_eq!(engine.pending(), 0);
    assert_eq!(engine.task_count(), 0);
}

#[test]
fn clear_then_dispatch_runs_nothing() {
    let mut engine = Engine::new();
    engine.spawn("a", body("a", vec![]));
    engine.spawn2("b", Phase::Present, body("b", vec![]));
    engine.spawn2("c", Phase::Layout, body("c", vec![Op::YieldNow]));
    assert_eq!(engine.pending(), 3);
    engine.clear();
    assert_eq!(engine.pending(), 0);
    let mut log = Vec::new();
    assert!(run(&mut engine, &mut log));
    assert!(log.is_empty());
    assert_eq!(engine.pending(), 0);
    assert_eq!(engine.iteration(), 0);
    assert_eq!(engine.state_of(0), Some(TaskState::Discarded));
    assert_eq!(engine.state_of(1), Some(TaskState::Discarded));
    assert_eq!(engine.state_of(2), Some(TaskState::Discarded));
}

#[test]
fn clear_drops_yield_waiters_and_keeps_counter_and_stop_flag() {
    let mut engine = Engine::new();
    engine.spawn("y", body("y", vec![Op::YieldNow, Op::Stop]));
    engine.spawn2("z", Phase::Present, body("z", vec![]));
    let mut log = Vec::new();
    assert!(!run(&mut engine, &mut log));
    assert_eq!(log, vec![("y", 0), ("z", 0), ("y", 1)]);
    assert_eq!(engine.iteration(), 1);
    engine.spawn("w", body("w", vec![Op::YieldNow]));
    match engine.dispatch() {
        Dispatch::Run(runnable, mut body) => {
            let mut y = engine.yield_now();
            assert!(matches!(y.poll(&mut engine, &runnable.waker()), Poll::Pending));
            body.yielding = Some(y);
            body.ops.clear();
            engine.suspend(runnable, body);
        }
        _ => panic!("w is pending"),
    }
    engine.clear();
    assert!(engine.is_stopped());
    assert_eq!(engine.iteration(), 1);
    assert!(run(&mut engine, &mut log));
    assert_eq!(log.len(), 3);
    assert_eq!(engine.iteration(), 1);
    assert_eq!(engine.state_of(2), Some(TaskState::Suspended));
}

#[test]
fn stop_inside_a_task_halts_the_pass() {
    let mut engine = Engine::new();
    engine.spawn("a", body("a", vec![]));
    engine.spawn("stopper", body("stopper", vec![Op::Stop]));
    engine.spawn("c", body("c", vec![]));
    engine.spawn2("d", Phase::Present, body("d", vec![]));
    let mut log = Vec::new();
    assert!(!run(&mut engine, &mut log));
    assert_eq!(names(&log), vec!["a", "stopper"]);
    assert!(engine.is_stopped());
    assert_eq!(engine.pending(), 2);
    assert_eq!(engine.iteration(), 0);
    assert_eq!(engine.state_of(2), Some(TaskState::Queued));
    assert_eq!(engine.state_of(3), Some(TaskState::Queued));
}

#[test]
fn stopped_engine_runs_one_task_per_dispatch() {
    let mut engine = Engine::new();
    engine.spawn("a", body("a", vec![]));
    engine.spawn("b", body("b", vec![]));
    engine.spawn2("c", Phase::Layout, body("c", vec![]));
    engine.stop();
    let mut log = Vec::new();
    assert!(!run(&mut engine, &mut log));
    assert_eq!(names(&log), vec!["a"]);
    assert_eq!(engine.pending(), 2);
    assert!(!run(&mut engine, &mut log));
    assert_eq!(names(&log), vec!["a", "b"]);
    assert_eq!(engine.pending(), 1);
    assert!(!run(&mut engine, &mut log));
    assert_eq!(names(&log), vec!["a", "b", "c"]);
    assert_eq!(engine.pending(), 0);
    assert!(run(&mut engine, &mut log));
    assert_eq!(log.len(), 3);
    assert_eq!(engine.iteration(), 0);
}

#[test]
fn stop_then_clear_leaves_nothing_pending() {
    let mut engine = Engine::new();
    engine.spawn("stopper", body("stopper", vec![Op::Stop]));
    engine.spawn("b", body("b", vec![]));
    let mut log = Vec::new();
    assert!(!run(&mut engine, &mut log));
    assert_eq!(engine.pending(), 1);
    engine.clear();
    assert_eq!(engine.pending(), 0);
    assert!(run(&mut engine, &mut log));
    assert_eq!(names(&log), vec!["stopper"]);
}

#[test]
fn pending_counts_the_queued_entries() {
    let mut engine = Engine::new();
    assert_eq!(engine.pending(), 0);
    engine.spawn("a", body("a", vec![Op::Park]));
    engine.spawn2("b", Phase::Present, body("b", vec![]));
    assert_eq!(engine.pending(), 2);
    match engine.dispatch() {
        Dispatch::Run(runnable, body) => {
            assert_eq!(body.name, "a");
            assert_eq!(engine.pending(), 1);
            assert_eq!(engine.state_of(0), Some(TaskState::Running));
            engine.suspend(runnable, body);
            assert_eq!(engine.state_of(0), Some(TaskState::Suspended));
            assert_eq!(engine.pending(), 1);
        }
        _ => panic!("a is pending"),
    }
    match engine.dispatch() {
        Dispatch::Run(runnable, body) => {
            assert_eq!(body.name, "b");
            assert_eq!(engine.pending(), 0);
            engine.complete(runnable, 7);
        }
        _ => panic!("b is pending"),
    }
    assert!(matches!(engine.dispatch(), Dispatch::Idle));
    assert_eq!(engine.iteration(), 1);
}

#[test]
fn names_are_kept_by_task_number() {
    let mut engine = Engine::new();
    let a = engine.spawn("input", body("input", vec![]));
    let b = engine.spawn2("render", Phase::Present, body("render", vec![]));
    assert_eq!(engine.task_count(), 2);
    assert_eq!(engine.name_of(a.task()), Some("input"));
    assert_eq!(engine.name_of(b.task()), Some("render"));
    assert_eq!(engine.name_of(2), None);
    assert_eq!(engine.state_of(2), None);
}
