use async_engine::{AsyncEngine, Dispatch, Phase, Poll, Runnable, TaskState, YieldState};

type Engine = AsyncEngine<&'static str, u32>;

fn expect_run(engine: &mut Engine, name: &'static str) -> Runnable {
    match engine.dispatch() {
        Dispatch::Run(runnable, body) => {
            assert_eq!(body, name);
            runnable
        }
        Dispatch::Idle => panic!("expected {name}, got Idle"),
        Dispatch::Stopped => panic!("expected {name}, got Stopped"),
    }
}

fn expect_idle(engine: &mut Engine) {
    assert!(matches!(engine.dispatch(), Dispatch::Idle));
}

#[test]
fn new_engine_is_empty() {
    let mut engine = Engine::new();
    assert_eq!(engine.iteration(), 0);
    assert_eq!(engine.pending(), 0);
    assert_eq!(engine.task_count(), 0);
    assert!(!engine.is_stopped());
    assert_eq!(engine.state_of(0), None);
    expect_idle(&mut engine);
}

#[test]
fn spawn_returns_consecutive_task_numbers() {
    let mut engine = Engine::new();
    let a = engine.spawn("a", "a");
    let b = engine.spawn2("b", Phase::Present, "b");
    let c = engine.spawn2("c", Phase::Layout, "c");
    assert_eq!((a.task(), b.task(), c.task()), (0, 1, 2));
    assert_eq!(engine.task_count(), 3);
    assert_eq!(engine.pending(), 3);
    for task in 0..3 {
        assert_eq!(engine.state_of(task), Some(TaskState::Queued));
    }
}

#[test]
fn suspended_task_runs_again_only_after_a_wake() {
    let mut engine = Engine::new();
    engine.spawn("a", "a");
    let runnable = expect_run(&mut engine, "a");
    let waker = runnable.waker();
    assert_eq!(waker.task(), 0);
    assert_eq!(runnable.task(), 0);
    engine.suspend(runnable, "a again");
    assert_eq!(engine.state_of(0), Some(TaskState::Suspended));
    expect_idle(&mut engine);
    expect_idle(&mut engine);
    assert_eq!(engine.iteration(), 1);
    engine.wake(&waker);
    assert_eq!(engine.state_of(0), Some(TaskState::Queued));
    assert_eq!(engine.pending(), 1);
    let runnable = expect_run(&mut engine, "a again");
    engine.complete(runnable, 1);
    assert_eq!(engine.state_of(0), Some(TaskState::Completed));
    expect_idle(&mut engine);
    assert_eq!(engine.iteration(), 2);
}

#[test]
fn waking_twice_queues_one_entry() {
    let mut engine = Engine::new();
    engine.spawn2("a", Phase::Layout, "a");
    let runnable = expect_run(&mut engine, "a");
    let waker = runnable.waker();
    engine.suspend(runnable, "a");
    expect_idle(&mut engine);
    engine.wake(&waker);
    engine.wake(&waker);
    engine.wake(&waker);
    assert_eq!(engine.pending(), 1);
    let runnable = expect_run(&mut engine, "a");
    engine.complete(runnable, 0);
    expect_idle(&mut engine);
}

#[test]
fn waking_a_queued_or_completed_task_changes_nothing() {
    let mut engine = Engine::new();
    engine.spawn("a", "a");
    engine.spawn("b", "b");
    let runnable = expect_run(&mut engine, "a");
    let waker_a = runnable.waker();
    engine.complete(runnable, 3);
    engine.wake(&waker_a);
    assert_eq!(engine.state_of(0), Some(TaskState::Completed));
    assert_eq!(engine.pending(), 0);
    let runnable = expect_run(&mut engine, "b");
    engine.suspend(runnable, "b");
    expect_idle(&mut engine);
    assert_eq!(engine.pending(), 0);
}

#[test]
fn wake_during_the_resume_step_requeues_on_suspend() {
    let mut engine = Engine::new();
    engine.spawn2("a", Phase::PostLayout, "a");
    let runnable = expect_run(&mut engine, "a");
    engine.wake(&runnable.waker());
    assert_eq!(engine.state_of(0), Some(TaskState::Woken));
    assert_eq!(engine.pending(), 0);
    assert!(engine.is_running(&runnable));
    engine.suspend(runnable, "a2");
    assert_eq!(engine.state_of(0), Some(TaskState::Queued));
    assert_eq!(engine.pending(), 1);
    let runnable = expect_run(&mut engine, "a2");
    assert_eq!(engine.iteration(), 0);
    engine.complete(runnable, 0);
    expect_idle(&mut engine);
    assert_eq!(engine.iteration(), 1);
}

#[test]
fn wake_during_the_resume_step_is_dropped_on_complete() {
    let mut engine = Engine::new();
    engine.spawn("a", "a");
    let runnable = expect_run(&mut engine, "a");
    engine.wake(&runnable.waker());
    engine.complete(runnable, 9);
    assert_eq!(engine.state_of(0), Some(TaskState::Completed));
    assert_eq!(engine.pending(), 0);
    expect_idle(&mut engine);
}

#[test]
fn is_running_holds_only_during_the_resume_step() {
    let mut engine = Engine::new();
    engine.spawn("a", "a");
    engine.spawn("b", "b");
    let first = expect_run(&mut engine, "a");
    assert!(engine.is_running(&first));
    engine.suspend(first, "a");
    let second = expect_run(&mut engine, "b");
    assert!(engine.is_running(&second));
    engine.complete(second, 0);
}

#[test]
fn join_registers_the_waiter_and_takes_the_result_once() {
    let mut engine = Engine::new();
    let worker = engine.spawn2("worker", Phase::Layout, "worker");
    engine.spawn("waiter", "waiter");
    // The waiter runs first and finds no result.
    let waiter = expect_run(&mut engine, "waiter");
    let waiter_waker = waiter.waker();
    assert!(matches!(engine.join(&worker, &waiter_waker), Poll::Pending));
    engine.suspend(waiter, "waiter resumed");
    assert_eq!(engine.state_of(1), Some(TaskState::Suspended));
    // The worker completes: the waiter is woken into its own phase, which
    // the pass has left; the pass goes back to it before it is counted.
    let runnable = expect_run(&mut engine, "worker");
    engine.complete(runnable, 42);
    assert_eq!(engine.state_of(1), Some(TaskState::Queued));
    assert_eq!(engine.pending(), 1);
    let waiter = expect_run(&mut engine, "waiter resumed");
    assert_eq!(engine.iteration(), 0);
    match engine.join(&worker, &waiter_waker) {
        Poll::Ready(value) => assert_eq!(value, 42),
        Poll::Pending => panic!("the result is there"),
    }
    // The slot is taken now.
    assert!(matches!(engine.join(&worker, &waiter_waker), Poll::Pending));
    engine.complete(waiter, 0);
    expect_idle(&mut engine);
    assert_eq!(engine.iteration(), 1);
    assert_eq!(engine.pending(), 0);
}

#[test]
fn join_after_completion_is_ready_at_once() {
    let mut engine = Engine::new();
    let worker = engine.spawn("worker", "worker");
    let runnable = expect_run(&mut engine, "worker");
    let waker = runnable.waker();
    engine.complete(runnable, 5);
    match engine.join(&worker, &waker) {
        Poll::Ready(value) => assert_eq!(value, 5),
        Poll::Pending => panic!("the result is there"),
    }
}

#[test]
fn result_of_a_dropped_handle_is_discarded() {
    let mut engine = Engine::new();
    let handle = engine.spawn("worker", "worker");
    drop(handle);
    let runnable = expect_run(&mut engine, "worker");
    engine.complete(runnable, 1);
    assert_eq!(engine.state_of(0), Some(TaskState::Completed));
    expect_idle(&mut engine);
}

#[test]
fn join_on_a_handle_of_another_engine_is_pending() {
    let mut big = Engine::new();
    big.spawn("a", "a");
    let foreign = big.spawn("b", "b");
    let mut small = Engine::new();
    small.spawn("only", "only");
    let runnable = expect_run(&mut small, "only");
    assert!(matches!(small.join(&foreign, &runnable.waker()), Poll::Pending));
    assert_eq!(small.state_of(0), Some(TaskState::Running));
    small.complete(runnable, 0);
}

#[test]
fn wake_of_an_unknown_task_changes_nothing() {
    let mut big = Engine::new();
    big.spawn("a", "a");
    big.spawn("b", "b");
    let _ = expect_run(&mut big, "a");
    let runnable = expect_run(&mut big, "b");
    let foreign = runnable.waker();
    let mut empty = Engine::new();
    empty.wake(&foreign);
    assert_eq!(empty.pending(), 0);
    assert_eq!(empty.task_count(), 0);
    expect_idle(&mut empty);
}

#[test]
fn yield_goes_through_its_three_stages() {
    let mut engine = Engine::new();
    engine.spawn("a", "a");
    let runnable = expect_run(&mut engine, "a");
    let waker = runnable.waker();
    let mut y = engine.yield_now();
    assert_eq!(y.iteration(), 0);
    assert_eq!(y.stage(), YieldState::Unregistered);
    assert!(matches!(y.poll(&mut engine, &waker), Poll::Pending));
    assert_eq!(y.stage(), YieldState::Registered);
    engine.suspend(runnable, "a");
    let runnable = expect_run(&mut engine, "a");
    assert_eq!(engine.iteration(), 1);
    assert!(matches!(y.poll(&mut engine, &waker), Poll::Ready(())));
    assert_eq!(y.stage(), YieldState::Ready);
    assert!(matches!(y.poll(&mut engine, &waker), Poll::Ready(())));
    assert_eq!(y.iteration(), 0);
    engine.complete(runnable, 0);
    expect_idle(&mut engine);
    assert_eq!(engine.iteration(), 2);
}

#[test]
fn yield_now_touches_no_queue() {
    let mut engine = Engine::new();
    engine.spawn("a", "a");
    let before = engine.pending();
    let y = engine.yield_now();
    assert_eq!(y.stage(), YieldState::Unregistered);
    assert_eq!(engine.pending(), before);
    let runnable = expect_run(&mut engine, "a");
    engine.complete(runnable, 0);
    expect_idle(&mut engine);
    assert_eq!(engine.iteration(), 1);
}

#[test]
fn yield_created_in_a_later_pass_captures_the_counter() {
    let mut engine = Engine::new();
    for _ in 0..3 {
        engine.spawn("a", "a");
        let runnable = expect_run(&mut engine, "a");
        engine.complete(runnable, 0);
        expect_idle(&mut engine);
    }
    assert_eq!(engine.iteration(), 3);
    assert_eq!(engine.yield_now().iteration(), 3);
}

#[test]
fn phase_index_and_order() {
    let all = [Phase::EventHandling, Phase::Layout, Phase::PostLayout, Phase::Present];
    for (i, phase) in all.iter().enumerate() {
        assert_eq!(phase.index(), i);
        assert_eq!(Phase::from_index(i), Some(*phase));
    }
    assert_eq!(Phase::from_index(4), None);
    assert_eq!(Phase::from_index(usize::MAX), None);
    assert_eq!(async_engine::NUM_PHASES, 4);
}
