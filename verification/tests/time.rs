use async_engine::{AsyncEngine, Dispatch, Phase, Runnable};
use std::time::Instant;

type Engine = AsyncEngine<u8, ()>;

fn expect_run(engine: &mut Engine) -> (Runnable, u8) {
    match engine.dispatch() {
        Dispatch::Run(runnable, body) => (runnable, body),
        _ => panic!("a task is pending"),
    }
}

/// Spins until the clock shows a later instant than `start`.
fn wait_for_the_clock(start: Instant) {
    while Instant::now() <= start {}
}

#[test]
fn now_is_the_same_within_a_pass() {
    let mut engine = Engine::new();
    engine.spawn("a", 1);
    engine.spawn2("b", Phase::Present, 2);
    let (first, _) = expect_run(&mut engine);
    let t1 = engine.now();
    wait_for_the_clock(t1.instant());
    let t2 = engine.now();
    assert_eq!(t1, t2);
    engine.complete(first, ());
    let (second, body) = expect_run(&mut engine);
    assert_eq!(body, 2);
    wait_for_the_clock(t1.instant());
    assert_eq!(engine.now(), t1);
    engine.complete(second, ());
}

#[test]
fn now_is_sampled_again_in_the_next_pass() {
    let mut engine = Engine::new();
    engine.spawn("a", 1);
    let (runnable, _) = expect_run(&mut engine);
    let t1 = engine.now();
    engine.complete(runnable, ());
    assert!(matches!(engine.dispatch(), Dispatch::Idle));
    // No pass has started since: the cache still holds.
    assert_eq!(engine.now(), t1);
    wait_for_the_clock(t1.instant());
    engine.spawn("b", 2);
    let (runnable, _) = expect_run(&mut engine);
    let t2 = engine.now();
    assert!(t2.instant() > t1.instant());
    assert_eq!(engine.now(), t2);
    engine.complete(runnable, ());
}

#[test]
fn now_is_not_before_the_call() {
    let mut engine = Engine::new();
    let before = Instant::now();
    let t = engine.now();
    let after = Instant::now();
    assert!(before <= t.instant());
    assert!(t.instant() <= after);
}

#[test]
fn now_or_prefers_the_cache() {
    let mut engine = Engine::new();
    let t1 = engine.now();
    wait_for_the_clock(t1.instant());
    let mut other = Engine::new();
    let later = other.now();
    assert!(later.instant() > t1.instant());
    // The cache is filled: the sample is ignored.
    assert_eq!(engine.now_or(later), t1);
    // A new pass forgets the cache: the sample is taken and kept.
    engine.spawn("a", 1);
    let (runnable, _) = expect_run(&mut engine);
    assert_eq!(engine.now_or(later), later);
    assert_eq!(engine.now_or(t1), later);
    assert_eq!(engine.now(), later);
    engine.complete(runnable, ());
}

#[test]
fn clear_and_stop_keep_the_cached_time() {
    let mut engine = Engine::new();
    engine.spawn("a", 1);
    let t1 = engine.now();
    engine.stop();
    engine.clear();
    wait_for_the_clock(t1.instant());
    assert_eq!(engine.now(), t1);
}
