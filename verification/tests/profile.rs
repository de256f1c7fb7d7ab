//! Timing profiles.

use std::time::{Duration, Instant};

use gelo::profile::{
    aggregate_threads, flush_to_global, record, reset_all, snapshot, time, Profile,
    Stopwatch, WorkerProfileGuard,
};

fn count(p: &Profile, name: &'static str) -> Option<u64> {
    p.get(name).map(|(_, n)| n)
}

#[test]
fn merge_is_additive() {
    let mut a = Profile::default();
    a.insert("x", (Duration::from_millis(10).as_nanos(), 1));
    let mut b = Profile::default();
    b.insert("x", (Duration::from_millis(20).as_nanos(), 2));
    b.insert("y", (Duration::from_millis(5).as_nanos(), 1));
    a.merge(&b);
    assert_eq!(a.get("x"), Some((Duration::from_millis(30).as_nanos(), 3)));
    assert_eq!(a.get("y"), Some((Duration::from_millis(5).as_nanos(), 1)));
}

#[test]
fn record_accumulates_on_one_thread() {
    let mut local = Profile::default();
    time(&mut local, "test:a", || {});
    time(&mut local, "test:a", || {});
    time(&mut local, "test:b", || {});
    let snap = snapshot(&local);
    assert_eq!(count(&snap, "test:a"), Some(2));
    assert_eq!(count(&snap, "test:b"), Some(1));
}

#[test]
fn worker_guard_flushes_to_main_on_aggregate() {
    let mut global = Vec::new();
    let mut main = Profile::default();
    time(&mut main, "test:main_a", || {});
    let mut worker = Profile::default();
    let guard = WorkerProfileGuard::new();
    time(&mut worker, "test:worker_a", || {});
    time(&mut worker, "test:worker_a", || {});
    time(&mut worker, "test:worker_b", || {});
    guard.release(&mut worker, &mut global);
    time(&mut main, "test:main_b", || {});
    aggregate_threads(&mut main, &mut global);
    let snap = snapshot(&main);
    assert_eq!(count(&snap, "test:main_a"), Some(1));
    assert_eq!(count(&snap, "test:main_b"), Some(1));
    assert_eq!(count(&snap, "test:worker_a"), Some(2));
    assert_eq!(count(&snap, "test:worker_b"), Some(1));
    assert!(worker.is_empty());
}

#[test]
fn aggregate_threads_is_idempotent() {
    let mut global = Vec::new();
    let mut main = Profile::default();
    let mut worker = Profile::default();
    let guard = WorkerProfileGuard::new();
    time(&mut worker, "test:idem", || {});
    guard.release(&mut worker, &mut global);
    aggregate_threads(&mut main, &mut global);
    aggregate_threads(&mut main, &mut global);
    assert_eq!(count(&snapshot(&main), "test:idem"), Some(1));
}

#[test]
fn rows_come_slowest_first() {
    let mut p = Profile::new();
    record(&mut p, "b", 5);
    record(&mut p, "a", 7);
    record(&mut p, "c", 5);
    record(&mut p, "b", 9);
    assert_eq!(p.rows_by_time(), vec![("b", 14, 2), ("a", 7, 1), ("c", 5, 1)]);
    assert_eq!(p.total(), 26);
}

#[test]
fn empty_profiles_are_not_staged_and_reset_clears_all() {
    let mut global = Vec::new();
    let mut p = Profile::new();
    flush_to_global(&mut p, &mut global);
    assert!(global.is_empty());
    record(&mut p, "a", 1);
    flush_to_global(&mut p, &mut global);
    record(&mut p, "a", 2);
    assert_eq!(global.len(), 1);
    reset_all(&mut p, &mut global);
    assert!(p.is_empty() && global.is_empty());
}

#[test]
fn timing_returns_what_was_timed() {
    let mut p = Profile::new();
    assert_eq!(time(&mut p, "work", || 41 + 1), 42);
    let (nanos, n) = p.get("work").unwrap();
    assert_eq!(n, 1);
    assert!(nanos < Duration::from_secs(5).as_nanos());
    let start = Instant::now();
    time(&mut p, "wait", || while start.elapsed() < Duration::from_millis(3) {});
    assert!(p.get("wait").unwrap().0 >= Duration::from_millis(2).as_nanos());
}

#[test]
fn measurements_nest() {
    let mut p = Profile::new();
    let outer = Stopwatch::start();
    let inner = Stopwatch::start();
    time(&mut p, "both", || {});
    inner.stop(&mut p, "inner");
    record(&mut p, "both", 7);
    outer.stop(&mut p, "both");
    assert_eq!(count(&p, "both"), Some(3));
    assert_eq!(count(&p, "inner"), Some(1));
    let (both, _) = p.get("both").unwrap();
    let (within, _) = p.get("inner").unwrap();
    assert!(both >= within + 7);
}
