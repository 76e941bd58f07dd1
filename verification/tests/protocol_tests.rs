use core_latency::protocol::BenchmarkResult;
use core_latency::protocol::SHUTDOWN_SURPLUS;
use core_latency::protocol::all_pairs;
use core_latency::protocol::run_sync;
use core_latency::semaphore::Semaphore;
use std::sync::atomic::AtomicBool;
use std::sync::atomic::Ordering;
use std::time::Duration;
use std::time::Instant;

fn spin_wait(d: Duration) {
    let start = Instant::now();
    while start.elapsed() < d {
        std::hint::spin_loop();
    }
}

#[test]
fn no_pairs_from_fewer_than_two_cores() {
    assert_eq!(all_pairs(&vec![]), vec![]);
    assert_eq!(all_pairs(&vec![3]), vec![]);
}

#[test]
fn two_cores_give_exactly_one_pair() {
    assert_eq!(all_pairs(&vec![0, 1]), vec![(0, 1)]);
}

#[test]
fn four_cores_give_exactly_six_pairs_in_order() {
    assert_eq!(
        all_pairs(&vec![0, 2, 5, 7]),
        vec![(0, 2), (0, 5), (0, 7), (2, 5), (2, 7), (5, 7)]
    );
}

#[test]
fn average_latency_is_elapsed_over_count() {
    let r = BenchmarkResult { round_trips: 4, elapsed_nanos: 1000 };
    assert_eq!(r.average_latency_nanos(), Some(250));
    let r = BenchmarkResult { round_trips: 3, elapsed_nanos: 10 };
    assert_eq!(r.average_latency_nanos(), Some(3));
}

#[test]
fn average_latency_is_undefined_for_zero_round_trips() {
    let r = BenchmarkResult { round_trips: 0, elapsed_nanos: 1000 };
    assert_eq!(r.average_latency_nanos(), None);
}

#[test]
fn run_sync_returns_zero_once_cancelled() {
    let cancel = AtomicBool::new(true);
    let s1 = Semaphore::new(1);
    let s2 = Semaphore::new(0);
    assert_eq!(run_sync(&s1, &s2, &cancel), 0);
}

fn ping_pong_once(window: Duration) -> (usize, Duration) {
    let cancel = AtomicBool::new(false);
    let s1 = Semaphore::new(1);
    let s2 = Semaphore::new(0);
    let mut result = (0usize, Duration::from_secs(0));

    crossbeam_utils::thread::scope(|scope| {
        let a = scope.spawn(|_| {
            let _ = s1.down();
            let start = Instant::now();
            let count = run_sync(&s1, &s2, &cancel);
            (count, start.elapsed())
        });
        let b = scope.spawn(|_| {
            s1.up_n(2);
            run_sync(&s2, &s1, &cancel)
        });
        spin_wait(window);
        cancel.store(true, Ordering::Relaxed);
        s1.up_n(SHUTDOWN_SURPLUS);
        s2.up_n(SHUTDOWN_SURPLUS);
        result = a.join().unwrap();
        b.join().unwrap();
    })
    .unwrap();
    result
}

#[test]
fn ping_pong_round_trips_and_terminates() {
    let start = Instant::now();
    let (count, elapsed) = ping_pong_once(Duration::from_millis(200));
    let total = start.elapsed();
    assert!(count > 0);
    assert!(elapsed.as_nanos() > 0);
    let r = BenchmarkResult {
        round_trips: count,
        elapsed_nanos: elapsed.as_nanos() as u64,
    };
    assert!(r.average_latency_nanos().unwrap() > 0);
    // the window plus a generous margin, far below a hang
    assert!(total < Duration::from_secs(10));
}

#[test]
fn repeating_a_benchmark_keeps_its_properties() {
    for _ in 0..2 {
        let (count, elapsed) = ping_pong_once(Duration::from_millis(100));
        assert!(count > 0);
        assert!(elapsed.as_nanos() > 0);
    }
}

#[test]
fn surplus_unblocks_a_starved_worker() {
    // the worker spins inside down() on a semaphore held at zero when
    // cancellation arrives; the surplus alone must let it exit
    let cancel = AtomicBool::new(false);
    let s1 = Semaphore::new(0);
    let s2 = Semaphore::new(0);
    let mut count = 0usize;
    crossbeam_utils::thread::scope(|scope| {
        let w = scope.spawn(|_| run_sync(&s1, &s2, &cancel));
        spin_wait(Duration::from_millis(100));
        cancel.store(true, Ordering::Relaxed);
        s1.up_n(SHUTDOWN_SURPLUS);
        s2.up_n(SHUTDOWN_SURPLUS);
        count = w.join().unwrap();
    })
    .unwrap();
    // joining at all is the property; the worker counts at most the one
    // round trip its unblocking unit allows before it sees the flag
    assert!(count <= 1);
}
