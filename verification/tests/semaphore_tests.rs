use core_latency::semaphore::Semaphore;

#[test]
fn new_semaphore_units_can_all_be_taken() {
    let s = Semaphore::new(3);
    assert!(s.down().is_some());
    assert!(s.down().is_some());
    assert!(s.down().is_some());
}

#[test]
fn up_adds_one_unit() {
    let s = Semaphore::new(0);
    s.up();
    assert!(s.down().is_some());
}

#[test]
fn up_n_adds_n_units() {
    let s = Semaphore::new(0);
    s.up_n(2);
    assert!(s.down().is_some());
    assert!(s.down().is_some());
}

#[test]
fn count_balances_initial_plus_ups_minus_downs() {
    // initial 1, +1, +3 units: exactly 5 downs must all succeed
    let s = Semaphore::new(1);
    s.up();
    s.up_n(3);
    for _ in 0..5 {
        assert!(s.down().is_some());
    }
}

#[test]
fn interleaved_ups_and_downs_balance() {
    let s = Semaphore::new(0);
    s.up_n(2);
    assert!(s.down().is_some());
    s.up();
    assert!(s.down().is_some());
    assert!(s.down().is_some());
    s.up_n(0);
    s.up();
    assert!(s.down().is_some());
}

#[test]
fn concurrent_ups_all_arrive() {
    // many threads feed units; a single consumer must get every one
    let s = Semaphore::new(0);
    crossbeam_utils::thread::scope(|scope| {
        for _ in 0..4 {
            scope.spawn(|_| {
                for _ in 0..1000 {
                    s.up();
                }
            });
        }
    })
    .unwrap();
    for _ in 0..4000 {
        assert!(s.down().is_some());
    }
}
