//! A lock-free counting semaphore built on a single atomic integer.
//!
//! `down` busy-waits: it spins until it observes a positive count and then
//! takes one unit with a compare-and-swap; there is no blocking, no backoff
//! and no fairness guarantee. The counter is the only thing the semaphore
//! synchronises: it is not a memory fence for other shared data.
//!
//! Every loop here carries a `decreases` measure, so the spin is bounded by
//! `usize::MAX` acquisition attempts. No real execution exhausts that bound
//! (it is centuries of back-to-back compare-and-swap attempts); `down`
//! reports exhaustion as `None` so that it never returns without having
//! acquired a unit.

use vstd::prelude::*;
use core::sync::atomic::AtomicUsize;
use core::sync::atomic::Ordering;

verus! {

/// A counting semaphore over one atomic non-negative integer.
pub struct Semaphore(AtomicUsize);

/// Relies on core::sync::atomic::AtomicUsize::compare_exchange_weak: when it
/// returns `Ok`, the exchange took place and the value returned is the
/// previous value, which then equals `current`; it may fail spuriously, and
/// on failure it returns `Err` with the value it saw instead.
#[verifier::external_body]
fn cas_weak(cell: &AtomicUsize, current: usize, new: usize) -> (r: Result<usize, usize>)
    ensures
        r matches Ok(prev) ==> prev == current,
{
    cell.compare_exchange_weak(current, new, Ordering::Relaxed, Ordering::Relaxed)
}

impl Semaphore {
    /// Creates a semaphore holding `value` units.
    pub fn new(value: usize) -> Self {
        Semaphore(AtomicUsize::new(value))
    }

    /// Atomically adds one unit. Never blocks and has no precondition.
    pub fn up(&self) {
        self.0.fetch_add(1, Ordering::Relaxed);
    }

    /// Atomically adds `n` units. Never blocks and has no precondition.
    pub fn up_n(&self, n: usize) {
        self.0.fetch_add(n, Ordering::Relaxed);
    }

    /// Spins until one unit can be taken, then takes it.
    ///
    /// On success, returns the count observed immediately before the
    /// successful decrement; it is always positive, so no caller ever
    /// acquires a unit from a zero count. While the count stays zero the
    /// call keeps spinning, a property the shutdown protocol relies on;
    /// only after `usize::MAX` failed attempts — a bound no real execution
    /// reaches — does it give up and return `None`.
    pub fn down(&self) -> (r: Option<Ghost<usize>>)
        ensures
            r matches Some(observed) ==> observed@ >= 1,
    {
        let mut prev = self.0.load(Ordering::Relaxed);
        let mut attempts_left: usize = usize::MAX;
        while attempts_left > 0
            decreases attempts_left,
        {
            attempts_left = attempts_left - 1;
            if prev == 0 {
                prev = self.0.load(Ordering::Relaxed);
                continue;
            }
            match cas_weak(&self.0, prev, prev - 1) {
                Ok(p) => {
                    return Some(Ghost(p));
                },
                Err(next) => {
                    prev = next;
                },
            }
        }
        None
    }
}

/// One step in a linearized history of a semaphore's counter. Each exec
/// operation on [`Semaphore`] is a single atomic read-modify-write, so any
/// concurrent execution, over any number of threads, linearizes to one
/// sequence of these events.
pub ghost enum SemEvent {
    /// `up` or `up_n`: adds `n` units (`up` is `n == 1`).
    Up { n: nat },
    /// One successful decrement inside `down`: takes one unit.
    Down,
}

/// The count after a semaphore created with `init` units has seen the
/// events `ops`, in order.
pub open spec fn count_after(init: nat, ops: Seq<SemEvent>) -> int
    decreases ops.len(),
{
    if ops.len() == 0 {
        init as int
    } else {
        let prev = count_after(init, ops.drop_last());
        match ops.last() {
            SemEvent::Up { n } => prev + n,
            SemEvent::Down => prev - 1,
        }
    }
}

/// A history is admissible when every `Down` fires from a positive count —
/// which `Semaphore::down` guarantees by construction: its compare-and-swap
/// only ever exchanges a value it observed to be at least 1.
pub open spec fn admissible(init: nat, ops: Seq<SemEvent>) -> bool
    decreases ops.len(),
{
    if ops.len() == 0 {
        true
    } else {
        admissible(init, ops.drop_last()) && (ops.last() is Down
            ==> count_after(init, ops.drop_last()) >= 1)
    }
}

/// The sum of all increments in `ops`.
pub open spec fn total_up(ops: Seq<SemEvent>) -> int
    decreases ops.len(),
{
    if ops.len() == 0 {
        0
    } else {
        total_up(ops.drop_last()) + match ops.last() {
            SemEvent::Up { n } => n as int,
            SemEvent::Down => 0int,
        }
    }
}

/// The number of successful decrements in `ops`.
pub open spec fn total_down(ops: Seq<SemEvent>) -> int
    decreases ops.len(),
{
    if ops.len() == 0 {
        0
    } else {
        total_down(ops.drop_last()) + match ops.last() {
            SemEvent::Up { .. } => 0int,
            SemEvent::Down => 1int,
        }
    }
}

/// Law: under any admissible history — any interleaving of `up`, `up_n` and
/// `down` callers across any number of threads — the count never goes
/// negative, and it always equals the initial count plus the sum of all
/// increments minus the number of successful decrements.
pub proof fn lemma_counter_conservation(init: nat, ops: Seq<SemEvent>)
    requires
        admissible(init, ops),
    ensures
        count_after(init, ops) == init + total_up(ops) - total_down(ops),
        count_after(init, ops) >= 0,
    decreases ops.len(),
{
    if ops.len() > 0 {
        lemma_counter_conservation(init, ops.drop_last());
    }
}

} // verus!
