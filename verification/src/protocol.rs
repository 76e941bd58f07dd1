//! The pure parts of the ping-pong benchmark protocol: the worker loop
//! that oscillates control through two semaphores, the enumeration of the
//! core pairs to measure, and the averaging of a measurement.
//!
//! The orchestration that cannot be pure — spawning the two pinned worker
//! threads, sleeping through the observation window, timing — lives with
//! the program around this library, which drives these functions.

use vstd::prelude::*;
use crate::semaphore::Semaphore;
use core::sync::atomic::AtomicBool;
use core::sync::atomic::Ordering;

verus! {

/// How long one pair is measured, in nanoseconds.
pub const OBSERVATION_WINDOW_NANOS: u64 = 5_000_000_000;

/// The settling delay between consecutive pairs, in nanoseconds.
pub const SETTLING_INTERVAL_NANOS: u64 = 1_000_000_000;

/// The surplus of units injected into both semaphores once cancellation is
/// requested, so that a worker spinning inside `down` acquires a unit,
/// re-reads the flag at the top of its loop and exits. Without it a worker
/// parked on an empty semaphore would spin forever and shutdown would
/// deadlock.
pub const SHUTDOWN_SURPLUS: usize = 100_000;

/// One worker's half of the ping-pong loop: while the cancellation flag is
/// unset, take one unit from `down`, count one round trip, and hand one
/// unit to `up`. Returns the number of round trips completed.
///
/// The returned count depends on scheduling and on the partner thread, so
/// nothing more can be promised of it; the loop itself is bounded the same
/// way `Semaphore::down` is, by a number of rounds no real execution
/// reaches, and the counter saturates rather than wrap.
pub fn run_sync(down: &Semaphore, up: &Semaphore, cancel: &AtomicBool) -> (count: usize) {
    let mut count: usize = 0;
    let mut rounds_left: usize = usize::MAX;
    while rounds_left > 0
        decreases rounds_left,
    {
        rounds_left = rounds_left - 1;
        if cancel.load(Ordering::Relaxed) {
            break ;
        }
        match down.down() {
            Some(_) => {
                if count < usize::MAX {
                    count = count + 1;
                }
                up.up();
            },
            None => {},
        }
    }
    count
}

/// The ordered pairs (s[i], s[j]) with i < j, in the order the benchmark
/// runs them: all pairs with the first element first, then the pairs of
/// the rest.
pub open spec fn spec_pairs(s: Seq<usize>) -> Seq<(usize, usize)>
    decreases s.len(),
{
    if s.len() == 0 {
        Seq::empty()
    } else {
        s.drop_first().map_values(|x: usize| (s[0], x)) + spec_pairs(s.drop_first())
    }
}

/// Law: a list of n cores yields n * (n - 1) / 2 pairs — 2 cores yield one
/// pair, 4 cores yield six.
pub proof fn lemma_spec_pairs_len(s: Seq<usize>)
    ensures
        spec_pairs(s).len() * 2 == s.len() * (s.len() - 1),
    decreases s.len(),
{
    if s.len() > 0 {
        lemma_spec_pairs_len(s.drop_first());
        assert((s.len() - 1 + spec_pairs(s.drop_first()).len()) * 2 == s.len() * (s.len()
            - 1)) by (nonlinear_arith)
            requires
                spec_pairs(s.drop_first()).len() * 2 == (s.len() - 1) * (s.len() - 2),
                s.len() >= 1,
        ;
    }
}

proof fn lemma_spec_pairs_index(s: Seq<usize>, i: int, j: int) -> (k: int)
    requires
        0 <= i < j < s.len(),
    ensures
        0 <= k < spec_pairs(s).len(),
        spec_pairs(s)[k] == (s[i], s[j]),
    decreases s.len(),
{
    let rest = s.drop_first();
    let block = rest.map_values(|x: usize| (s[0], x));
    if i == 0 {
        assert(block[j - 1] == (s[0], rest[j - 1]));
        assert(rest[j - 1] == s[j]);
        assert(spec_pairs(s)[j - 1] == block[j - 1]);
        j - 1
    } else {
        let k0 = lemma_spec_pairs_index(rest, i - 1, j - 1);
        assert(rest[i - 1] == s[i] && rest[j - 1] == s[j]);
        assert(spec_pairs(s)[block.len() + k0] == spec_pairs(rest)[k0]);
        block.len() + k0
    }
}

/// Law: every combination s[i], s[j] with i < j stands among the pairs.
pub proof fn lemma_spec_pairs_complete(s: Seq<usize>, i: int, j: int)
    requires
        0 <= i < j < s.len(),
    ensures
        spec_pairs(s).contains((s[i], s[j])),
{
    let k = lemma_spec_pairs_index(s, i, j);
    assert(spec_pairs(s)[k] == (s[i], s[j]));
}

/// Law: every pair is some combination s[i], s[j] with i < j; together
/// with the count and completeness above, the pairs are exactly the i < j
/// combinations.
pub proof fn lemma_spec_pairs_sound(s: Seq<usize>, k: int)
    requires
        0 <= k < spec_pairs(s).len(),
    ensures
        exists|i: int, j: int| 0 <= i < j < s.len() && spec_pairs(s)[k] == (s[i], s[j]),
    decreases s.len(),
{
    let rest = s.drop_first();
    let block = rest.map_values(|x: usize| (s[0], x));
    if k < block.len() {
        assert(spec_pairs(s)[k] == block[k]);
        assert(block[k] == (s[0], s[k + 1]));
        assert(0 <= 0 < k + 1 < s.len() && spec_pairs(s)[k] == (s[0], s[k + 1]));
    } else {
        lemma_spec_pairs_sound(rest, k - block.len());
        let (i2, j2): (int, int) = choose|i2: int, j2: int|
            0 <= i2 < j2 < rest.len() && spec_pairs(rest)[k - block.len()] == (rest[i2], rest[j2]);
        assert(spec_pairs(s)[k] == spec_pairs(rest)[k - block.len()]);
        assert(0 <= i2 + 1 < j2 + 1 < s.len() && spec_pairs(s)[k] == (s[i2 + 1], s[j2 + 1]));
    }
}

/// All unordered pairs of distinct entries of `cores`, as ordered pairs
/// (cores[i], cores[j]) with i < j, in the order the benchmark visits
/// them: one benchmark run per pair.
pub fn all_pairs(cores: &Vec<usize>) -> (pairs: Vec<(usize, usize)>)
    ensures
        pairs@ == spec_pairs(cores@),
        pairs@.len() * 2 == cores@.len() * (cores@.len() - 1),
{
    let n = cores.len();
    let mut pairs: Vec<(usize, usize)> = Vec::new();
    let mut i: usize = 0;
    proof {
        assert(cores@.skip(0) =~= cores@);
        assert(Seq::<(usize, usize)>::empty() + spec_pairs(cores@) =~= spec_pairs(cores@));
    }
    while i < n
        invariant
            0 <= i <= n,
            n == cores@.len(),
            spec_pairs(cores@) == pairs@ + spec_pairs(cores@.skip(i as int)),
        decreases n - i,
    {
        let ghost base = pairs@;
        let mut j: usize = i + 1;
        while j < n
            invariant
                i < n,
                i + 1 <= j <= n,
                n == cores@.len(),
                pairs@.len() == base.len() + j - i - 1,
                forall|k: int| 0 <= k < base.len() ==> pairs@[k] == base[k],
                forall|k: int|
                    base.len() <= k < pairs@.len() ==> pairs@[k] == (
                        cores@[i as int],
                        cores@[k - base.len() + i + 1],
                    ),
            decreases n - j,
        {
            pairs.push((cores[i], cores[j]));
            j = j + 1;
        }
        proof {
            let tail = cores@.skip(i as int);
            assert(tail.drop_first() =~= cores@.skip(i + 1));
            assert(tail[0] == cores@[i as int]);
            let block = tail.drop_first().map_values(|x: usize| (tail[0], x));
            assert(pairs@ =~= base + block);
            assert(spec_pairs(tail) == block + spec_pairs(cores@.skip(i + 1)));
            assert(base + (block + spec_pairs(cores@.skip(i + 1))) =~= (base + block)
                + spec_pairs(cores@.skip(i + 1)));
        }
        i = i + 1;
    }
    proof {
        assert(cores@.skip(n as int) =~= Seq::<usize>::empty());
        assert(pairs@ + Seq::<(usize, usize)>::empty() =~= pairs@);
        lemma_spec_pairs_len(cores@);
    }
    pairs
}

/// The outcome of one pair's measurement: how many round trips the
/// measured worker completed, and how long the measured stretch took.
#[derive(Clone, Copy, Debug, PartialEq, Eq, Structural)]
pub struct BenchmarkResult {
    pub round_trips: usize,
    pub elapsed_nanos: u64,
}

impl BenchmarkResult {
    /// The average round-trip latency in nanoseconds: elapsed time over
    /// round trips. `None` when no round trip completed, which would
    /// leave the average undefined.
    pub fn average_latency_nanos(&self) -> (r: Option<u64>)
        ensures
            self.round_trips == 0 ==> r is None,
            self.round_trips > 0 ==> r == Some(
                self.elapsed_nanos / (self.round_trips as u64),
            ),
    {
        if self.round_trips == 0 {
            None
        } else {
            Some(self.elapsed_nanos / (self.round_trips as u64))
        }
    }
}

} // verus!
