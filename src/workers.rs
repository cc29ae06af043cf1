//! How the estimator's rounds are shared among the worker threads.

use vstd::prelude::*;

verus! {

/// The number of rounds per player that the estimator simulates.
pub const ESTIMATE_ROUNDS: usize = 80000;

/// Relies on rayon::current_num_threads: the size of the current thread
/// pool, which rayon never builds with fewer than one thread.
#[verifier::external_body]
fn pool_size() -> (r: usize)
    ensures
        r >= 1,
{
    rayon::current_num_threads()
}

/// The estimator's work: `workers` tasks of `rounds_per_worker` rounds each.
pub struct WorkSplit {
    pub workers: usize,
    pub rounds_per_worker: usize,
}

/// Shares `rounds * players` simulated tournaments among `workers` tasks,
/// each taking an equal share, rounded up by one.
pub fn split_work(rounds: usize, players: usize, workers: usize) -> (s: WorkSplit)
    requires
        workers >= 1,
        rounds * players < usize::MAX,
    ensures
        s.workers == workers,
        s.rounds_per_worker == (rounds * players) / (workers as int) + 1,
{
    let total = rounds * players;
    assert(total / workers <= total) by (nonlinear_arith)
        requires
            workers >= 1,
            total >= 0,
    ;
    WorkSplit { workers, rounds_per_worker: total / workers + 1 }
}

/// Shares `rounds * players` simulated tournaments among the threads of the
/// current pool.
pub fn plan_work(rounds: usize, players: usize) -> (s: WorkSplit)
    requires
        rounds * players < usize::MAX,
    ensures
        s.workers >= 1,
        s.rounds_per_worker == (rounds * players) / (s.workers as int) + 1,
{
    split_work(rounds, players, pool_size())
}

} // verus!
