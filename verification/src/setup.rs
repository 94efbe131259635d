//! How the engines are set up.

use crate::inflight::Config;
use crate::shards::{deal_slots, is_share, share_count, RunConfig};
use vstd::prelude::*;

verus! {

/// The larger of two numbers.
pub open spec fn at_least(n: int, low: int) -> int {
    if n > low {
        n
    } else {
        low
    }
}

/// Raises a number to a lower bound.
pub fn raise(n: usize, low: usize) -> (r: usize)
    ensures
        r == at_least(n as int, low as int),
{
    if n > low {
        n
    } else {
        low
    }
}

/// Workers that pass games around through a common queue.
#[derive(Clone, Copy, PartialEq, Eq, Structural, Debug)]
pub struct PipelineEngine {
    pub sims: usize,
    pub seed: u64,
    pub add_root_noise: bool,
    pub n_threads: usize,
    pub bucket_size: usize,
}

impl PipelineEngine {
    /// Sets the engine up, with at least one worker and one position per batch.
    pub fn new(
        sims: usize,
        seed: u64,
        add_root_noise: bool,
        n_threads: usize,
        bucket_size: usize,
    ) -> (e: Self)
        ensures
            e == (PipelineEngine {
                sims,
                seed,
                add_root_noise,
                n_threads: at_least(n_threads as int, 1) as usize,
                bucket_size: at_least(bucket_size as int, 1) as usize,
            }),
            e.n_threads > 0,
            e.bucket_size > 0,
    {
        PipelineEngine {
            sims,
            seed,
            add_root_noise,
            n_threads: raise(n_threads, 1),
            bucket_size: raise(bucket_size, 1),
        }
    }

    /// How its games are set up.
    pub fn config(&self) -> (c: Config)
        ensures
            c == (Config {
                sims: self.sims,
                add_root_noise: self.add_root_noise,
                bucket_size: at_least(self.bucket_size as int, 1) as usize,
                seed: self.seed,
            }),
    {
        Config {
            sims: self.sims,
            add_root_noise: self.add_root_noise,
            bucket_size: raise(self.bucket_size, 1),
            seed: self.seed,
        }
    }
}

/// Workers that each play a share of the games, with one consumer for all evaluations.
#[derive(Clone, Copy, PartialEq, Eq, Structural, Debug)]
pub struct AsyncMctsEngine {
    pub n_games: usize,
    pub sims: usize,
    pub seed: u64,
    pub add_root_noise: bool,
    pub n_threads: usize,
    pub max_batch: usize,
}

impl AsyncMctsEngine {
    /// Sets the engine up, with at least one worker and one position per batch.
    pub fn new(
        n_games: usize,
        sims: usize,
        seed: u64,
        add_root_noise: bool,
        n_threads: usize,
        max_batch: usize,
    ) -> (e: Self)
        ensures
            e == (AsyncMctsEngine {
                n_games,
                sims,
                seed,
                add_root_noise,
                n_threads: at_least(n_threads as int, 1) as usize,
                max_batch: at_least(max_batch as int, 1) as usize,
            }),
            e.n_threads > 0,
            e.max_batch > 0,
    {
        AsyncMctsEngine {
            n_games,
            sims,
            seed,
            add_root_noise,
            n_threads: raise(n_threads, 1),
            max_batch: raise(max_batch, 1),
        }
    }

    /// How a run is set up.
    pub fn config(&self, refill: bool) -> (c: RunConfig)
        ensures
            c == (RunConfig {
                sims: self.sims,
                add_root_noise: self.add_root_noise,
                refill,
                master_seed: self.seed,
                max_batch: self.max_batch,
            }),
    {
        RunConfig {
            sims: self.sims,
            add_root_noise: self.add_root_noise,
            refill,
            master_seed: self.seed,
            max_batch: self.max_batch,
        }
    }

    /// Which games each worker plays.
    pub fn shares(&self) -> (shares: Vec<Vec<usize>>)
        requires
            self.n_games * share_count(self.n_threads as int, self.n_games as int) <= usize::MAX,
        ensures
            self.n_games == 0 ==> shares@.len() == 0,
            self.n_games > 0 ==> shares@.len() == share_count(
                self.n_threads as int,
                self.n_games as int,
            ),
            forall|k: int|
                0 <= k < shares@.len() ==> is_share(
                    (#[trigger] shares@[k])@,
                    k,
                    shares@.len() as int,
                    self.n_games as int,
                    self.n_games as int,
                ) && shares@[k]@.len() > 0,
    {
        deal_slots(self.n_games, self.n_threads)
    }
}

/// A raised number is the larger of the two: not below either of them, and one of them.
pub proof fn raising_takes_the_larger(n: int, low: int)
    ensures
        at_least(n, low) >= n,
        at_least(n, low) >= low,
        at_least(n, low) == n || at_least(n, low) == low,
{
}

} // verus!
