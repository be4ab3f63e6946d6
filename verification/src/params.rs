//! Run-size and seed rules of the simulator.

use vstd::prelude::*;

verus! {

/// Default Monte-Carlo draw count for one match.
pub const DEFAULT_SIMS: usize = 50_000;

/// Fewest draws a match simulation runs.
pub const MIN_SIMS: usize = 1_000;

/// Most draws a match simulation runs.
pub const MAX_SIMS: usize = 500_000;

/// Draws used to estimate each pairwise knockout probability of a tournament.
pub const PAIRWISE_SIMS: usize = 4_000;

/// Seed of a match simulation that is given none.
pub const DEFAULT_MATCH_SEED: u64 = 0x60A1_D16E_2026_0609;

/// Mixed into a tournament seed to seed the bracket rollouts.
pub const BRACKET_SEED_MIX: u64 = 0xC0FFEE;

/// Most goals per side that the scoreline grid holds.
pub const MAX_GOALS: usize = 10;

/// `x` brought into `lo..=hi`.
pub open spec fn clamp(x: int, lo: int, hi: int) -> int {
    if x < lo {
        lo
    } else if x > hi {
        hi
    } else {
        x
    }
}

/// `clamp` keeps a value already in range and otherwise gives the nearer
/// bound; its result always lies in `lo..=hi`.
pub proof fn lemma_clamp(x: int, lo: int, hi: int)
    requires
        lo <= hi,
    ensures
        lo <= x <= hi ==> clamp(x, lo, hi) == x,
        x < lo ==> clamp(x, lo, hi) == lo,
        x > hi ==> clamp(x, lo, hi) == hi,
        lo <= clamp(x, lo, hi) <= hi,
{
}

/// Number of Monte-Carlo draws for a match: the requested count, or
/// `DEFAULT_SIMS` when none is requested, brought into `MIN_SIMS..=MAX_SIMS`.
pub fn simulation_count(requested: Option<usize>) -> (n: usize)
    ensures
        n == clamp(
            match requested {
                Some(k) => k as int,
                None => DEFAULT_SIMS as int,
            },
            MIN_SIMS as int,
            MAX_SIMS as int,
        ),
        (requested is None) ==> n == DEFAULT_SIMS,
        (requested is Some) && MIN_SIMS <= requested.unwrap() <= MAX_SIMS ==> n == requested.unwrap(),
        (requested is Some) && requested.unwrap() < MIN_SIMS ==> n == MIN_SIMS,
        (requested is Some) && requested.unwrap() > MAX_SIMS ==> n == MAX_SIMS,
        MIN_SIMS <= n <= MAX_SIMS,
        1_000 <= n <= 500_000,
        (requested is None) ==> n == 50_000,
{
    let k: usize = match requested {
        Some(k) => k,
        None => DEFAULT_SIMS,
    };
    if k < MIN_SIMS {
        MIN_SIMS
    } else if k > MAX_SIMS {
        MAX_SIMS
    } else {
        k
    }
}

/// Seed of a match simulation: the given seed, or `DEFAULT_MATCH_SEED`.
pub fn match_seed(seed: Option<u64>) -> (s: u64)
    ensures
        s == match seed {
            Some(v) => v,
            None => DEFAULT_MATCH_SEED,
        },
        (seed is None) ==> s == 0x60A1_D16E_2026_0609u64,
{
    match seed {
        Some(v) => v,
        None => DEFAULT_MATCH_SEED,
    }
}

/// Seed of the pairwise simulation of team `home` against team `away`
/// within a tournament seeded with `seed`.
pub fn pairing_seed(seed: u64, home: usize, away: usize) -> (s: u64)
    ensures
        s == seed ^ ((home as u64) << 20u64) ^ (away as u64),
{
    seed ^ ((home as u64) << 20u64) ^ (away as u64)
}

/// Seed of the bracket rollouts of a tournament seeded with `seed`.
pub fn bracket_seed(seed: u64) -> (s: u64)
    ensures
        s == seed ^ BRACKET_SEED_MIX,
        s == seed ^ 0xC0FFEEu64,
{
    seed ^ BRACKET_SEED_MIX
}

} // verus!
