//! How a query is answered, and the canonical form under which its result
//! is cached.

use vstd::prelude::*;
use crate::players::has_player;
use crate::players::full_mask;

verus! {

/// The most payout places that the exact solver takes on.
pub const MAX_EXACT_PAYOUTS: usize = 16;

/// The most players that the exact solver takes on: one per bit of the
/// active-player mask.
pub const MAX_EXACT_PLAYERS: usize = 64;

/// How the equities of a query are found.
pub enum Strategy {
    /// Nothing is paid: every equity is zero.
    NoPayouts,
    /// The exact subset solver, started from `mask`, which holds every player.
    Exact { mask: u64 },
    /// The Monte Carlo estimator.
    Estimate,
}

/// The strategy for a query over `num_players` players and `num_payouts`
/// paid places.
pub open spec fn is_strategy_for(s: Strategy, num_payouts: nat, num_players: nat) -> bool {
    if num_payouts == 0 {
        s is NoPayouts
    } else if num_payouts > MAX_EXACT_PAYOUTS || num_players > MAX_EXACT_PLAYERS {
        s is Estimate
    } else {
        s matches Strategy::Exact { mask } && forall|seat: u64|
            seat < 64 ==> (#[trigger] has_player(mask, seat) <==> seat < num_players)
    }
}

/// Picks the strategy for a query: none without payouts, the estimator past
/// `MAX_EXACT_PAYOUTS` places or `MAX_EXACT_PLAYERS` players, and the exact
/// solver over all the players otherwise.
pub fn select_strategy(num_payouts: usize, num_players: usize) -> (s: Strategy)
    ensures
        is_strategy_for(s, num_payouts as nat, num_players as nat),
{
    if num_payouts == 0 {
        Strategy::NoPayouts
    } else if num_payouts > MAX_EXACT_PAYOUTS || num_players > MAX_EXACT_PLAYERS {
        Strategy::Estimate
    } else if num_players == 0 {
        let mask: u64 = 0;
        assert(forall|seat: u64| seat < 64 ==> !#[trigger] has_player(0u64, seat))
            by (bit_vector);
        Strategy::Exact { mask }
    } else {
        Strategy::Exact { mask: full_mask(num_players) }
    }
}

/// The cache key of a query: the smaller of the two stacks.
pub open spec fn cache_key_spec(stack_a: i32, stack_b: i32) -> i32 {
    if stack_a <= stack_b {
        stack_a
    } else {
        stack_b
    }
}

/// The cache key of a query: the smaller of the two stacks.
pub fn cache_key(stack_a: i32, stack_b: i32) -> (k: i32)
    ensures
        k == cache_key_spec(stack_a, stack_b),
{
    if stack_a <= stack_b {
        stack_a
    } else {
        stack_b
    }
}

/// Swaps a pair when player A holds the deeper stack: this takes the
/// equities of A and B to those of the short and the deep stack, and back.
pub open spec fn orient_spec<V>(stack_a: i32, stack_b: i32, pair: (V, V)) -> (V, V) {
    if stack_a <= stack_b {
        pair
    } else {
        (pair.1, pair.0)
    }
}

/// Swaps `(first, second)` when player A holds the deeper stack. Applied to
/// the equities of A and B it gives those of the short and the deep stack
/// (ties count A as the short stack); applied to those it gives back A and B.
pub fn orient<V>(stack_a: i32, stack_b: i32, first: V, second: V) -> (r: (V, V))
    ensures
        r == orient_spec(stack_a, stack_b, (first, second)),
{
    if stack_a <= stack_b {
        (first, second)
    } else {
        (second, first)
    }
}

/// A pair stored in canonical form for a query comes back unchanged when the
/// same query reads it: repeated queries return the same equities.
pub proof fn lemma_cached_pair_round_trip<V>(stack_a: i32, stack_b: i32, pair: (V, V))
    ensures
        orient_spec(stack_a, stack_b, orient_spec(stack_a, stack_b, pair)) == pair,
{
}

/// Swapping the two stacks of a query with distinct stacks reads the same
/// cache entry and returns the two equities swapped.
pub proof fn lemma_swapped_query<V>(stack_a: i32, stack_b: i32, pair: (V, V))
    requires
        stack_a != stack_b,
    ensures
        cache_key_spec(stack_b, stack_a) == cache_key_spec(stack_a, stack_b),
        orient_spec(stack_b, stack_a, orient_spec(stack_a, stack_b, pair)) == (pair.1, pair.0),
{
}

} // verus!
