//! The decisions of the exact subset solver at one subproblem: a set of
//! active players and the index of the next payout place to hand out.

use vstd::prelude::*;
use crate::players::{active_players, active_seq, mask_without, stack_total, without_player};

verus! {

/// One subproblem of the exact solver.
pub enum Subproblem {
    /// Nothing is left to hand out to these `players` players: every one of
    /// them gets zero.
    Settled { players: usize },
    /// Each of `seats` may take the next place, with probability its stack
    /// over `total`.
    Open { seats: Vec<usize>, total: i64 },
}

/// A subproblem is settled when no place is left, no player is left, or the
/// players left hold no chips between them.
pub open spec fn is_settled(stacks: Seq<i32>, mask: u64, payout_index: nat, num_payouts: nat) -> bool {
    let seats = active_seq(mask, stacks.len());
    payout_index >= num_payouts || seats.len() == 0 || stack_total(stacks, seats) == 0
}

/// Sorts out the subproblem of the players in `mask` and the place
/// `payout_index`: settled, or open over the active seats in ascending order.
pub fn open_subproblem(stacks: &Vec<i32>, mask: u64, payout_index: usize, num_payouts: usize) -> (r:
    Subproblem)
    requires
        stacks.len() <= 64,
    ensures
        (r is Settled) == is_settled(stacks@, mask, payout_index as nat, num_payouts as nat),
        r matches Subproblem::Settled { players } ==> players == active_seq(
            mask,
            stacks.len() as nat,
        ).len(),
        r matches Subproblem::Open { seats, total } ==> seats@ == active_seq(
            mask,
            stacks.len() as nat,
        ) && total == stack_total(stacks@, seats@),
{
    let (seats, total) = active_players(stacks, mask);
    if payout_index >= num_payouts || seats.len() == 0 || total == 0 {
        Subproblem::Settled { players: seats.len() }
    } else {
        Subproblem::Open { seats, total }
    }
}

/// The subproblem that follows when `winner` takes place `payout_index`: the
/// other players and the next place, if a place and a player are left.
pub fn next_subproblem(mask: u64, winner: usize, payout_index: usize, num_payouts: usize) -> (r:
    Option<u64>)
    requires
        winner < 64,
    ensures
        r is Some <==> (mask_without(mask, winner as u64) != 0 && payout_index + 1 < num_payouts),
        r matches Some(next) ==> next == mask_without(mask, winner as u64),
{
    let next = without_player(mask, winner);
    if next != 0 && payout_index < num_payouts && payout_index + 1 < num_payouts {
        Some(next)
    } else {
        None
    }
}

} // verus!
