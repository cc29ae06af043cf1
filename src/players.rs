//! Sets of active players, held as a 64-bit mask: bit `i` is set when player
//! `i` may still take one of the remaining payout places.

use vstd::prelude::*;

verus! {

/// Whether seat `seat` is set in `mask`.
pub open spec fn has_player(mask: u64, seat: u64) -> bool {
    (mask >> seat) & 1u64 == 1u64
}

/// The mask with seat `seat` cleared.
pub open spec fn mask_without(mask: u64, seat: u64) -> u64 {
    mask & !(1u64 << seat)
}

/// The seats below `n` that `mask` holds, in ascending order.
pub open spec fn active_seq(mask: u64, n: nat) -> Seq<usize>
    decreases n,
{
    if n == 0 {
        Seq::empty()
    } else {
        let prev = active_seq(mask, (n - 1) as nat);
        if n - 1 < 64 && has_player(mask, (n - 1) as u64) {
            prev.push((n - 1) as usize)
        } else {
            prev
        }
    }
}

/// The sum of the stacks of the given seats.
pub open spec fn stack_total(stacks: Seq<i32>, seats: Seq<usize>) -> int
    decreases seats.len(),
{
    if seats.len() == 0 {
        0
    } else {
        stack_total(stacks, seats.drop_last()) + stacks[seats.last() as int]
    }
}

/// The mask that holds seats `0..num_players` and nothing else.
pub fn full_mask(num_players: usize) -> (mask: u64)
    requires
        1 <= num_players <= 64,
    ensures
        forall|seat: u64| seat < 64 ==> (has_player(mask, seat) <==> seat < num_players),
{
    let shift: u64 = 64 - num_players as u64;
    let mask = u64::MAX >> shift;
    assert(forall|seat: u64|
        seat < 64 ==> (#[trigger] has_player(u64::MAX >> shift, seat) <==> seat < 64 - shift))
        by (bit_vector)
        requires
            shift < 64,
    ;
    mask
}

/// Removes `seat` from `mask`, leaving every other seat as it was.
pub fn without_player(mask: u64, seat: usize) -> (r: u64)
    requires
        seat < 64,
    ensures
        r == mask_without(mask, seat as u64),
        forall|other: u64|
            other < 64 ==> (has_player(r, other) <==> (has_player(mask, other) && other != seat)),
{
    let s = seat as u64;
    let r = mask & !(1u64 << s);
    assert(forall|other: u64|
        other < 64 ==> (#[trigger] has_player(mask & !(1u64 << s), other) <==> (has_player(
            mask,
            other,
        ) && other != s))) by (bit_vector)
        requires
            s < 64,
    ;
    r
}

/// The seats below `stacks.len()` that `mask` holds, in ascending order,
/// together with the sum of their stacks.
pub fn active_players(stacks: &Vec<i32>, mask: u64) -> (r: (Vec<usize>, i64))
    requires
        stacks.len() <= 64,
    ensures
        r.0@ == active_seq(mask, stacks.len() as nat),
        r.1 == stack_total(stacks@, r.0@),
{
    let mut seats: Vec<usize> = Vec::new();
    let mut total: i64 = 0;
    let mut i: usize = 0;
    while i < stacks.len()
        invariant
            i <= stacks.len() <= 64,
            seats@ == active_seq(mask, i as nat),
            total == stack_total(stacks@, seats@),
            seats.len() <= i,
            -(seats.len() as int) * 0x8000_0000 <= total <= (seats.len() as int) * 0x8000_0000,
        decreases stacks.len() - i,
    {
        let prev = Ghost(seats@);
        if (mask >> i as u64) & 1u64 == 1u64 {
            seats.push(i);
            total = total + stacks[i] as i64;
            assert(seats@.drop_last() =~= prev@);
        }
        i += 1;
    }
    (seats, total)
}

/// Where the entry at `position` of a vector over the active players lands
/// in the vector over those that remain once the player at `winner` is
/// removed.
pub open spec fn child_position_spec(winner: int, position: int) -> int {
    if position < winner {
        position
    } else {
        position - 1
    }
}

/// Where the entry at `position` lands once the entry at `winner` is
/// removed from a vector over the active players.
pub fn child_position(winner: usize, position: usize) -> (r: usize)
    requires
        position != winner,
    ensures
        r == child_position_spec(winner as int, position as int),
{
    if position < winner {
        position
    } else {
        position - 1
    }
}

/// The seats of `active_seq(mask, n)` are below `n`, held by `mask`, and
/// strictly ascending.
pub proof fn lemma_active_seq_sorted(mask: u64, n: nat)
    requires
        n <= 64,
    ensures
        forall|k: int|
            0 <= k < active_seq(mask, n).len() ==> #[trigger] active_seq(mask, n)[k] < n
                && has_player(mask, active_seq(mask, n)[k] as u64),
        forall|j: int, k: int|
            0 <= j < k < active_seq(mask, n).len() ==> active_seq(mask, n)[j] < active_seq(
                mask,
                n,
            )[k],
    decreases n,
{
    if n > 0 {
        let m = (n - 1) as nat;
        lemma_active_seq_sorted(mask, m);
        let prev = active_seq(mask, m);
        let cur = active_seq(mask, n);
        assert forall|k: int| 0 <= k < cur.len() implies #[trigger] cur[k] < n && has_player(
            mask,
            cur[k] as u64,
        ) by {
            if k < prev.len() {
                assert(cur[k] == prev[k]);
            }
        }
        assert forall|j: int, k: int| 0 <= j < k < cur.len() implies cur[j] < cur[k] by {
            assert(cur[j] == prev[j]);
            if k < prev.len() {
                assert(cur[k] == prev[k]);
            }
        }
    }
}

/// Removing the player at `position` of the active seats leaves exactly the
/// other seats, in the same ascending order; the entry at any other position
/// `j` then stands at `child_position_spec(position, j)`.
pub proof fn lemma_remaining_players(mask: u64, n: nat, position: int)
    requires
        n <= 64,
        0 <= position < active_seq(mask, n).len(),
    ensures
        active_seq(mask_without(mask, active_seq(mask, n)[position] as u64), n) == active_seq(
            mask,
            n,
        ).remove(position),
        forall|j: int|
            0 <= j < active_seq(mask, n).len() && j != position ==> active_seq(
                mask_without(mask, active_seq(mask, n)[position] as u64),
                n,
            )[child_position_spec(position, j)] == active_seq(mask, n)[j],
{
    lemma_active_seq_sorted(mask, n);
    let seat = active_seq(mask, n)[position] as u64;
    lemma_without_seat(mask, seat, n);
}

proof fn lemma_without_seat(mask: u64, seat: u64, n: nat)
    requires
        n <= 64,
        seat < 64,
    ensures
        seat >= n ==> active_seq(mask_without(mask, seat), n) == active_seq(mask, n),
        forall|position: int|
            0 <= position < active_seq(mask, n).len() && active_seq(mask, n)[position] == seat
                ==> active_seq(mask_without(mask, seat), n) == active_seq(mask, n).remove(
                position,
            ),
    decreases n,
{
    if n > 0 {
        let m = (n - 1) as nat;
        let t = m as u64;
        lemma_without_seat(mask, seat, m);
        lemma_active_seq_sorted(mask, m);
        let rest = mask_without(mask, seat);
        assert(has_player(rest, t) <==> (has_player(mask, t) && t != seat)) by (bit_vector)
            requires
                rest == mask & !(1u64 << seat),
                seat < 64,
                t < 64,
        ;
        let before = active_seq(mask, m);
        assert forall|position: int|
            0 <= position < active_seq(mask, n).len() && active_seq(mask, n)[position]
                == seat implies active_seq(rest, n) == active_seq(mask, n).remove(position) by {
            if t == seat {
                assert(position == before.len());
                assert(before.push(seat as usize).remove(position) =~= before);
            } else {
                assert(position < before.len());
                if has_player(mask, t) {
                    assert(before.remove(position).push(t as usize) =~= before.push(
                        t as usize,
                    ).remove(position));
                }
            }
        }
    }
}

} // verus!
