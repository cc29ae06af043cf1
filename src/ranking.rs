//! The finishing order of one simulated tournament: the players who take the
//! paid places, best first, ranked by the value each one drew.

use vstd::prelude::*;

verus! {

/// Player `i` finishes ahead of player `j`: a larger draw, or an equal draw
/// and a lower seat.
pub open spec fn finishes_ahead(keys: Seq<u32>, i: int, j: int) -> bool {
    keys[i] > keys[j] || (keys[i] == keys[j] && i < j)
}

/// A player with no chips never finishes in a paid place.
pub open spec fn contends(stacks: Seq<i32>, i: int) -> bool {
    stacks[i] > 0
}

/// `order` lists contending seats, each one ahead of the next.
pub open spec fn well_ordered(keys: Seq<u32>, stacks: Seq<i32>, order: Seq<usize>) -> bool {
    &&& forall|k: int|
        0 <= k < order.len() ==> #[trigger] order[k] < keys.len() && contends(
            stacks,
            order[k] as int,
        )
    &&& forall|j: int, k: int|
        0 <= j < k < order.len() ==> finishes_ahead(keys, order[j] as int, order[k] as int)
}

/// `order` holds the best `places` contenders among the first `n` seats:
/// every contender it leaves out finishes behind all of them, and then all
/// the places are taken.
pub open spec fn is_top_order(
    keys: Seq<u32>,
    stacks: Seq<i32>,
    places: nat,
    n: int,
    order: Seq<usize>,
) -> bool {
    &&& well_ordered(keys, stacks, order)
    &&& order.len() <= places
    &&& forall|k: int| 0 <= k < order.len() ==> #[trigger] order[k] < n
    &&& forall|i: int|
        0 <= i < n && contends(stacks, i) && !order.contains(i as usize) ==> order.len() == places
            && forall|k: int|
            0 <= k < order.len() ==> finishes_ahead(keys, #[trigger] order[k] as int, i)
}

/// The draws decide the finishing order: two orders that both hold the best
/// `places` contenders, best first, are the same.
pub proof fn lemma_top_order_unique(
    keys: Seq<u32>,
    stacks: Seq<i32>,
    places: nat,
    n: int,
    first: Seq<usize>,
    second: Seq<usize>,
)
    requires
        is_top_order(keys, stacks, places, n, first),
        is_top_order(keys, stacks, places, n, second),
    ensures
        first == second,
{
    let short = if first.len() <= second.len() {
        first.len() as int
    } else {
        second.len() as int
    };
    lemma_prefix_agrees(keys, stacks, places, n, first, second, short);
    if first.len() != second.len() {
        let (a, b) = if first.len() < second.len() {
            (first, second)
        } else {
            (second, first)
        };
        let extra = b[a.len() as int];
        if a.contains(extra) {
            let w = choose|w: int| 0 <= w < a.len() && a[w] == extra;
            assert(b[w] == extra);
            assert(finishes_ahead(keys, b[w] as int, b[a.len() as int] as int));
        }
    }
    assert(first =~= second);
}

proof fn lemma_prefix_agrees(
    keys: Seq<u32>,
    stacks: Seq<i32>,
    places: nat,
    n: int,
    first: Seq<usize>,
    second: Seq<usize>,
    k: int,
)
    requires
        is_top_order(keys, stacks, places, n, first),
        is_top_order(keys, stacks, places, n, second),
        0 <= k <= first.len(),
        k <= second.len(),
    ensures
        forall|j: int| 0 <= j < k ==> first[j] == second[j],
    decreases k,
{
    if k > 0 {
        lemma_prefix_agrees(keys, stacks, places, n, first, second, k - 1);
        lemma_ahead_of_unlisted(keys, stacks, places, n, first, second, k - 1);
        lemma_ahead_of_unlisted(keys, stacks, places, n, second, first, k - 1);
    }
}

/// Where two such orders agree before position `k`, the entry of `mine` at
/// `k` finishes ahead of that of `other`, unless the two are the same.
proof fn lemma_ahead_of_unlisted(
    keys: Seq<u32>,
    stacks: Seq<i32>,
    places: nat,
    n: int,
    mine: Seq<usize>,
    other: Seq<usize>,
    k: int,
)
    requires
        is_top_order(keys, stacks, places, n, mine),
        is_top_order(keys, stacks, places, n, other),
        0 <= k < mine.len(),
        k < other.len(),
        forall|j: int| 0 <= j < k ==> mine[j] == other[j],
    ensures
        mine[k] == other[k] || finishes_ahead(keys, mine[k] as int, other[k] as int),
{
    let b = other[k];
    if mine[k] != b {
        if mine.contains(b) {
            let w = choose|w: int| 0 <= w < mine.len() && mine[w] == b;
            if w < k {
                assert(other[w] == b);
                assert(finishes_ahead(keys, other[w] as int, other[k] as int));
            } else {
                assert(w > k);
                assert(finishes_ahead(keys, mine[k] as int, mine[w] as int));
            }
        } else {
            assert(b < n);
            assert(contends(stacks, b as int));
            assert(finishes_ahead(keys, mine[k] as int, b as int));
        }
    }
}

/// The players who take the first `places` places, best first. Player `i`
/// drew `keys[i]`; a larger draw finishes ahead, equal draws go by seat, and
/// players with no chips take no place.
pub fn finishing_order(keys: &Vec<u32>, stacks: &Vec<i32>, places: usize) -> (order: Vec<usize>)
    requires
        keys.len() == stacks.len(),
    ensures
        is_top_order(keys@, stacks@, places as nat, keys.len() as int, order@),
{
    let n = keys.len();
    let mut order: Vec<usize> = Vec::new();
    let mut i: usize = 0;
    while i < n
        invariant
            keys.len() == stacks.len() == n,
            i <= n,
            is_top_order(keys@, stacks@, places as nat, i as int, order@),
        decreases n - i,
    {
        if stacks[i] > 0 {
            let key = keys[i];
            let mut p: usize = order.len();
            while p > 0 && keys[order[p - 1]] < key
                invariant
                    p <= order.len(),
                    keys.len() == n,
                    i < n,
                    key == keys@[i as int],
                    is_top_order(keys@, stacks@, places as nat, i as int, order@),
                    forall|q: int| p <= q < order.len() ==> keys@[#[trigger] order@[q] as int] < key,
                decreases p,
            {
                p -= 1;
            }
            proof {
                let o = order@;
                assert forall|q: int| 0 <= q < p implies finishes_ahead(
                    keys@,
                    #[trigger] o[q] as int,
                    i as int,
                ) by {
                    assert(finishes_ahead(keys@, o[p - 1] as int, i as int));
                    if q < p - 1 {
                        assert(finishes_ahead(keys@, o[q] as int, o[p - 1] as int));
                    }
                }
            }
            if p < places {
                let ghost before = order@;
                order.insert(p, i);
                let ghost inserted = order@;
                assert(inserted == before.insert(p as int, i));
                proof {
                    assert forall|k: int| 0 <= k < inserted.len() implies #[trigger] inserted[k]
                        < i + 1 by {
                        if k < p {
                            assert(inserted[k] == before[k]);
                        } else if k > p {
                            assert(inserted[k] == before[k - 1]);
                        }
                    }
                    assert forall|j: int, k: int| 0 <= j < k < inserted.len() implies finishes_ahead(
                        keys@,
                        inserted[j] as int,
                        inserted[k] as int,
                    ) by {
                        if k < p {
                        } else if k == p {
                            assert(inserted[j] == before[j]);
                        } else if j > p {
                            assert(inserted[j] == before[j - 1]);
                            assert(inserted[k] == before[k - 1]);
                        } else if j == p {
                            assert(inserted[k] == before[k - 1]);
                        } else {
                            assert(inserted[j] == before[j]);
                            assert(inserted[k] == before[k - 1]);
                        }
                    }
                }
                if order.len() > places {
                    order.pop();
                }
                proof {
                    let fin = order@;
                    assert(fin.len() <= inserted.len());
                    assert(forall|k: int| 0 <= k < fin.len() ==> fin[k] == inserted[k]);
                    assert(fin[p as int] == i);
                    assert forall|j: int|
                        0 <= j < i + 1 && contends(stacks@, j) && !fin.contains(
                            j as usize,
                        ) implies fin.len() == places && forall|k: int|
                        0 <= k < fin.len() ==> finishes_ahead(
                            keys@,
                            #[trigger] fin[k] as int,
                            j,
                        ) by {
                        assert(j != i);
                        if before.contains(j as usize) {
                            let w = choose|w: int| 0 <= w < before.len() && before[w] == j;
                            if w < p {
                                assert(fin[w] == j);
                            } else if w + 1 < fin.len() {
                                assert(fin[w + 1] == j);
                            }
                            assert(inserted[w + 1] == j);
                            assert forall|k: int| 0 <= k < fin.len() implies finishes_ahead(
                                keys@,
                                #[trigger] fin[k] as int,
                                j,
                            ) by {
                                assert(finishes_ahead(keys@, inserted[k] as int, inserted[w + 1] as int));
                            }
                        } else {
                            assert(finishes_ahead(keys@, before[p as int] as int, j));
                            assert forall|k: int| 0 <= k < fin.len() implies finishes_ahead(
                                keys@,
                                #[trigger] fin[k] as int,
                                j,
                            ) by {
                                if k < p {
                                    assert(fin[k] == before[k]);
                                } else if k > p {
                                    assert(fin[k] == before[k - 1]);
                                } else {
                                    assert(finishes_ahead(keys@, i as int, before[p as int] as int));
                                }
                            }
                        }
                    }
                }
            }
        }
        i += 1;
    }
    order
}

/// What `player` collects from one finishing order: the payout of each paid
/// place it holds. Places past the end of `payouts` pay nothing.
pub open spec fn prize_total(order: Seq<usize>, payouts: Seq<i32>, player: int) -> int
    decreases order.len(),
{
    if order.len() == 0 {
        0
    } else {
        let k = order.len() - 1;
        prize_total(order.drop_last(), payouts, player) + if k < payouts.len() && order[k]
            == player {
            payouts[k] as int
        } else {
            0
        }
    }
}

proof fn lemma_prize_absent(order: Seq<usize>, payouts: Seq<i32>, player: int)
    requires
        forall|k: int| 0 <= k < order.len() ==> order[k] != player,
    ensures
        prize_total(order, payouts, player) == 0,
    decreases order.len(),
{
    if order.len() > 0 {
        lemma_prize_absent(order.drop_last(), payouts, player);
    }
}

/// A player listed at most once in a finishing order collects at most one
/// payout from it.
proof fn lemma_prize_bounded(order: Seq<usize>, payouts: Seq<i32>, player: int)
    requires
        order.no_duplicates(),
    ensures
        -0x8000_0000 <= prize_total(order, payouts, player) < 0x8000_0000,
    decreases order.len(),
{
    if order.len() > 0 {
        let rest = order.drop_last();
        assert(rest.no_duplicates());
        if order.last() == player {
            assert forall|k: int| 0 <= k < rest.len() implies rest[k] != player by {
                assert(order[k] != order[order.len() - 1]);
            }
            lemma_prize_absent(rest, payouts, player);
        } else {
            lemma_prize_bounded(rest, payouts, player);
        }
    }
}

/// The payouts of the first `count` places.
pub open spec fn payout_sum(payouts: Seq<i32>, count: int) -> int
    decreases count,
{
    if count <= 0 {
        0
    } else {
        payout_sum(payouts, count - 1) + payouts[count - 1] as int
    }
}

/// What the players `0..n` collect between them from one finishing order.
pub open spec fn prizes_paid(order: Seq<usize>, payouts: Seq<i32>, n: nat) -> int
    decreases n,
{
    if n == 0 {
        0
    } else {
        prizes_paid(order, payouts, (n - 1) as nat) + prize_total(order, payouts, n - 1)
    }
}

proof fn lemma_prizes_paid_last(order: Seq<usize>, payouts: Seq<i32>, n: nat)
    requires
        order.len() > 0,
    ensures
        prizes_paid(order, payouts, n) == prizes_paid(order.drop_last(), payouts, n) + if order.last()
            < n && order.len() - 1 < payouts.len() {
            payouts[order.len() - 1] as int
        } else {
            0
        },
    decreases n,
{
    if n > 0 {
        lemma_prizes_paid_last(order, payouts, (n - 1) as nat);
    }
}

/// In one simulated tournament the players, between them, collect exactly
/// the payouts of the places taken: nothing is lost or paid twice.
pub proof fn lemma_round_pays_places(order: Seq<usize>, payouts: Seq<i32>, n: nat)
    requires
        order.len() <= payouts.len(),
        forall|k: int| 0 <= k < order.len() ==> #[trigger] order[k] < n,
    ensures
        prizes_paid(order, payouts, n) == payout_sum(payouts, order.len() as int),
    decreases order.len(),
{
    if order.len() == 0 {
        assert(order =~= Seq::empty());
        lemma_nothing_paid(payouts, n);
    } else {
        let rest = order.drop_last();
        assert(order[order.len() - 1] < n);
        lemma_prizes_paid_last(order, payouts, n);
        lemma_round_pays_places(rest, payouts, n);
        assert(payout_sum(payouts, order.len() as int) == payout_sum(payouts, rest.len() as int)
            + payouts[order.len() - 1]);
    }
}

proof fn lemma_nothing_paid(payouts: Seq<i32>, n: nat)
    ensures
        prizes_paid(Seq::empty(), payouts, n) == 0,
    decreases n,
{
    if n > 0 {
        lemma_nothing_paid(payouts, (n - 1) as nat);
    }
}

/// The most rounds a tally takes; within it no total can overflow.
pub const MAX_ROUNDS: u64 = 0xffff_ffff;

/// The payouts that each player has collected over the simulated
/// tournaments recorded so far.
pub struct PayoutTally {
    totals: Vec<i64>,
    rounds: u64,
}

impl PayoutTally {
    /// The amount collected by each player so far.
    pub closed spec fn totals_spec(&self) -> Seq<i64> {
        self.totals@
    }

    /// The number of tournaments recorded so far.
    pub closed spec fn rounds_spec(&self) -> nat {
        self.rounds as nat
    }

    /// No total can have grown past what that many rounds can pay.
    pub closed spec fn wf(&self) -> bool {
        &&& self.rounds <= MAX_ROUNDS
        &&& forall|p: int|
            0 <= p < self.totals@.len() ==> -(self.rounds as int) * 0x8000_0000
                <= #[trigger] self.totals@[p] <= (self.rounds as int) * 0x8000_0000
    }

    /// An empty tally over `players` players.
    pub fn new(players: usize) -> (t: Self)
        ensures
            t.wf(),
            t.rounds_spec() == 0,
            t.totals_spec() == Seq::new(players as nat, |_p: int| 0i64),
    {
        let mut totals: Vec<i64> = Vec::new();
        let mut i: usize = 0;
        while i < players
            invariant
                i <= players,
                totals@ == Seq::new(i as nat, |_p: int| 0i64),
            decreases players - i,
        {
            totals.push(0);
            i += 1;
            assert(totals@ =~= Seq::new(i as nat, |_p: int| 0i64));
        }
        PayoutTally { totals, rounds: 0 }
    }

    /// The amount collected by each player so far.
    pub fn totals(&self) -> (r: &Vec<i64>)
        ensures
            r@ == self.totals_spec(),
    {
        &self.totals
    }

    /// The number of tournaments recorded so far.
    pub fn rounds(&self) -> (r: u64)
        ensures
            r == self.rounds_spec(),
    {
        self.rounds
    }

    /// Whether one more tournament can be recorded.
    pub fn has_room(&self) -> (r: bool)
        ensures
            r == (self.rounds_spec() < MAX_ROUNDS),
    {
        self.rounds < MAX_ROUNDS
    }

    /// Records one simulated tournament: ranks the players by their draws
    /// `keys`, pays `payouts[k]` to the player who finishes `k`-th, and
    /// returns that finishing order.
    pub fn record(&mut self, keys: &Vec<u32>, stacks: &Vec<i32>, payouts: &Vec<i32>) -> (order:
        Vec<usize>)
        requires
            old(self).wf(),
            old(self).rounds_spec() < MAX_ROUNDS,
            keys.len() == stacks.len() == old(self).totals_spec().len(),
        ensures
            final(self).wf(),
            final(self).rounds_spec() == old(self).rounds_spec() + 1,
            is_top_order(keys@, stacks@, payouts.len() as nat, keys.len() as int, order@),
            final(self).totals_spec().len() == old(self).totals_spec().len(),
            forall|p: int|
                0 <= p < old(self).totals_spec().len() ==> #[trigger] final(self).totals_spec()[p]
                    == old(self).totals_spec()[p] + prize_total(order@, payouts@, p),
    {
        let order = finishing_order(keys, stacks, payouts.len());
        let ghost start = self.totals@;
        let ghost rounds = self.rounds as int;
        let count = order.len();
        proof {
            assert forall|a: int, b: int|
                0 <= a < order@.len() && 0 <= b < order@.len() && a != b implies order@[a]
                != order@[b] by {
                if a < b {
                    assert(finishes_ahead(keys@, order@[a] as int, order@[b] as int));
                } else {
                    assert(finishes_ahead(keys@, order@[b] as int, order@[a] as int));
                }
            }
        }
        let mut k: usize = 0;
        while k < count
            invariant
                count == order.len() <= payouts.len(),
                k <= count,
                is_top_order(keys@, stacks@, payouts.len() as nat, keys.len() as int, order@),
                self.totals@.len() == start.len() == keys.len(),
                self.rounds == rounds,
                rounds < MAX_ROUNDS,
                forall|p: int|
                    0 <= p < start.len() ==> -rounds * 0x8000_0000 <= #[trigger] start[p] <= rounds
                        * 0x8000_0000,
                order@.no_duplicates(),
                forall|p: int|
                    0 <= p < start.len() ==> #[trigger] self.totals@[p] == start[p] + prize_total(
                        order@.take(k as int),
                        payouts@,
                        p,
                    ),
            decreases count - k,
        {
            let seat = order[k];
            proof {
                let prefix = order@.take(k as int);
                assert(order@.take(k + 1).drop_last() =~= prefix);
                assert(prefix.no_duplicates());
                lemma_prize_bounded(prefix, payouts@, seat as int);
            }
            self.totals.set(seat, self.totals[seat] + payouts[k] as i64);
            k += 1;
        }
        self.rounds = self.rounds + 1;
        proof {
            assert(order@.take(count as int) =~= order@);
            assert forall|p: int| 0 <= p < start.len() implies -(self.rounds as int) * 0x8000_0000
                <= #[trigger] self.totals@[p] <= (self.rounds as int) * 0x8000_0000 by {
                lemma_prize_bounded(order@, payouts@, p);
            }
        }
        order
    }
}

} // verus!
