//! The stack vector of one query: players A and B first, then the others.

use vstd::prelude::*;

verus! {

/// The sum of all the stacks.
pub open spec fn seq_total(stacks: Seq<i32>) -> int
    decreases stacks.len(),
{
    if stacks.len() == 0 {
        0
    } else {
        seq_total(stacks.drop_last()) + stacks.last() as int
    }
}

/// The stacks of a query: player A, player B, then the other players in
/// their given order.
pub fn stack_vector(stack_a: i32, stack_b: i32, others: &Vec<i32>) -> (r: Vec<i32>)
    ensures
        r@ == seq![stack_a, stack_b] + others@,
{
    let mut r: Vec<i32> = Vec::new();
    r.push(stack_a);
    r.push(stack_b);
    let mut i: usize = 0;
    while i < others.len()
        invariant
            i <= others.len(),
            r@ == seq![stack_a, stack_b] + others@.take(i as int),
        decreases others.len() - i,
    {
        r.push(others[i]);
        i += 1;
        assert(r@ =~= seq![stack_a, stack_b] + others@.take(i as int));
    }
    assert(others@.take(others.len() as int) =~= others@);
    r
}

/// The total of all the chips in play.
pub fn chip_total(stacks: &Vec<i32>) -> (t: i128)
    ensures
        t == seq_total(stacks@),
{
    let mut t: i128 = 0;
    let mut i: usize = 0;
    while i < stacks.len()
        invariant
            i <= stacks.len(),
            t == seq_total(stacks@.take(i as int)),
            -(i as int) * 0x8000_0000 <= t <= (i as int) * 0x8000_0000,
        decreases stacks.len() - i,
    {
        assert(stacks@.take(i + 1).drop_last() =~= stacks@.take(i as int));
        t = t + stacks[i] as i128;
        i += 1;
    }
    assert(stacks@.take(stacks.len() as int) =~= stacks@);
    t
}

} // verus!
