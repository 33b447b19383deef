//! The aggregator: summing a sequence of unsigned 32-bit integers into a
//! 64-bit total.

use vstd::prelude::*;
use vstd::slice::slice_to_vec;

verus! {

/// The mathematical sum of a sequence of 32-bit values, as an unbounded
/// integer.
pub open spec fn sum_spec(s: Seq<u32>) -> int
    decreases s.len(),
{
    if s.len() == 0 {
        0
    } else {
        sum_spec(s.drop_last()) + s.last()
    }
}

/// The triangular number: the sum of the integers below `n`.
pub open spec fn triangular(n: nat) -> int {
    (n as int) * (n as int - 1) / 2
}

/// The sum of a sequence of 32-bit values never exceeds the length of the
/// sequence times the largest 32-bit value.
pub proof fn lemma_sum_spec_bound(s: Seq<u32>)
    ensures
        0 <= sum_spec(s) <= s.len() * (u32::MAX as int),
    decreases s.len(),
{
    if s.len() > 0 {
        lemma_sum_spec_bound(s.drop_last());
    }
}

/// Widens each element to 64 bits and adds them up in order.
///
/// The bound on the length guarantees that the total fits in 64 bits: at
/// most 2^32 elements, each below 2^32, sum to less than 2^64.
pub fn sum_numbers(numbers: &[u32]) -> (total: u64)
    requires
        numbers@.len() <= 0x1_0000_0000,
    ensures
        total as int == sum_spec(numbers@),
{
    let owned = slice_to_vec(numbers);
    let mut total: u64 = 0;
    let n = owned.len();
    for i in 0..n
        invariant
            owned@ == numbers@,
            n == numbers@.len() <= 0x1_0000_0000,
            total as int == sum_spec(numbers@.take(i as int)),
    {
        proof {
            lemma_sum_spec_bound(numbers@.take(i as int));
            assert(numbers@.take(i as int).len() == i);
            assert(numbers@.take(i + 1).drop_last() =~= numbers@.take(i as int));
            assert(numbers@.take(i + 1).last() == numbers@[i as int]);
        }
        let item = owned[i];
        total = total + item as u64;
    }
    proof {
        assert(numbers@.take(n as int) =~= numbers@);
    }
    total
}

} // verus!
