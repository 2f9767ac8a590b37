//! The mathematical model of the sieves: which numbers a marking pass
//! strikes, which values a finished buffer yields, which flags a segment ends
//! with, and what it means for a list to be the result of a generator.

use crate::primality::{divides, floor_sqrt, is_prime};
use vstd::prelude::*;

verus! {

/// `n` is one of the multiples `p * p + p * k`, `k >= m`, of `p`: the numbers
/// that marking with `p` from starting multiple `m` strikes.
pub open spec fn struck(p: int, m: int, n: int) -> bool {
    p * p + p * m <= n && divides(p, n)
}

/// The multiple of `p` that lies `k` steps of `p` beyond its square.
pub open spec fn multiple_from_square(p: int, k: int) -> int {
    p * p + p * k
}

/// The first buffer index that can yield a value: 2 in a buffer that starts
/// at 0, where the positions of 0 and 1 are never read, else 0.
pub open spec fn first_candidate(offset: int) -> int {
    if offset == 0 {
        2
    } else {
        0
    }
}

/// Every value that the flagged positions of `flags` stand for, in a buffer
/// that starts at `offset`, fits in `u64`.
pub open spec fn flagged_within_u64(flags: Seq<bool>, offset: int) -> bool {
    forall|i: int|
        first_candidate(offset) <= i < flags.len() && #[trigger] flags[i] ==> i + offset
            <= u64::MAX
}

/// The values `i + offset` of the flagged positions `i` of `flags` from
/// `first_candidate(offset)` up to, not including, `upto`, lowest first.
pub open spec fn flagged_values(flags: Seq<bool>, offset: int, upto: int) -> Seq<u64>
    decreases upto,
{
    if upto <= first_candidate(offset) {
        Seq::empty()
    } else if flags[upto - 1] {
        flagged_values(flags, offset, upto - 1).push((upto - 1 + offset) as u64)
    } else {
        flagged_values(flags, offset, upto - 1)
    }
}

/// Each element is greater than all elements before it.
pub open spec fn strictly_ascending(list: Seq<u64>) -> bool {
    forall|i: int, j: int| 0 <= i < j < list.len() ==> list[i] < list[j]
}

/// `n` has no divisor `d` with `2 <= d < root` whose square stays within `n`:
/// what the in-memory sieve leaves flagged when it marks with every number
/// below `root`.
pub open spec fn kept_below_root(n: int, root: int) -> bool {
    forall|d: int| 2 <= d < root && d * d <= n ==> !#[trigger] divides(d, n)
}

/// `list` holds, in ascending order and once each, exactly the numbers from 2
/// up to, not including, `end` that the in-memory sieve over `[0, end)` keeps.
pub open spec fn is_full_sieve_output(end: int, list: Seq<u64>) -> bool {
    &&& strictly_ascending(list)
    &&& forall|n: u64| #[trigger]
        list.contains(n) <==> 2 <= n < end && kept_below_root(n as int, floor_sqrt(end))
}

/// `list` holds, in ascending order and once each, exactly the primes below
/// `bound`.
pub open spec fn is_prime_list_below(bound: int, list: Seq<u64>) -> bool {
    &&& strictly_ascending(list)
    &&& forall|n: u64| #[trigger] list.contains(n) <==> n < bound && is_prime(n as int)
}

/// Trial division of `t` by the numbers of `list`, in their order, stops at
/// position `a` with a divisor found: `list[a]` divides `t`, and the square of
/// no number up to that position exceeds `t`.
pub open spec fn trial_divisor_at(list: Seq<u64>, t: int, a: int) -> bool {
    &&& 0 <= a < list.len()
    &&& divides(list[a] as int, t)
    &&& forall|b: int| 0 <= b <= a ==> (#[trigger] list[b]) * list[b] <= t
}

/// Trial division of `t` by the numbers of `list` finds no divisor before it
/// meets a number whose square exceeds `t`, or the end of the list.
pub open spec fn passes_trial(list: Seq<u64>, t: int) -> bool {
    forall|a: int| !trial_divisor_at(list, t, a)
}

/// Whether the number `t` is flagged in the buffer of the segment that starts
/// at `shift`, with `list` the primes gathered before, once the segment has
/// marked with the numbers from `shift` up to, not including, `bound`: `t`
/// passes trial division by `list`, and none of those numbers that is at least
/// 2, and was itself flagged when its turn came, strikes `t`.
pub open spec fn segment_keeps(list: Seq<u64>, shift: int, bound: int, t: int) -> bool
    decreases bound - shift,
{
    &&& passes_trial(list, t)
    &&& forall|u: int|
        shift <= u < bound && 2 <= u && segment_keeps(list, shift, u, u) ==> !#[trigger] struck(
            u,
            0,
            t,
        )
}

/// The finished buffer of the segment of `size` numbers that starts at
/// `shift`, with `list` the primes gathered before.
pub open spec fn segment_flags(list: Seq<u64>, shift: int, size: int) -> Seq<bool> {
    Seq::new(size as nat, |l: int| segment_keeps(list, shift, shift + l, shift + l))
}

/// The end of the part of `[0, end)` that whole segments of `size` cover.
pub open spec fn whole_segments_end(end: int, size: int) -> int {
    (end / size) * size
}

/// `list` is what sieving `[0, end)` in segments of `size` gathers. With
/// segments of 2 or more: the primes below the end of the last whole segment,
/// in ascending order and once each. With segments of 1, where the number 1
/// gets a segment of its own and then divides every later number: the single
/// number 1 if the range reaches it, else nothing.
pub open spec fn is_segmented_sieve_output(end: int, size: int, list: Seq<u64>) -> bool {
    if size >= 2 {
        is_prime_list_below(whole_segments_end(end, size), list)
    } else if end >= 2 {
        list == seq![1u64]
    } else {
        list == Seq::<u64>::empty()
    }
}

} // verus!
