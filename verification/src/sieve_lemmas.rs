//! Facts about the model of the sieves that the generators' proofs rest on.

use crate::primality::{
    divides, is_prime, lemma_below_square, lemma_divides_transitive, lemma_small_prime_factor,
    lemma_square_le,
};
use crate::sieve_model::{
    first_candidate, flagged_values, flagged_within_u64, is_prime_list_below, kept_below_root,
    segment_flags, segment_keeps, strictly_ascending, struck, trial_divisor_at,
    whole_segments_end,
};
use vstd::arithmetic::div_mod::lemma_fundamental_div_mod;
use vstd::prelude::*;

verus! {

/// The flagged values of a buffer come out in ascending order, and a value is
/// among them exactly if its position is a flagged candidate.
pub proof fn lemma_flagged_values(flags: Seq<bool>, offset: int, upto: int)
    requires
        0 <= offset,
        upto <= flags.len(),
        flagged_within_u64(flags, offset),
    ensures
        strictly_ascending(flagged_values(flags, offset, upto)),
        forall|v: u64| #[trigger]
            flagged_values(flags, offset, upto).contains(v) <==> first_candidate(offset) <= v
                - offset < upto && flags[v - offset],
    decreases upto,
{
    let values = flagged_values(flags, offset, upto);
    if upto > first_candidate(offset) {
        lemma_flagged_values(flags, offset, upto - 1);
        let shorter = flagged_values(flags, offset, upto - 1);
        if flags[upto - 1] {
            assert forall|i: int, j: int| 0 <= i < j < values.len() implies values[i]
                < values[j] by {
                if j == shorter.len() {
                    assert(shorter.contains(shorter[i]));
                }
            }
            assert forall|v: u64| #[trigger]
                values.contains(v) <==> first_candidate(offset) <= v - offset < upto && flags[v
                    - offset] by {
                if values.contains(v) {
                    let i = choose|i: int| 0 <= i < values.len() && values[i] == v;
                    if i < shorter.len() {
                        assert(shorter.contains(shorter[i]));
                    }
                }
                if first_candidate(offset) <= v - offset < upto && flags[v - offset] {
                    if v - offset == upto - 1 {
                        assert(values[shorter.len() as int] == v);
                    } else {
                        assert(shorter.contains(v));
                        let i = choose|i: int| 0 <= i < shorter.len() && shorter[i] == v;
                        assert(values[i] == v);
                    }
                }
            }
        }
    }
}

/// Two ascending lists with the same elements are the same list.
pub proof fn lemma_ascending_lists_equal(a: Seq<u64>, b: Seq<u64>)
    requires
        strictly_ascending(a),
        strictly_ascending(b),
        forall|n: u64| a.contains(n) <==> b.contains(n),
    ensures
        a == b,
    decreases a.len(),
{
    if a.len() == 0 {
        if b.len() > 0 {
            assert(b.contains(b[0]));
        }
    } else if b.len() == 0 {
        assert(a.contains(a[0]));
    } else {
        let top_a = a.last();
        let top_b = b.last();
        assert(a.contains(top_a));
        assert(b.contains(top_b));
        assert(top_a == top_b) by {
            let i = choose|i: int| 0 <= i < b.len() && b[i] == top_a;
            let j = choose|j: int| 0 <= j < a.len() && a[j] == top_b;
        }
        let rest_a = a.drop_last();
        let rest_b = b.drop_last();
        assert forall|n: u64| rest_a.contains(n) <==> rest_b.contains(n) by {
            if rest_a.contains(n) {
                let i = choose|i: int| 0 <= i < rest_a.len() && rest_a[i] == n;
                assert(a.contains(n));
                let j = choose|j: int| 0 <= j < b.len() && b[j] == n;
                assert(rest_b[j] == n);
            }
            if rest_b.contains(n) {
                let i = choose|i: int| 0 <= i < rest_b.len() && rest_b[i] == n;
                assert(b.contains(n));
                let j = choose|j: int| 0 <= j < a.len() && a[j] == n;
                assert(rest_a[j] == n);
            }
        }
        lemma_ascending_lists_equal(rest_a, rest_b);
        assert(a =~= rest_a.push(top_a));
    }
}

/// Appending an ascending list whose elements all exceed those of another
/// ascending list gives an ascending list with the elements of both.
pub proof fn lemma_ascending_append(low: Seq<u64>, high: Seq<u64>)
    requires
        strictly_ascending(low),
        strictly_ascending(high),
        forall|i: int, j: int| 0 <= i < low.len() && 0 <= j < high.len() ==> low[i] < high[j],
    ensures
        strictly_ascending(low + high),
        forall|n: u64| #[trigger] (low + high).contains(n) <==> low.contains(n) || high.contains(n),
{
    let both = low + high;
    assert forall|n: u64| #[trigger] both.contains(n) <==> low.contains(n) || high.contains(
        n,
    ) by {
        if both.contains(n) {
            let i = choose|i: int| 0 <= i < both.len() && both[i] == n;
            assert(i < low.len() || both[i] == high[i - low.len()]);
        }
        if low.contains(n) {
            let i = choose|i: int| 0 <= i < low.len() && low[i] == n;
            assert(both[i] == n);
        }
        if high.contains(n) {
            let i = choose|i: int| 0 <= i < high.len() && high[i] == n;
            assert(both[low.len() + i] == n);
        }
    }
}

/// Marking with `i` takes from the numbers kept below `i` exactly those that
/// `i` strikes.
pub proof fn lemma_kept_after_marking(n: int, i: int)
    requires
        2 <= i,
    ensures
        kept_below_root(n, i + 1) <==> kept_below_root(n, i) && !struck(i, 0, n),
{
    assert(i * 0 == 0) by (nonlinear_arith);
    if kept_below_root(n, i) && !struck(i, 0, n) {
        assert(kept_below_root(n, i + 1));
    }
}

/// A number that is itself not kept below `i` need not be marked with: all
/// its multiples from its square on were struck before.
pub proof fn lemma_kept_without_marking(n: int, i: int)
    requires
        2 <= i,
        !kept_below_root(i, i),
    ensures
        kept_below_root(n, i + 1) <==> kept_below_root(n, i),
{
    lemma_kept_after_marking(n, i);
    if kept_below_root(n, i) && struck(i, 0, n) {
        let d = choose|d: int| 2 <= d < i && d * d <= i && divides(d, i);
        lemma_divides_transitive(d, i, n);
        lemma_below_square(i);
        assert(false);
    }
}

/// Taking the turn of `bound` clears the flag of `t` exactly if `bound` is at
/// least 2, is flagged itself, and strikes `t`.
pub proof fn lemma_segment_keeps_after_turn(list: Seq<u64>, shift: int, bound: int, t: int)
    requires
        shift <= bound,
    ensures
        segment_keeps(list, shift, bound + 1, t) <==> segment_keeps(list, shift, bound, t) && !(2
            <= bound && segment_keeps(list, shift, bound, bound) && struck(bound, 0, t)),
{
}

/// The turns from that of `t` itself on leave the flag of `t` as it is.
pub proof fn lemma_segment_keeps_settled(list: Seq<u64>, shift: int, bound: int, t: int)
    requires
        t <= bound,
    ensures
        segment_keeps(list, shift, bound, t) <==> segment_keeps(list, shift, t, t),
{
    assert forall|u: int| t <= u && 2 <= u implies !struck(u, 0, t) by {
        lemma_below_square(u);
    }
}

/// With `list` the primes below `shift`, a segment that starts at `shift`
/// leaves flagged, among the numbers from 2 on, exactly the primes.
pub proof fn lemma_segment_keeps_primes(list: Seq<u64>, shift: int, t: int)
    requires
        is_prime_list_below(shift, list),
        0 <= shift <= t <= u64::MAX,
        2 <= t,
    ensures
        segment_keeps(list, shift, t, t) <==> is_prime(t),
    decreases t - shift,
{
    if is_prime(t) {
        assert forall|a: int| !trial_divisor_at(list, t, a) by {
            if trial_divisor_at(list, t, a) {
                let p = list[a];
                assert(list.contains(p));
            }
        }
    } else {
        let q = lemma_small_prime_factor(t);
        lemma_below_square(q);
        if q < shift {
            assert(list.contains(q as u64));
            let a = choose|a: int| 0 <= a < list.len() && list[a] == q as u64;
            assert forall|b: int| 0 <= b <= a implies (#[trigger] list[b]) * list[b] <= t by {
                lemma_square_le(list[b] as int, q);
            }
            assert(trial_divisor_at(list, t, a));
        } else {
            lemma_segment_keeps_primes(list, shift, q);
            assert(struck(q, 0, t));
        }
    }
}

/// Sieving the segment after the primes below `shift` gives the primes below
/// the end of the segment, as long as the segment does not start at 1.
pub proof fn lemma_segment_extends_prime_list(list: Seq<u64>, shift: int, size: int)
    requires
        is_prime_list_below(shift, list),
        shift == 0 || 2 <= shift,
        0 <= size,
        shift + size <= u64::MAX + 1,
    ensures
        is_prime_list_below(
            shift + size,
            list + flagged_values(segment_flags(list, shift, size), shift, size),
        ),
{
    let flags = segment_flags(list, shift, size);
    let gathered = flagged_values(flags, shift, size);
    lemma_flagged_values(flags, shift, size);
    assert forall|v: u64| #[trigger] gathered.contains(v) <==> shift <= v < shift + size && is_prime(
        v as int,
    ) by {
        if shift <= v < shift + size && 2 <= v {
            lemma_segment_keeps_primes(list, shift, v as int);
        }
    }
    assert forall|i: int, j: int| 0 <= i < list.len() && 0 <= j < gathered.len() implies list[i]
        < gathered[j] by {
        assert(list.contains(list[i]));
        assert(gathered.contains(gathered[j]));
    }
    lemma_ascending_append(list, gathered);
}

/// In segments of 1, the segments of 0 and 1 start from an empty list and
/// gather nothing and the number 1; every later segment starts from the list
/// of 1 alone and gathers nothing.
pub proof fn lemma_segment_of_one(list: Seq<u64>, shift: int)
    requires
        0 <= shift < u64::MAX,
        list == (if shift >= 2 {
            seq![1u64]
        } else {
            Seq::<u64>::empty()
        }),
    ensures
        list + flagged_values(segment_flags(list, shift, 1), shift, 1) == (if shift >= 1 {
            seq![1u64]
        } else {
            Seq::<u64>::empty()
        }),
{
    let flags = segment_flags(list, shift, 1);
    if shift >= 1 {
        assert(flagged_values(flags, shift, 0) == Seq::<u64>::empty());
    }
    if shift >= 2 {
        assert(list.len() == 1 && list[0] == 1);
        assert forall|b: int| 0 <= b <= 0 implies (#[trigger] list[b]) * list[b] <= shift by {
            assert(list[b] * list[b] == 1) by (nonlinear_arith)
                requires
                    list[b] == 1,
            ;
        }
        assert(trial_divisor_at(list, shift, 0));
    }
}

/// Up to `end / size` segments of `size` fit into `[0, end)`, and that many
/// end where `whole_segments_end` says.
pub proof fn lemma_whole_segments_within(end: int, size: int, count: int)
    requires
        0 <= end,
        0 < size,
        0 <= count <= end / size,
    ensures
        count * size <= end,
        (count - 1) * size + size == count * size,
        count == end / size ==> count * size == whole_segments_end(end, size),
        size == 1 ==> end / size == end,
{
    lemma_fundamental_div_mod(end, size);
    let whole = end / size;
    assert(count * size <= whole * size) by (nonlinear_arith)
        requires
            0 <= count <= whole,
            0 < size,
    ;
    assert((count - 1) * size + size == count * size) by (nonlinear_arith);
}

} // verus!
