//! What holds of the generators' results, proved from their contracts.

use crate::primality::{
    divides, floor_sqrt, is_prime, lemma_below_floor_sqrt, lemma_below_square,
    lemma_divides_product, lemma_divides_quotient, lemma_floor_sqrt_exists,
    lemma_prime_has_no_small_divisor, lemma_prime_square_divisors, lemma_small_prime_factor,
    lemma_square_le,
};
use crate::sieve_lemmas::{lemma_ascending_lists_equal, lemma_whole_segments_within};
use crate::sieve_model::{
    is_full_sieve_output, is_prime_list_below, is_segmented_sieve_output, kept_below_root,
    multiple_from_square, struck, whole_segments_end,
};
use vstd::prelude::*;

verus! {

/// The numbers that marking with `p` strikes are the multiples
/// `p * p + p * k` with `k >= m`, and no others.
pub proof fn lemma_struck_multiples(p: int, m: int, n: int)
    requires
        0 < p,
    ensures
        struck(p, m, n) <==> exists|k: int| m <= k && n == #[trigger] multiple_from_square(p, k),
{
    if struck(p, m, n) {
        lemma_divides_quotient(p, n);
        let k = n / p - p;
        assert(n == p * p + p * k) by (nonlinear_arith)
            requires
                n == p * (n / p),
                k == n / p - p,
        ;
        assert(m <= k) by (nonlinear_arith)
            requires
                0 < p,
                p * p + p * m <= p * p + p * k,
        ;
        assert(n == multiple_from_square(p, k));
    }
    if exists|k: int| m <= k && n == #[trigger] multiple_from_square(p, k) {
        let k = choose|k: int| m <= k && n == #[trigger] multiple_from_square(p, k);
        assert(p * p + p * k == p * (p + k)) by (nonlinear_arith);
        lemma_divides_product(p, p + k);
        assert(p * m <= p * k) by (nonlinear_arith)
            requires
                0 < p,
                m <= k,
        ;
    }
}

/// The in-memory sieve stops marking one short of the floor square root of
/// the range end. So what it keeps below `limit` is exactly the primes below
/// `limit` unless that root is a prime whose square lies below `limit`: then
/// nothing strikes the square.
pub open spec fn full_sieve_is_exact_below(end: int, limit: int) -> bool {
    !(is_prime(floor_sqrt(end)) && floor_sqrt(end) * floor_sqrt(end) < limit)
}

/// The in-memory sieve over `[0, end)` lists exactly the primes below `end`.
pub open spec fn full_sieve_is_exact(end: int) -> bool {
    full_sieve_is_exact_below(end, end)
}

/// Where the in-memory sieve is exact below `limit`, a number from 2 on below
/// `limit` is kept exactly if it is prime.
pub proof fn lemma_kept_iff_prime(end: int, limit: int, n: int)
    requires
        full_sieve_is_exact_below(end, limit),
        2 <= n < limit <= end,
    ensures
        kept_below_root(n, floor_sqrt(end)) <==> is_prime(n),
{
    let root = floor_sqrt(end);
    lemma_floor_sqrt_exists(end);
    if is_prime(n) {
        assert forall|d: int| 2 <= d < root && d * d <= n implies !#[trigger] divides(d, n) by {
            lemma_prime_has_no_small_divisor(n, d);
        }
    } else {
        let q = lemma_small_prime_factor(n);
        lemma_below_floor_sqrt(end, root, q);
        assert(q < root);
    }
}

/// The in-memory sieve keeps the square of the floor square root of the range
/// end if that root is prime, though the square is no prime.
pub proof fn lemma_prime_root_square_kept(end: int)
    requires
        0 <= end,
        is_prime(floor_sqrt(end)),
    ensures
        kept_below_root(floor_sqrt(end) * floor_sqrt(end), floor_sqrt(end)),
        !is_prime(floor_sqrt(end) * floor_sqrt(end)),
        2 <= floor_sqrt(end) * floor_sqrt(end) <= end,
{
    let root = floor_sqrt(end);
    let square = root * root;
    lemma_floor_sqrt_exists(end);
    lemma_below_square(root);
    lemma_divides_product(root, root);
    assert forall|d: int| 2 <= d < root && d * d <= square implies !#[trigger] divides(
        d,
        square,
    ) by {
        lemma_prime_square_divisors(root, d);
    }
}

/// The result of the in-memory sieve over `[0, end)` holds every prime below
/// `end` and nothing else, wherever the sieve is exact.
pub proof fn lemma_full_sieve_lists_primes(end: int, list: Seq<u64>)
    requires
        is_full_sieve_output(end, list),
        full_sieve_is_exact(end),
    ensures
        is_prime_list_below(end, list),
{
    assert forall|n: u64| #[trigger] list.contains(n) <==> n < end && is_prime(n as int) by {
        if 2 <= n < end {
            lemma_kept_iff_prime(end, end, n as int);
        }
    }
}

/// Where the in-memory sieve is not exact, its result holds the square of the
/// floor square root of the range end, which is no prime: the result is not
/// the list of the primes below the range end.
pub proof fn lemma_full_sieve_keeps_root_square(end: int, list: Seq<u64>)
    requires
        is_full_sieve_output(end, list),
        0 <= end <= u64::MAX + 1,
        !full_sieve_is_exact(end),
    ensures
        list.contains((floor_sqrt(end) * floor_sqrt(end)) as u64),
        !is_prime(floor_sqrt(end) * floor_sqrt(end)),
        !is_prime_list_below(end, list),
{
    lemma_prime_root_square_kept(end);
    assert(list.contains((floor_sqrt(end) * floor_sqrt(end)) as u64));
}

/// The in-memory sieve has one result for each range end: two runs over the
/// same range give the same list, element for element.
pub proof fn lemma_full_sieve_deterministic(end: int, first: Seq<u64>, second: Seq<u64>)
    requires
        is_full_sieve_output(end, first),
        is_full_sieve_output(end, second),
    ensures
        first == second,
{
    lemma_ascending_lists_equal(first, second);
}

/// The segmented sieve has one result for each range end and segment size:
/// two runs with the same settings give the same list, element for element.
pub proof fn lemma_segmented_sieve_deterministic(
    end: int,
    size: int,
    first: Seq<u64>,
    second: Seq<u64>,
)
    requires
        is_segmented_sieve_output(end, size, first),
        is_segmented_sieve_output(end, size, second),
    ensures
        first == second,
{
    if size >= 2 {
        lemma_ascending_lists_equal(first, second);
    }
}

/// Whether the two generators can be expected to agree on `[0, end)` up to
/// the end of the last whole segment: the in-memory sieve is exact up to there,
/// and the segments are of 2 or more (or the range too short to reach 1).
pub open spec fn generators_agree(end: int, size: int) -> bool {
    &&& full_sieve_is_exact_below(end, whole_segments_end(end, size))
    &&& 2 <= size || end < 2
}

/// Below the end of the last whole segment, which is where the result of the
/// segmented sieve ends, the segmented sieve holds the same numbers as the
/// in-memory sieve over the whole range, wherever the two can be expected to
/// agree.
pub proof fn lemma_segmented_matches_full_sieve(
    end: int,
    size: int,
    segmented: Seq<u64>,
    full: Seq<u64>,
)
    requires
        0 <= end,
        0 < size,
        is_segmented_sieve_output(end, size, segmented),
        is_full_sieve_output(end, full),
        generators_agree(end, size),
    ensures
        whole_segments_end(end, size) <= end,
        forall|n: u64|
            n < whole_segments_end(end, size) ==> (segmented.contains(n) <==> full.contains(n)),
{
    let covered = whole_segments_end(end, size);
    lemma_whole_segments_within(end, size, end / size);
    assert forall|n: u64| n < covered implies (segmented.contains(n) <==> full.contains(n)) by {
        if size >= 2 && 2 <= n {
            lemma_kept_iff_prime(end, covered, n as int);
        }
    }
}

/// Where the two generators cannot be expected to agree, they differ on a
/// number below the end of the last whole segment: the square of the floor
/// square root of the range end with segments of 2 or more, the number 1 with
/// segments of 1.
pub proof fn lemma_segmented_differs_from_full_sieve(
    end: int,
    size: int,
    segmented: Seq<u64>,
    full: Seq<u64>,
) -> (n: u64)
    requires
        0 <= end <= u64::MAX + 1,
        0 < size,
        is_segmented_sieve_output(end, size, segmented),
        is_full_sieve_output(end, full),
        !generators_agree(end, size),
    ensures
        n < whole_segments_end(end, size),
        segmented.contains(n) != full.contains(n),
{
    lemma_whole_segments_within(end, size, end / size);
    if size >= 2 {
        lemma_prime_root_square_kept(end);
        (floor_sqrt(end) * floor_sqrt(end)) as u64
    } else {
        if end < 2 {
            lemma_square_le(2, floor_sqrt(end));
        }
        assert(segmented[0] == 1);
        1
    }
}

} // verus!
