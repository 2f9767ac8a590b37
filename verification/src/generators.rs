//! The prime number generators and the two steps they share: marking the
//! multiples of a prime in a sieve buffer, and reading the primes off a
//! finished buffer.

use crate::common::Config;
use crate::primality::{
    divides, floor_sqrt, is_floor_sqrt, lemma_below_floor_sqrt, lemma_below_square,
    lemma_divides_product, lemma_floor_sqrt_unique, lemma_next_multiple,
    lemma_no_multiple_between,
};
use crate::sieve_lemmas::{
    lemma_flagged_values, lemma_kept_after_marking, lemma_kept_without_marking,
    lemma_segment_extends_prime_list,
    lemma_segment_keeps_after_turn, lemma_segment_keeps_settled, lemma_segment_of_one,
    lemma_whole_segments_within,
};
use crate::sieve_model::{
    first_candidate, flagged_values, flagged_within_u64, is_full_sieve_output,
    is_prime_list_below, is_segmented_sieve_output, kept_below_root, passes_trial,
    segment_flags, segment_keeps, strictly_ascending, struck, trial_divisor_at,
};
use integer_sqrt::IntegerSquareRoot;
use vstd::prelude::*;

verus! {

/// The floor of the square root of `n`, as
/// `integer_sqrt::IntegerSquareRoot::integer_sqrt` computes it for `u64`.
///
/// Trusted, not proved: that the result is the largest number whose square
/// does not exceed `n`.
#[verifier::external_body]
fn integer_sqrt(n: u64) -> (root: u64)
    ensures
        root * root <= n,
        n < (root + 1) * (root + 1),
{
    n.integer_sqrt()
}

/// Marks as composite every multiple `prime * prime + prime * k`,
/// `k >= starting_multiple`, that lies in the buffer. The buffer stands for
/// the numbers from `offset` on: position `j` is the number `offset + j`.
///
/// The first multiple must not lie before the buffer. Positions of other
/// numbers keep their flag; in particular, from starting multiple 0 nothing
/// below the square of `prime` is touched.
pub fn sieve_prime_factor(sieve: &mut Vec<bool>, prime: u64, starting_multiple: u64, offset: u64)
    requires
        prime > 0,
        offset <= prime * prime + prime * starting_multiple,
    ensures
        final(sieve)@.len() == old(sieve)@.len(),
        forall|j: int|
            0 <= j < old(sieve)@.len() ==> #[trigger] final(sieve)@[j] == (old(sieve)@[j]
                && !struck(prime as int, starting_multiple as int, offset + j)),
        offset == 0 && starting_multiple == 0 ==> forall|j: int|
            0 <= j < old(sieve)@.len() && prime * prime <= j && j % (prime as int) == 0
                ==> !#[trigger] final(sieve)@[j],
        offset == 0 && starting_multiple == 0 ==> forall|j: int|
            0 <= j < old(sieve)@.len() && j < prime * prime ==> #[trigger] final(sieve)@[j] == old(
                sieve,
            )@[j],
{
    let ghost before = sieve@;
    let extent: u128 = offset as u128 + sieve.len() as u128;
    let step: u128 = prime as u128;
    assert(step * step <= 0xffff_ffff_ffff_ffff * 0xffff_ffff_ffff_ffff) by (nonlinear_arith)
        requires
            0 <= step <= 0xffff_ffff_ffff_ffff,
    ;
    let square: u128 = step * step;
    if square >= extent {
        assert(0 <= step * starting_multiple) by (nonlinear_arith)
            requires
                0 <= step,
                0 <= starting_multiple,
        ;
        return;
    }
    assert(step < 0x2_0000_0000) by (nonlinear_arith)
        requires
            0 <= step,
            step * step < 0x2_0000_0000_0000_0000,
    ;
    assert(step * starting_multiple <= 0x2_0000_0000 * 0xffff_ffff_ffff_ffff) by (nonlinear_arith)
        requires
            0 <= step < 0x2_0000_0000,
            0 <= starting_multiple <= 0xffff_ffff_ffff_ffff,
    ;
    let mut prime_factor: u128 = square + step * (starting_multiple as u128);
    proof {
        assert(prime_factor == step * (step + starting_multiple)) by (nonlinear_arith)
            requires
                prime_factor == step * step + step * starting_multiple,
        ;
        lemma_divides_product(step as int, step + starting_multiple);
    }
    while prime_factor < extent
        invariant
            step == prime,
            step > 0,
            extent == offset + before.len(),
            sieve@.len() == before.len(),
            before.len() <= usize::MAX,
            offset <= prime_factor,
            prime * prime + prime * starting_multiple <= prime_factor,
            divides(prime as int, prime_factor as int),
            forall|j: int|
                0 <= j < before.len() ==> #[trigger] sieve@[j] == (before[j] && !(struck(
                    prime as int,
                    starting_multiple as int,
                    offset + j,
                ) && offset + j < prime_factor)),
        decreases extent + step - prime_factor,
    {
        let ghost marked = sieve@;
        let position: usize = (prime_factor - offset as u128) as usize;
        sieve.set(position, false);
        proof {
            lemma_next_multiple(prime as int, prime_factor as int);
            assert forall|j: int| 0 <= j < before.len() implies #[trigger] sieve@[j] == (before[j]
                && !(struck(prime as int, starting_multiple as int, offset + j) && offset + j
                < prime_factor + step)) by {
                assert(marked[j] == (before[j] && !(struck(
                    prime as int,
                    starting_multiple as int,
                    offset + j,
                ) && offset + j < prime_factor)));
                if prime_factor < offset + j < prime_factor + step {
                    lemma_no_multiple_between(prime as int, prime_factor as int, offset + j);
                }
            }
        }
        prime_factor = prime_factor + step;
    }
}

/// Appends to `primes`, lowest first, the number of every flagged position of
/// the buffer, which stands for the numbers from `offset` on. In a buffer that
/// starts at 0, the positions of 0 and 1 are passed over.
///
/// The numbers at flagged positions must fit in `u64`.
pub fn sieve_to_primes(sieve: &Vec<bool>, primes: &mut Vec<u64>, offset: u64)
    requires
        flagged_within_u64(sieve@, offset as int),
    ensures
        final(primes)@ == old(primes)@ + flagged_values(
            sieve@,
            offset as int,
            sieve@.len() as int,
        ),
{
    let ghost before = primes@;
    let start_offset: usize = if offset == 0 {
        2
    } else {
        0
    };
    let mut sieve_index: usize = start_offset;
    while sieve_index < sieve.len()
        invariant
            start_offset == first_candidate(offset as int),
            start_offset <= sieve_index,
            sieve_index <= sieve@.len() || sieve_index == start_offset,
            flagged_within_u64(sieve@, offset as int),
            primes@ == before + flagged_values(sieve@, offset as int, sieve_index as int),
        decreases sieve@.len() - sieve_index,
    {
        if sieve[sieve_index] {
            primes.push(sieve_index as u64 + offset);
        }
        sieve_index = sieve_index + 1;
    }
}

/// The in-memory Sieve of Eratosthenes over the numbers below
/// `config.prime_range_end`, which must fit in `usize`: one flag for each.
///
/// It marks with every number from 2 up to, not including, the floor square
/// root of the range end that is still flagged when its turn comes, and
/// returns in ascending order the numbers from 2 on that stay flagged: those
/// without a divisor from 2 on, below that root, whose square does not exceed
/// them. These are the primes below the range end unless the root is a prime
/// whose square lies inside the range, which then stays as well
/// (`theorems::lemma_full_sieve_lists_primes`).
pub fn sieve_of_eratosthenes(config: &Config) -> (primes: Vec<u64>)
    requires
        config.prime_range_end <= usize::MAX,
    ensures
        is_full_sieve_output(config.prime_range_end as int, primes@),
        strictly_ascending(primes@),
        primes@.no_duplicates(),
{
    let end: u64 = config.prime_range_end;
    let mut sieve: Vec<bool> = Vec::with_capacity(end as usize);
    let mut primes: Vec<u64> = Vec::new();

    let mut filled: u64 = 0;
    while filled < end
        invariant
            filled <= end,
            sieve@.len() == filled,
            forall|j: int| 0 <= j < filled ==> sieve@[j],
        decreases end - filled,
    {
        sieve.push(true);
        filled = filled + 1;
    }

    let root: u64 = integer_sqrt(end);
    proof {
        lemma_floor_sqrt_unique(end as int, root as int);
    }
    let mut i: u64 = 2;
    while i < root
        invariant
            2 <= i,
            i <= root || i == 2,
            is_floor_sqrt(end as int, root as int),
            end <= usize::MAX,
            sieve@.len() == end,
            forall|j: int| 0 <= j < end ==> #[trigger] sieve@[j] == kept_below_root(j, i as int),
        decreases root - i,
    {
        assert(root <= end) by (nonlinear_arith)
            requires
                root * root <= end,
                0 <= root,
        ;
        let ghost marked = sieve@;
        if sieve[i as usize] {
            sieve_prime_factor(&mut sieve, i, 0, 0);
            proof {
                assert forall|j: int| 0 <= j < end implies #[trigger] sieve@[j] == kept_below_root(
                    j,
                    i + 1,
                ) by {
                    assert(marked[j] == kept_below_root(j, i as int));
                    lemma_kept_after_marking(j, i as int);
                }
            }
        } else {
            proof {
                assert forall|j: int| 0 <= j < end implies #[trigger] sieve@[j] == kept_below_root(
                    j,
                    i + 1,
                ) by {
                    lemma_kept_without_marking(j, i as int);
                }
            }
        }
        i = i + 1;
    }

    sieve_to_primes(&sieve, &mut primes, 0);
    proof {
        lemma_flagged_values(sieve@, 0, end as int);
        assert forall|n: u64| 2 <= n < end implies sieve@[n as int] == kept_below_root(
            n as int,
            floor_sqrt(end as int),
        ) by {
            assert(sieve@[n as int] == kept_below_root(n as int, i as int));
        }
    }
    primes
}

/// Divides `total` by the numbers of `primes`, in their order, until one
/// divides it or has a square beyond it. Says whether no divisor was found.
fn passes_trial_division(primes: &Vec<u64>, total: u64) -> (unsieved: bool)
    requires
        forall|a: int| 0 <= a < primes@.len() ==> primes@[a] != 0,
    ensures
        unsieved == passes_trial(primes@, total as int),
{
    let root: u64 = integer_sqrt(total);
    let mut next: usize = 0;
    while next < primes.len()
        invariant
            next <= primes@.len(),
            is_floor_sqrt(total as int, root as int),
            forall|a: int| 0 <= a < primes@.len() ==> primes@[a] != 0,
            forall|b: int|
                0 <= b < next ==> (#[trigger] primes@[b]) * primes@[b] <= total && !divides(
                    primes@[b] as int,
                    total as int,
                ),
        decreases primes@.len() - next,
    {
        let p: u64 = primes[next];
        proof {
            lemma_below_floor_sqrt(total as int, root as int, p as int);
        }
        if p > root {
            assert forall|a: int| !trial_divisor_at(primes@, total as int, a) by {
                if next <= a < primes@.len() {
                    assert(primes@[next as int] * primes@[next as int] > total);
                }
            }
            return true;
        } else if total % p == 0 {
            assert(trial_divisor_at(primes@, total as int, next as int));
            return false;
        }
        next = next + 1;
    }
    true
}

/// Sieves the segment of `segment_size` numbers that starts at `sieve_shift`
/// and appends to `primes`, lowest first, the numbers it leaves flagged.
///
/// A number of the segment starts out flagged if trial division by the
/// numbers already in `primes`, none of which may be 0, finds no divisor of
/// it. Then each number of the segment from 2 on that is still flagged when
/// its turn comes strikes its multiples in the segment, from its square on.
/// The segment must end within the range of `u64` and its buffer fit in
/// memory.
pub fn sieve_segment(primes: &mut Vec<u64>, sieve_shift: u64, segment_size: u64)
    requires
        segment_size <= usize::MAX,
        sieve_shift + segment_size <= u64::MAX + 1,
        forall|a: int| 0 <= a < old(primes)@.len() ==> old(primes)@[a] != 0,
    ensures
        final(primes)@ == old(primes)@ + flagged_values(
            segment_flags(old(primes)@, sieve_shift as int, segment_size as int),
            sieve_shift as int,
            segment_size as int,
        ),
{
    let ghost found = primes@;
    let ghost shift = sieve_shift as int;
    let mut sieve: Vec<bool> = Vec::with_capacity(segment_size as usize);

    let mut local_offset: u64 = 0;
    while local_offset < segment_size
        invariant
            local_offset <= segment_size,
            sieve_shift + segment_size <= u64::MAX + 1,
            primes@ == found,
            forall|a: int| 0 <= a < found.len() ==> found[a] != 0,
            sieve@.len() == local_offset,
            forall|j: int| 0 <= j < local_offset ==> #[trigger] sieve@[j] == passes_trial(
                found,
                sieve_shift + j,
            ),
        decreases segment_size - local_offset,
    {
        let total_offset: u64 = local_offset + sieve_shift;
        let unsieved: bool = passes_trial_division(primes, total_offset);
        sieve.push(unsieved);
        local_offset = local_offset + 1;
    }

    local_offset = 0;
    while local_offset < segment_size
        invariant
            local_offset <= segment_size,
            segment_size <= usize::MAX,
            sieve_shift + segment_size <= u64::MAX + 1,
            shift == sieve_shift,
            sieve@.len() == segment_size,
            forall|j: int| 0 <= j < segment_size ==> #[trigger] sieve@[j] == segment_keeps(
                found,
                shift,
                shift + local_offset,
                shift + j,
            ),
        decreases segment_size - local_offset,
    {
        let total_offset: u64 = local_offset + sieve_shift;
        let ghost marked = sieve@;
        if total_offset >= 2 && sieve[local_offset as usize] {
            proof {
                lemma_below_square(total_offset as int);
            }
            sieve_prime_factor(&mut sieve, total_offset, 0, sieve_shift);
        }
        proof {
            assert forall|j: int| 0 <= j < segment_size implies #[trigger] sieve@[j]
                == segment_keeps(found, shift, shift + local_offset + 1, shift + j) by {
                assert(marked[local_offset as int] == segment_keeps(
                    found,
                    shift,
                    shift + local_offset,
                    shift + local_offset,
                ));
                lemma_segment_keeps_after_turn(found, shift, shift + local_offset, shift + j);
            }
        }
        local_offset = local_offset + 1;
    }

    proof {
        let flags = segment_flags(found, shift, segment_size as int);
        assert forall|j: int| 0 <= j < segment_size implies sieve@[j] == flags[j] by {
            lemma_segment_keeps_settled(found, shift, shift + segment_size, shift + j);
        }
        assert(sieve@ =~= flags);
    }
    sieve_to_primes(&sieve, primes, sieve_shift);
}

/// The Sieve of Eratosthenes over the numbers below `config.prime_range_end`
/// in segments of `config.sieve_segment_size`, which must be positive and fit
/// in `usize`. Only whole segments are sieved: what lies beyond the last of
/// them is left out.
///
/// With segments of 2 or more the result is the primes below the end of the
/// last whole segment, in ascending order. With segments of 1 it is the
/// number 1 alone, once the range reaches it.
///
/// Nothing is printed, whatever `config.progress` says: a caller that wants a
/// notice before each segment runs the segments itself, with
/// [`sieve_segment`].
pub fn sieve_of_eratosthenes_segmented(config: &Config) -> (primes: Vec<u64>)
    requires
        0 < config.sieve_segment_size <= usize::MAX,
    ensures
        is_segmented_sieve_output(
            config.prime_range_end as int,
            config.sieve_segment_size as int,
            primes@,
        ),
        strictly_ascending(primes@),
        primes@.no_duplicates(),
{
    let end: u64 = config.prime_range_end;
    let segment_size: u64 = config.sieve_segment_size;
    let mut primes: Vec<u64> = Vec::new();
    let total_sieve_segments: u64 = end / segment_size;
    proof {
        lemma_whole_segments_within(end as int, segment_size as int, total_sieve_segments as int);
    }

    let mut sieve_offset: u64 = 0;
    while sieve_offset < total_sieve_segments
        invariant
            sieve_offset <= total_sieve_segments,
            0 < segment_size <= usize::MAX,
            total_sieve_segments == end / segment_size,
            segment_size >= 2 ==> is_prime_list_below(sieve_offset * segment_size, primes@),
            segment_size == 1 ==> primes@ == (if sieve_offset >= 2 {
                seq![1u64]
            } else {
                Seq::<u64>::empty()
            }),
        decreases total_sieve_segments - sieve_offset,
    {
        proof {
            lemma_whole_segments_within(
                end as int,
                segment_size as int,
                sieve_offset as int + 1,
            );
        }
        let sieve_shift: u64 = sieve_offset * segment_size;
        let ghost found = primes@;
        proof {
            if segment_size >= 2 {
                assert forall|a: int| 0 <= a < found.len() implies found[a] != 0 by {
                    assert(found.contains(found[a]));
                }
                assert(sieve_shift == 0 || 2 <= sieve_shift) by (nonlinear_arith)
                    requires
                        sieve_shift == sieve_offset * segment_size,
                        2 <= segment_size,
                        0 <= sieve_offset,
                ;
                lemma_segment_extends_prime_list(found, sieve_shift as int, segment_size as int);
            } else {
                lemma_segment_of_one(found, sieve_shift as int);
            }
        }
        sieve_segment(&mut primes, sieve_shift, segment_size);
        sieve_offset = sieve_offset + 1;
    }
    primes
}

} // verus!
