//! Divisibility, primality and the floor square root, with the facts about
//! them that the sieves rest on.

use vstd::arithmetic::div_mod::{
    lemma_fundamental_div_mod, lemma_fundamental_div_mod_converse_mod, lemma_mod_multiples_basic,
    lemma_small_mod,
};
use vstd::prelude::*;

verus! {

/// `d` is a positive divisor of `n`.
pub open spec fn divides(d: int, n: int) -> bool {
    d > 0 && n % d == 0
}

/// `n` is at least 2 and no number strictly between 1 and `n` divides it.
pub open spec fn is_prime(n: int) -> bool {
    2 <= n && forall|d: int| 2 <= d < n ==> !#[trigger] divides(d, n)
}

/// `root` is the largest natural number whose square does not exceed `n`.
pub open spec fn is_floor_sqrt(n: int, root: int) -> bool {
    0 <= root && root * root <= n && n < (root + 1) * (root + 1)
}

/// The floor of the square root of `n`, for `n >= 0`.
pub open spec fn floor_sqrt(n: int) -> int {
    choose|root: int| is_floor_sqrt(n, root)
}

/// Squaring keeps the order of natural numbers.
pub proof fn lemma_square_le(a: int, b: int)
    requires
        0 <= a <= b,
    ensures
        a * a <= b * b,
{
    assert(a * a <= b * b) by (nonlinear_arith)
        requires
            0 <= a <= b,
    ;
}

/// A number from 2 on lies strictly below its square.
pub proof fn lemma_below_square(a: int)
    requires
        2 <= a,
    ensures
        a < a * a,
        2 * a <= a * a,
{
    assert(2 * a <= a * a) by (nonlinear_arith)
        requires
            2 <= a,
    ;
}

/// Only one number is the floor square root of `n`.
pub proof fn lemma_floor_sqrt_unique(n: int, root: int)
    requires
        is_floor_sqrt(n, root),
    ensures
        floor_sqrt(n) == root,
{
    let other = floor_sqrt(n);
    if other < root {
        lemma_square_le(other + 1, root);
    } else if root < other {
        lemma_square_le(root + 1, other);
    }
}

/// Every natural number has a floor square root.
pub proof fn lemma_floor_sqrt_exists(n: int)
    requires
        0 <= n,
    ensures
        is_floor_sqrt(n, floor_sqrt(n)),
    decreases n,
{
    if n == 0 {
        assert(is_floor_sqrt(0, 0));
    } else {
        lemma_floor_sqrt_exists(n - 1);
        let below = floor_sqrt(n - 1);
        if (below + 1) * (below + 1) <= n {
            assert((below + 1) * (below + 1) < (below + 2) * (below + 2)) by (nonlinear_arith)
                requires
                    0 <= below,
            ;
            assert(is_floor_sqrt(n, below + 1));
        } else {
            assert(is_floor_sqrt(n, below));
        }
    }
}

/// Below the floor square root of `n` lie exactly the numbers whose successor
/// has a square within `n`.
pub proof fn lemma_below_floor_sqrt(n: int, root: int, d: int)
    requires
        is_floor_sqrt(n, root),
        0 <= d,
    ensures
        d < root <==> (d + 1) * (d + 1) <= n,
        d <= root <==> d * d <= n,
{
    if d < root {
        lemma_square_le(d + 1, root);
    } else {
        lemma_square_le(root + 1, d + 1);
    }
    if d <= root {
        lemma_square_le(d, root);
    } else {
        lemma_square_le(root + 1, d);
    }
}

/// Every product of a positive number is one of its multiples.
pub proof fn lemma_divides_product(d: int, k: int)
    requires
        d > 0,
    ensures
        divides(d, d * k),
        divides(d, k * d),
{
    lemma_mod_multiples_basic(k, d);
    assert(d * k == k * d) by (nonlinear_arith);
}

/// A multiple is its divisor times the quotient.
pub proof fn lemma_divides_quotient(d: int, n: int)
    requires
        divides(d, n),
    ensures
        n == d * (n / d),
{
    lemma_fundamental_div_mod(n, d);
}

/// The quotient of a multiple by its divisor divides it too.
pub proof fn lemma_quotient_divides(d: int, n: int)
    requires
        divides(d, n),
        n > 0,
    ensures
        n / d > 0,
        divides(n / d, n),
        d * (n / d) == n,
{
    lemma_divides_quotient(d, n);
    let q = n / d;
    lemma_divides_product(q, d);
}

/// Divisibility passes along a chain.
pub proof fn lemma_divides_transitive(a: int, b: int, c: int)
    requires
        divides(a, b),
        divides(b, c),
    ensures
        divides(a, c),
{
    lemma_divides_quotient(a, b);
    lemma_divides_quotient(b, c);
    let j = b / a;
    let k = c / b;
    assert(c == a * (j * k)) by (nonlinear_arith)
        requires
            b == a * j,
            c == b * k,
    ;
    lemma_divides_product(a, j * k);
}

/// Between a multiple of `p` and the next one there is no other.
pub proof fn lemma_no_multiple_between(p: int, a: int, b: int)
    requires
        divides(p, a),
        a < b < a + p,
    ensures
        !divides(p, b),
{
    lemma_divides_quotient(p, a);
    let q = a / p;
    lemma_fundamental_div_mod_converse_mod(b, p, q, b - a);
}

/// The multiple after a multiple of `p` is `p` further on.
pub proof fn lemma_next_multiple(p: int, a: int)
    requires
        divides(p, a),
    ensures
        divides(p, a + p),
{
    lemma_divides_quotient(p, a);
    let q = a / p;
    assert(a + p == p * (q + 1)) by (nonlinear_arith)
        requires
            a == p * q,
    ;
    lemma_divides_product(p, q + 1);
}

/// A number from 2 on that is not prime has a prime factor whose square does
/// not exceed it.
pub proof fn lemma_small_prime_factor(n: int) -> (q: int)
    requires
        2 <= n,
        !is_prime(n),
    ensures
        is_prime(q),
        divides(q, n),
        q * q <= n,
    decreases n,
{
    let d = choose|d: int| 2 <= d < n && divides(d, n);
    lemma_quotient_divides(d, n);
    let e = n / d;
    assert(2 <= e) by (nonlinear_arith)
        requires
            2 <= d < n,
            d * e == n,
    ;
    let m = if d <= e { d } else { e };
    assert(m * m <= n) by (nonlinear_arith)
        requires
            d * e == n,
            2 <= d,
            2 <= e,
            m == d || m == e,
            m <= d,
            m <= e,
    ;
    if is_prime(m) {
        m
    } else {
        let q = lemma_small_prime_factor(m);
        lemma_divides_transitive(q, m, n);
        q
    }
}

/// A prime has no divisor from 2 on whose square stays within it.
pub proof fn lemma_prime_has_no_small_divisor(n: int, d: int)
    requires
        is_prime(n),
        2 <= d,
        d * d <= n,
    ensures
        !divides(d, n),
{
    lemma_below_square(d);
}

/// A prime divides no product of two positive numbers below it.
pub proof fn lemma_prime_divides_no_small_product(q: int, a: int, b: int)
    requires
        is_prime(q),
        0 < a < q,
        0 < b < q,
    ensures
        !divides(q, a * b),
    decreases a,
{
    if a == 1 {
        lemma_small_mod(b as nat, q as nat);
    } else if divides(q, a * b) {
        let k = q / a;
        let rest = q % a;
        lemma_fundamental_div_mod(q, a);
        assert(!divides(a, q));
        let product = a * b;
        lemma_divides_quotient(q, product);
        let times = product / q;
        assert(rest * b == q * (b - k * times)) by (nonlinear_arith)
            requires
                q == a * k + rest,
                product == a * b,
                product == q * times,
        ;
        lemma_divides_product(q, b - k * times);
        lemma_prime_divides_no_small_product(q, rest, b);
    }
}

/// No number strictly between 1 and a prime divides the square of the prime.
pub proof fn lemma_prime_square_divisors(r: int, d: int)
    requires
        is_prime(r),
        2 <= d < r,
    ensures
        !divides(d, r * r),
{
    let square = r * r;
    if divides(d, square) {
        lemma_below_square(r);
        lemma_quotient_divides(d, square);
        let e = square / d;
        let f = e / r;
        let rest = e % r;
        lemma_fundamental_div_mod(e, r);
        if rest == 0 {
            assert(d * f == r) by (nonlinear_arith)
                requires
                    d * e == r * r,
                    e == r * f,
                    r > 0,
            ;
            lemma_divides_product(d, f);
        } else {
            assert(d * rest == r * (r - d * f)) by (nonlinear_arith)
                requires
                    d * e == r * r,
                    e == r * f + rest,
            ;
            lemma_divides_product(r, r - d * f);
            lemma_prime_divides_no_small_product(r, d, rest);
        }
    }
}

} // verus!
