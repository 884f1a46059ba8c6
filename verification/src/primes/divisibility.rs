//! Elementary facts about exact division and about primes.

use crate::primes::model::{divides, ntt_friendly, prime};
use vstd::arithmetic::div_mod::{lemma_fundamental_div_mod, lemma_mod_multiples_basic};
use vstd::prelude::*;

verus! {

/// A multiple of `d` is divisible by `d`.
pub proof fn lemma_divides_multiple(d: int, k: int)
    requires
        d != 0,
    ensures
        divides(d, d * k),
        divides(d, k * d),
{
    if d > 0 {
        lemma_mod_multiples_basic(k, d);
    } else {
        assert((k * d) % d == 0) by (nonlinear_arith)
            requires
                d < 0,
        ;
    }
    assert(d * k == k * d) by (nonlinear_arith);
}

/// A positive divisor `d` of `n` comes with its cofactor `n / d`.
pub proof fn lemma_cofactor(d: int, n: int)
    requires
        d > 0,
        divides(d, n),
    ensures
        n == d * (n / d),
        n == (n / d) * d,
        n > 0 ==> n / d > 0 && divides(n / d, n),
{
    lemma_fundamental_div_mod(n, d);
    let c = n / d;
    assert(d * c == c * d) by (nonlinear_arith);
    if n > 0 {
        assert(c > 0) by (nonlinear_arith)
            requires
                d > 0,
                n > 0,
                n == d * c,
        ;
        lemma_divides_multiple(c, d);
    }
}

/// Divisibility is transitive.
pub proof fn lemma_divides_trans(a: int, b: int, c: int)
    requires
        a > 0,
        b > 0,
        divides(a, b),
        divides(b, c),
    ensures
        divides(a, c),
{
    lemma_cofactor(a, b);
    lemma_cofactor(b, c);
    let x = b / a;
    let y = c / b;
    assert(c == a * (x * y)) by (nonlinear_arith)
        requires
            b == a * x,
            c == b * y,
    ;
    lemma_divides_multiple(a, x * y);
}

/// A positive divisor of a positive number is no larger than that number.
pub proof fn lemma_divisor_bound(d: int, n: int)
    requires
        d > 0,
        n > 0,
        divides(d, n),
    ensures
        d <= n,
{
    lemma_cofactor(d, n);
    let c = n / d;
    assert(d <= n) by (nonlinear_arith)
        requires
            n == d * c,
            c > 0,
            d > 0,
    ;
}

/// A common divisor of two numbers divides each of their integer combinations.
pub proof fn lemma_divides_combination(d: int, x: int, y: int, a: int, b: int)
    requires
        d > 0,
        divides(d, x),
        divides(d, y),
    ensures
        divides(d, a * x + b * y),
{
    lemma_fundamental_div_mod(x, d);
    lemma_fundamental_div_mod(y, d);
    let u = x / d;
    let v = y / d;
    assert(a * x + b * y == d * (a * u + b * v)) by (nonlinear_arith)
        requires
            x == d * u,
            y == d * v,
    ;
    lemma_divides_multiple(d, a * u + b * v);
}

/// A prime `p` that divides `m * b` for some `0 < m < p` divides `b`.
proof fn lemma_prime_cancels_small_factor(p: int, m: int, b: int)
    requires
        prime(p),
        0 < m < p,
        divides(p, m * b),
    ensures
        divides(p, b),
    decreases m,
{
    if m == 1 {
        assert(m * b == b) by (nonlinear_arith)
            requires
                m == 1,
        ;
    } else {
        let q = p / m;
        let r = p % m;
        lemma_fundamental_div_mod(p, m);
        vstd::arithmetic::div_mod::lemma_mod_bound(p, m);
        assert(!divides(m, p));
        lemma_divides_multiple(p, b);
        // r * b is a combination of p * b and m * b
        lemma_divides_combination(p, p * b, m * b, 1, -q);
        assert(1 * (p * b) + (-q) * (m * b) == r * b) by (nonlinear_arith)
            requires
                p == m * q + r,
        ;
        lemma_prime_cancels_small_factor(p, r, b);
    }
}

/// Euclid's lemma: a prime that divides a product divides one of the factors.
pub proof fn lemma_euclid(p: int, a: int, b: int)
    requires
        prime(p),
        divides(p, a * b),
    ensures
        divides(p, a) || divides(p, b),
{
    let m = a % p;
    if m != 0 {
        let q = a / p;
        lemma_fundamental_div_mod(a, p);
        vstd::arithmetic::div_mod::lemma_mod_bound(a, p);
        lemma_divides_multiple(p, b);
        lemma_divides_combination(p, a * b, p * b, 1, -q);
        assert(1 * (a * b) + (-q) * (p * b) == m * b) by (nonlinear_arith)
            requires
                a == p * q + m,
        ;
        lemma_prime_cancels_small_factor(p, m, b);
    }
}

/// The only prime divisor of a prime is that prime itself.
pub proof fn lemma_prime_divisor_of_prime(p: int, q: int)
    requires
        prime(p),
        prime(q),
        divides(p, q),
    ensures
        p == q,
{
    lemma_divisor_bound(p, q);
}

/// An NTT-friendly modulus lies above `2n`, so it is at least 3.
pub proof fn lemma_ntt_friendly_bounds(q: int, n: int)
    requires
        ntt_friendly(q, n),
    ensures
        2 * n < q,
        3 <= q,
{
    if q < 2 * n {
        vstd::arithmetic::div_mod::lemma_small_mod(q as nat, (2 * n) as nat);
    }
    if q == 2 * n {
        vstd::arithmetic::div_mod::lemma_mod_self_0(q);
    }
}

/// Trial division may stop at the square root: a number without a divisor in `[2, bound)`,
/// where `bound * bound` exceeds it, is prime.
pub proof fn lemma_trial_division_complete(n: int, bound: int)
    requires
        n >= 2,
        bound >= 2,
        bound * bound > n,
        forall|d: int| 2 <= d < bound ==> !#[trigger] divides(d, n),
    ensures
        prime(n),
{
    assert forall|d: int| 2 <= d < n implies !#[trigger] divides(d, n) by {
        if divides(d, n) {
            lemma_cofactor(d, n);
            let c = n / d;
            assert(2 <= c) by (nonlinear_arith)
                requires
                    n == d * c,
                    2 <= d < n,
                    c > 0,
            ;
            if d >= bound {
                assert(c < bound) by (nonlinear_arith)
                    requires
                        n == d * c,
                        d >= bound,
                        bound >= 2,
                        bound * bound > n,
                        c > 0,
                ;
                assert(!divides(c, n));
            }
        }
    }
}

} // verus!
