//! Multiplicative orders modulo a prime: what the generator test decides, and the order of
//! the root of unity that a generator yields.

use crate::primes::divisibility::{lemma_cofactor, lemma_divides_multiple, lemma_divides_trans};
use crate::primes::fermat::lemma_fermat_little;
use crate::primes::model::{
    divides, has_order, ntt_friendly, passes_generator_test, pow_mod, prime, prime_factor,
};
use crate::primes::powers::{lemma_pow_mod_adds, lemma_pow_mod_one_multiple};
use vstd::arithmetic::div_mod::{
    lemma_div_multiples_vanish, lemma_fundamental_div_mod, lemma_mod_bound, lemma_small_mod,
};
use vstd::arithmetic::power::{lemma_pow_mod_noop, lemma_pow_multiplies, pow};
use vstd::prelude::*;

verus! {

/// Every number from 2 up has a prime factor.
pub proof fn lemma_prime_factor_exists(c: int) -> (f: int)
    requires
        c >= 2,
    ensures
        prime(f),
        divides(f, c),
    decreases c,
{
    if prime(c) {
        assert(c % c == 0) by (nonlinear_arith)
            requires
                c >= 2,
        ;
        c
    } else {
        let d = choose|d: int| 2 <= d < c && divides(d, c);
        let f = lemma_prime_factor_exists(d);
        lemma_divides_trans(f, d, c);
        f
    }
}

/// The quotient of a product by one of its factors.
proof fn lemma_div_of_product(f: int, x: int)
    requires
        f > 0,
    ensures
        (f * x) / f == x,
        (x * f) / f == x,
{
    lemma_div_multiples_vanish(x, f);
    assert(f * x == x * f) by (nonlinear_arith);
}

/// The exponents `k` with `a^k ≡ 1` are closed under taking remainders.
pub proof fn lemma_pow_mod_remainder(a: int, k: int, x: int, m: int)
    requires
        m > 1,
        k >= 1,
        x >= 0,
        pow_mod(a, k, m) == 1,
        pow_mod(a, x, m) == 1,
    ensures
        pow_mod(a, x % k, m) == 1,
{
    let c = x / k;
    let r = x % k;
    lemma_fundamental_div_mod(x, k);
    lemma_mod_bound(x, k);
    assert(c >= 0 && k * c >= 0) by (nonlinear_arith)
        requires
            x == k * c + r,
            0 <= r < k,
            x >= 0,
    ;
    // a^x = a^(k * c) * a^r, and a^(k * c) ≡ 1
    lemma_pow_mod_one_multiple(a, k as nat, c as nat, m);
    lemma_pow_mod_adds(a, (k * c) as nat, r as nat, m);
    lemma_mod_bound(pow(a, r as nat), m);
    lemma_small_mod(pow_mod(a, r, m) as nat, m as nat);
    assert(1 * pow_mod(a, r, m) == pow_mod(a, r, m));
}

/// If `a^total ≡ 1` and also `a^k ≡ 1` for some `1 ≤ k < total`, then already
/// `a^(total / f) ≡ 1` for a prime factor `f` of `total`.
pub proof fn lemma_order_descent(a: int, k: int, total: int, m: int) -> (f: int)
    requires
        m > 1,
        1 <= k < total,
        pow_mod(a, total, m) == 1,
        pow_mod(a, k, m) == 1,
    ensures
        prime_factor(f, total),
        pow_mod(a, total / f, m) == 1,
    decreases k,
{
    let c = total / k;
    let r = total % k;
    lemma_fundamental_div_mod(total, k);
    lemma_mod_bound(total, k);
    assert(c >= 1) by (nonlinear_arith)
        requires
            total == k * c + r,
            0 <= r < k,
            k < total,
    ;
    if r == 0 {
        assert(c >= 2) by (nonlinear_arith)
            requires
                total == k * c,
                1 <= k < total,
        ;
        let f = lemma_prime_factor_exists(c);
        lemma_cofactor(f, c);
        let rem = c / f;
        assert(total == f * (k * rem)) by (nonlinear_arith)
            requires
                total == k * c,
                c == f * rem,
        ;
        lemma_divides_multiple(f, k * rem);
        lemma_div_of_product(f, k * rem);
        assert(k * rem >= 0) by (nonlinear_arith)
            requires
                k >= 1,
                rem > 0,
        ;
        lemma_pow_mod_one_multiple(a, k as nat, rem as nat, m);
        f
    } else {
        lemma_pow_mod_remainder(a, k, total, m);
        lemma_order_descent(a, r, total, m)
    }
}

/// For a prime `p` and `g` not divisible by it, the generator test is passed exactly by
/// the elements of order `p - 1`, the generators of the multiplicative group.
pub proof fn lemma_generator_test_decides_order(g: int, p: int)
    requires
        prime(p),
        g % p != 0,
    ensures
        passes_generator_test(g, p) <==> has_order(g, p - 1, p),
{
    let total = p - 1;
    lemma_fermat_little(g, p);
    if passes_generator_test(g, p) {
        assert forall|d: int| 1 <= d < total implies #[trigger] pow_mod(g, d, p) != 1 by {
            if pow_mod(g, d, p) == 1 {
                let f = lemma_order_descent(g, d, total, p);
                assert(prime_factor(f, p - 1));
            }
        }
    }
    if has_order(g, total, p) {
        assert forall|f: int| #[trigger] prime_factor(f, p - 1) implies pow_mod(
            g,
            (p - 1) / f,
            p,
        ) != 1 by {
            lemma_cofactor(f, total);
            let e = total / f;
            assert(e < total) by (nonlinear_arith)
                requires
                    total == f * e,
                    f >= 2,
                    e > 0,
            ;
        }
    }
}

/// A power of a reduced power is the reduced power to the product of the exponents.
pub proof fn lemma_pow_mod_nested(g: int, e: nat, d: nat, m: int)
    requires
        m > 0,
    ensures
        pow_mod(pow_mod(g, e as int, m), d as int, m) == pow_mod(g, (e * d) as int, m),
{
    lemma_pow_mod_noop(pow(g, e), d, m);
    lemma_pow_multiplies(g, e, d);
}

/// Raising an element `g` of order `q - 1` to the power `(q - 1) / 2n` gives an element
/// of order `2n`, where `2n` divides `q - 1`.
pub proof fn lemma_root_from_generator(g: int, q: int, n: int)
    requires
        ntt_friendly(q, n),
        has_order(g, q - 1, q),
    ensures
        has_order(pow_mod(g, (q - 1) / (2 * n), q), 2 * n, q),
{
    let total = q - 1;
    let t = 2 * n;
    lemma_fundamental_div_mod(q, t);
    let e = total / t;
    assert(total == t * (q / t));
    lemma_div_of_product(t, q / t);
    assert(e == q / t);
    assert(e >= 1) by (nonlinear_arith)
        requires
            total == t * e,
            total >= 1,
            t >= 2,
    ;
    let psi = pow_mod(g, e, q);
    lemma_pow_mod_nested(g, e as nat, t as nat, q);
    assert(e * t == total) by (nonlinear_arith)
        requires
            total == t * e,
    ;
    assert forall|d: int| 1 <= d < t implies #[trigger] pow_mod(psi, d, q) != 1 by {
        lemma_pow_mod_nested(g, e as nat, d as nat, q);
        assert(1 <= e * d < total) by (nonlinear_arith)
            requires
                total == t * e,
                e >= 1,
                1 <= d < t,
        ;
        assert(pow_mod(g, e * d, q) != 1);
    }
}

} // verus!
