//! The multiplicative group of a prime has a generator: an element that passes the
//! generator test is built up prime factor by prime factor of the group order.

use crate::primes::divisibility::{
    lemma_cofactor, lemma_divisor_bound, lemma_euclid, lemma_prime_divisor_of_prime,
};
use crate::primes::fermat::lemma_fermat_little;
use crate::primes::model::{
    divides, has_order, passes_generator_test, pow_mod, prime, prime_factor,
};
use crate::primes::orders::{
    lemma_generator_test_decides_order, lemma_pow_mod_nested, lemma_pow_mod_remainder,
    lemma_prime_factor_exists,
};
use crate::primes::polynomials::lemma_not_all_roots_of_unity;
use crate::primes::powers::{lemma_mul_mod, lemma_pow_mod_one_multiple};
use vstd::arithmetic::div_mod::{lemma_mod_bound, lemma_small_mod};
use vstd::arithmetic::power::{
    lemma0_pow, lemma1_pow, lemma_pow1, lemma_pow_distributes, lemma_pow_mod_noop, pow,
};
use vstd::prelude::*;

verus! {

/// Dividing `n` by the prime `f0` as often as it goes leaves a number that `f0` does not
/// divide, but every other prime factor of `n` still does.
proof fn lemma_strip_prime(n: int, f0: int) -> (m: int)
    requires
        n >= 1,
        prime(f0),
    ensures
        m >= 1,
        !divides(f0, m),
        forall|f: int| prime(f) && f != f0 && #[trigger] divides(f, n) ==> divides(f, m),
    decreases n,
{
    if divides(f0, n) {
        lemma_cofactor(f0, n);
        let c = n / f0;
        assert(c < n) by (nonlinear_arith)
            requires
                n == f0 * c,
                f0 >= 2,
                c > 0,
        ;
        let m = lemma_strip_prime(c, f0);
        assert forall|f: int| prime(f) && f != f0 && #[trigger] divides(f, n) implies divides(
            f,
            m,
        ) by {
            lemma_euclid(f, f0, c);
            if divides(f, f0) {
                lemma_prime_divisor_of_prime(f, f0);
            }
            assert(divides(f, c));
        }
        m
    } else {
        n
    }
}

/// An element `z` with `z^f ≡ 1` for a prime `f` and `z^r ≡ 1` for some `0 < r < f` is
/// itself `≡ 1`.
proof fn lemma_prime_order_below(z: int, f: int, r: int, m: int)
    requires
        m > 1,
        prime(f),
        0 < r < f,
        pow_mod(z, f, m) == 1,
        pow_mod(z, r, m) == 1,
    ensures
        pow_mod(z, 1, m) == 1,
    decreases r,
{
    if r > 1 {
        assert(!divides(r, f));
        lemma_mod_bound(f, r);
        lemma_pow_mod_remainder(z, r, f, m);
        lemma_prime_order_below(z, f, f % r, m);
    }
}

/// An element `z` with `z^f ≡ 1` for a prime `f` and `z^k ≡ 1` for some `k` that `f` does
/// not divide is itself `≡ 1`.
proof fn lemma_prime_order(z: int, f: int, k: int, m: int)
    requires
        m > 1,
        prime(f),
        k >= 0,
        k % f != 0,
        pow_mod(z, f, m) == 1,
        pow_mod(z, k, m) == 1,
    ensures
        pow_mod(z, 1, m) == 1,
{
    lemma_mod_bound(k, f);
    lemma_pow_mod_remainder(z, f, k, m);
    lemma_prime_order_below(z, f, k % f, m);
}

/// The reduced power of a product is the reduced product of the reduced powers.
proof fn lemma_pow_mod_product(x: int, b: int, e: nat, m: int)
    requires
        m > 0,
    ensures
        pow_mod(x * b, e as int, m) == (pow_mod(x, e as int, m) * pow_mod(b, e as int, m)) % m,
{
    lemma_pow_distributes(x, b, e);
    lemma_mul_mod(pow(x, e), pow(b, e), m);
}

/// Given a unit `x` modulo the prime `p` and a prime factor `f0` of `p - 1`, there is a
/// unit `y` that passes the generator test at `f0`, and at every other prime factor at
/// which `x` passes it.
proof fn lemma_extend(p: int, x: int, f0: int) -> (y: int)
    requires
        prime(p),
        pow_mod(x, p - 1, p) == 1,
        prime_factor(f0, p - 1),
    ensures
        pow_mod(y, p - 1, p) == 1,
        pow_mod(y, (p - 1) / f0, p) != 1,
        forall|f: int| #[trigger]
            prime_factor(f, p - 1) && f != f0 && pow_mod(x, (p - 1) / f, p) != 1 ==> pow_mod(
                y,
                (p - 1) / f,
                p,
            ) != 1,
{
    let total = p - 1;
    let d0 = total / f0;
    lemma_cofactor(f0, total);
    assert(d0 < total) by (nonlinear_arith)
        requires
            total == f0 * d0,
            f0 >= 2,
            d0 > 0,
    ;
    if pow_mod(x, d0, p) != 1 {
        x
    } else {
        let a = lemma_not_all_roots_of_unity(p, d0 as nat);
        let m0 = lemma_strip_prime(total, f0);
        let b = pow_mod(a, m0, p);
        let y = x * b;
        lemma_small_mod(a as nat, p as nat);
        lemma_fermat_little(a, p);
        lemma_small_mod(1, p as nat);

        // b^total ≡ 1, hence y^total ≡ 1
        assert(pow_mod(b, total, p) == 1) by {
            lemma_pow_mod_nested(a, m0 as nat, total as nat, p);
            lemma_pow_mod_one_multiple(a, total as nat, m0 as nat, p);
            assert(m0 * total == total * m0) by (nonlinear_arith);
        }
        lemma_pow_mod_product(x, b, total as nat, p);

        // b^d0 = z^m0 for z = a^d0, of prime order f0, which does not divide m0
        let z = pow_mod(a, d0, p);
        assert(pow_mod(b, d0, p) != 1) by {
            lemma_pow_mod_nested(a, m0 as nat, d0 as nat, p);
            lemma_pow_mod_nested(a, d0 as nat, m0 as nat, p);
            assert(m0 * d0 == d0 * m0) by (nonlinear_arith);
            lemma_pow_mod_nested(a, d0 as nat, f0 as nat, p);
            assert(d0 * f0 == total) by (nonlinear_arith)
                requires
                    total == f0 * d0,
            ;
            lemma_mod_bound(pow(a, d0 as nat), p);
            lemma_pow1(z);
            lemma_small_mod(z as nat, p as nat);
            assert(pow_mod(z, 1, p) == z);
            if pow_mod(z, m0, p) == 1 {
                lemma_prime_order(z, f0, m0, p);
            }
        }
        lemma_pow_mod_product(x, b, d0 as nat, p);
        lemma_mod_bound(pow(b, d0 as nat), p);
        lemma_small_mod(pow_mod(b, d0, p) as nat, p as nat);
        assert(1 * pow_mod(b, d0, p) == pow_mod(b, d0, p));

        assert forall|f: int| #[trigger]
            prime_factor(f, p - 1) && f != f0 && pow_mod(x, (p - 1) / f, p) != 1 implies pow_mod(
            y,
            (p - 1) / f,
            p,
        ) != 1 by {
            let d = total / f;
            lemma_cofactor(f, total);
            assert(divides(f, m0));
            lemma_cofactor(f, m0);
            let rest = m0 / f;
            assert(rest >= 0) by (nonlinear_arith)
                requires
                    m0 == f * rest,
                    m0 >= 1,
                    f >= 2,
            ;
            assert(m0 * d == total * rest) by (nonlinear_arith)
                requires
                    m0 == f * rest,
                    total == f * d,
            ;
            lemma_pow_mod_nested(a, m0 as nat, d as nat, p);
            lemma_pow_mod_one_multiple(a, total as nat, rest as nat, p);
            assert(pow_mod(b, d, p) == 1);
            lemma_pow_mod_product(x, b, d as nat, p);
            lemma_mod_bound(pow(x, d as nat), p);
            lemma_small_mod(pow_mod(x, d, p) as nat, p as nat);
            assert(pow_mod(x, d, p) * 1 == pow_mod(x, d, p));
        }
        y
    }
}

/// There is a unit modulo the prime `p` that passes the generator test at every prime
/// factor of `p - 1` up to `k`.
proof fn lemma_build_generator(p: int, k: int) -> (x: int)
    requires
        prime(p),
        k >= 1,
    ensures
        pow_mod(x, p - 1, p) == 1,
        forall|f: int| #[trigger]
            prime_factor(f, p - 1) && f <= k ==> pow_mod(x, (p - 1) / f, p) != 1,
    decreases k,
{
    if k == 1 {
        lemma1_pow((p - 1) as nat);
        lemma_small_mod(1, p as nat);
        1
    } else {
        let x0 = lemma_build_generator(p, k - 1);
        if prime_factor(k, p - 1) {
            lemma_extend(p, x0, k)
        } else {
            x0
        }
    }
}

/// Every prime from 3 up has a generator of its multiplicative group among `2, ..., p - 1`:
/// an element of order `p - 1`, which passes the generator test.
pub proof fn lemma_generator_exists(p: int) -> (g: int)
    requires
        prime(p),
        p >= 3,
    ensures
        2 <= g < p,
        passes_generator_test(g, p),
        has_order(g, p - 1, p),
{
    let total = p - 1;
    let x = lemma_build_generator(p, total);
    let g = x % p;
    lemma_mod_bound(x, p);
    assert forall|f: int| #[trigger] prime_factor(f, p - 1) implies pow_mod(g, (p - 1) / f, p)
        != 1 by {
        lemma_divisor_bound(f, total);
        lemma_cofactor(f, total);
        lemma_pow_mod_noop(x, (total / f) as nat, p);
    }
    lemma_pow_mod_noop(x, total as nat, p);
    if g == 0 {
        lemma0_pow(total as nat);
        lemma_small_mod(0, p as nat);
    }
    if g == 1 {
        let f = lemma_prime_factor_exists(total);
        assert(prime_factor(f, p - 1));
        lemma_cofactor(f, total);
        lemma1_pow((total / f) as nat);
        lemma_small_mod(1, p as nat);
    }
    lemma_small_mod(g as nat, p as nat);
    lemma_generator_test_decides_order(g, p);
    g
}

} // verus!
