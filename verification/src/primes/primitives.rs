//! Number-theoretic primitives: primality, modular exponentiation, factorisation
//! and the search for primitive roots of unity.

use crate::primes::divisibility::{
    lemma_cofactor, lemma_divides_trans, lemma_divisor_bound, lemma_euclid,
    lemma_ntt_friendly_bounds, lemma_prime_divisor_of_prime, lemma_trial_division_complete,
};
use crate::primes::generators::lemma_generator_exists;
use crate::primes::model::{
    ascending, divides, has_order, least_generator, lists_prime_factors, ntt_friendly,
    passes_generator_test, pow_mod, prime, prime_factor, primitive_root_found,
};
use crate::primes::orders::{lemma_generator_test_decides_order, lemma_root_from_generator};
use crate::primes::powers::lemma_square_and_multiply_step;
use vstd::arithmetic::power::pow;
use vstd::prelude::*;

verus! {

/// Relates the loop test `i <= n / i` to the product `i * i`.
proof fn lemma_square_vs_quotient(i: int, n: int)
    requires
        i > 0,
        n >= 0,
    ensures
        i <= n / i <==> i * i <= n,
{
    vstd::arithmetic::div_mod::lemma_fundamental_div_mod(n, i);
    vstd::arithmetic::div_mod::lemma_mod_bound(n, i);
    let c = n / i;
    let r = n % i;
    if i <= c {
        assert(i * i <= n) by (nonlinear_arith)
            requires
                0 < i <= c,
                n == i * c + r,
                0 <= r,
        ;
    } else {
        assert(i * i > n) by (nonlinear_arith)
            requires
                i > c,
                c >= 0,
                n == i * c + r,
                0 <= r < i,
        ;
    }
}

/// Decides primality by exhaustive trial division with the odd numbers up to the square root.
pub fn is_prime(n: u64) -> (r: bool)
    ensures
        r == prime(n as int),
        n < 2 ==> !r,
        n == 2 ==> r,
        n > 2 && n % 2 == 0 ==> !r,
{
    if n < 2 {
        return false;
    }
    if n == 2 {
        return true;
    }
    if n % 2 == 0 {
        assert(divides(2, n as int));
        return false;
    }
    let mut i: u64 = 3;
    while i <= n / i
        invariant
            n > 2,
            n % 2 == 1,
            3 <= i <= n,
            i % 2 == 1,
            forall|d: int| 2 <= d < i ==> !#[trigger] divides(d, n as int),
        decreases n - i,
    {
        proof {
            lemma_square_vs_quotient(i as int, n as int);
            assert(i < n) by (nonlinear_arith)
                requires
                    3 <= i,
                    i * i <= n,
            ;
        }
        if n % i == 0 {
            assert(divides(i as int, n as int));
            return false;
        }
        proof {
            if divides(i + 1, n as int) {
                assert(divides(2, i + 1));
                lemma_divides_trans(2, i + 1, n as int);
            }
        }
        i += 2;
    }
    proof {
        lemma_square_vs_quotient(i as int, n as int);
        lemma_trial_division_complete(n as int, i as int);
    }
    true
}

/// Whether `q` is a prime with `q ≡ 1 (mod 2n)`, for a ring dimension `n ≥ 1`.
pub fn is_ntt_friendly_prime(q: u64, n: u64) -> (r: bool)
    ensures
        r == ntt_friendly(q as int, n as int),
        r ==> prime(q as int) && (q as int) % (2 * n) == 1,
        r ==> 2 * n < q,
        q < 2 || n < 1 ==> !r,
{
    if q < 2 || n < 1 {
        return false;
    }
    if n > u64::MAX / 2 {
        // 2n is above every 64-bit q, whose residue is then q itself, not 1
        proof {
            vstd::arithmetic::div_mod::lemma_small_mod(q as nat, (2 * n) as nat);
        }
        return false;
    }
    let two_n = 2 * n;
    proof {
        if ntt_friendly(q as int, n as int) {
            lemma_ntt_friendly_bounds(q as int, n as int);
        }
    }
    q % two_n == 1 && is_prime(q)
}

/// The product of two residues, reduced again; the product is formed in 128 bits.
fn mul_mod(x: u64, y: u64, modulus: u64) -> (r: u64)
    requires
        modulus > 0,
    ensures
        r == (x * y) % (modulus as int),
        r < modulus,
{
    assert(x * y <= u64::MAX * u64::MAX) by (nonlinear_arith)
        requires
            x <= u64::MAX,
            y <= u64::MAX,
    ;
    let wide: u128 = (x as u128) * (y as u128) % (modulus as u128);
    wide as u64
}

/// Computes `base^exp mod modulus` by binary square-and-multiply.
pub fn mod_exp(base: u64, exp: u64, modulus: u64) -> (r: u64)
    requires
        modulus > 0,
    ensures
        r == pow_mod(base as int, exp as int, modulus as int),
        r < modulus,
        modulus == 1 ==> r == 0,
        modulus > 1 && exp == 0 ==> r == 1,
{
    if modulus == 1 {
        return 0;
    }
    let ghost m = modulus as int;
    let ghost goal = pow(base as int, exp as nat) % m;
    let mut result: u64 = 1;
    let mut b: u64 = base % modulus;
    let mut e: u64 = exp;
    proof {
        vstd::arithmetic::power::lemma_pow_mod_noop(base as int, exp as nat, m);
        assert(1 * pow(b as int, e as nat) == pow(b as int, e as nat));
    }
    while e > 0
        invariant
            m == modulus,
            modulus > 1,
            result < modulus,
            b < modulus,
            (result * pow(b as int, e as nat)) % m == goal,
        decreases e,
    {
        proof {
            lemma_square_and_multiply_step(result as int, b as int, e as nat, m);
        }
        if e % 2 == 1 {
            result = mul_mod(result, b, modulus);
        }
        b = mul_mod(b, b, modulus);
        e /= 2;
    }
    proof {
        vstd::arithmetic::power::lemma_pow0(b as int);
        vstd::arithmetic::div_mod::lemma_small_mod(result as nat, modulus as nat);
        if exp == 0 {
            vstd::arithmetic::power::lemma_pow0(base as int);
            vstd::arithmetic::div_mod::lemma_small_mod(1, modulus as nat);
        }
    }
    result
}

/// Finds a primitive `2n`-th root of unity modulo an NTT-friendly prime `q`: the smallest
/// generator `g ≥ 2` of the multiplicative group, raised to the power `(q - 1) / 2n`.
/// `None` exactly if `q` is not NTT-friendly for `n`: a prime always has a generator.
pub fn find_primitive_root(q: u64, n: u64) -> (r: Option<u64>)
    ensures
        r is Some <==> ntt_friendly(q as int, n as int),
        r matches Some(psi) ==> primitive_root_found(q as int, n as int, psi as int),
        r matches Some(psi) ==> has_order(psi as int, 2 * n, q as int),
{
    if !is_ntt_friendly_prime(q, n) {
        return None;
    }
    let two_n = 2 * n;
    let phi = q - 1;

    // Find a generator of the multiplicative group
    let mut candidate: u64 = 2;
    while candidate < q
        invariant
            2 <= candidate <= q,
            ntt_friendly(q as int, n as int),
            two_n == 2 * n,
            phi == q - 1,
            forall|h: int| 2 <= h < candidate ==> !#[trigger] passes_generator_test(h, q as int),
        decreases q - candidate,
    {
        if is_generator(candidate, q) {
            proof {
                assert(least_generator(candidate as int, q as int));
                vstd::arithmetic::div_mod::lemma_small_mod(candidate as nat, q as nat);
                lemma_generator_test_decides_order(candidate as int, q as int);
                lemma_root_from_generator(candidate as int, q as int, n as int);
            }
            // The primitive 2n-th root is g^((q-1)/(2n))
            return Some(mod_exp(candidate, phi / two_n, q));
        }
        candidate += 1;
    }
    proof {
        // the scan cannot come up empty
        let g = lemma_generator_exists(q as int);
        assert(!passes_generator_test(g, q as int));
    }
    None
}

/// Applies the generator test to `g` modulo `p`. For a prime `p` and `g` not divisible by
/// `p`, passing the test means generating the whole multiplicative group.
pub fn is_generator(g: u64, p: u64) -> (r: bool)
    requires
        p >= 1,
    ensures
        r == passes_generator_test(g as int, p as int),
        prime(p as int) && g % p != 0 ==> r == has_order(g as int, p - 1, p as int),
{
    proof {
        if prime(p as int) && g % p != 0 {
            lemma_generator_test_decides_order(g as int, p as int);
        }
    }
    let phi = p - 1;

    // Check that g^((p-1)/f) != 1 for every prime factor f
    let factors = prime_factors(phi);
    let mut k: usize = 0;
    while k < factors.len()
        invariant
            k <= factors.len(),
            phi == p - 1,
            prime(p as int) && g % p != 0 ==> passes_generator_test(g as int, p as int)
                == has_order(g as int, p - 1, p as int),
            lists_prime_factors(factors@, phi as int),
            forall|i: int|
                0 <= i < k ==> pow_mod(
                    g as int,
                    phi as int / (#[trigger] factors@[i] as int),
                    p as int,
                ) != 1,
        decreases factors.len() - k,
    {
        let factor = factors[k];
        assert(prime_factor(factor as int, phi as int));
        if mod_exp(g, phi / factor, p) == 1 {
            return false;
        }
        k += 1;
    }
    assert forall|f: int| #[trigger] prime_factor(f, phi as int) implies pow_mod(
        g as int,
        phi as int / f,
        p as int,
    ) != 1 by {
        let i = choose|i: int| 0 <= i < factors@.len() && factors@[i] == f;
        assert(factors@[i] as int == f);
    }
    true
}

/// What the factorisation loops maintain: `found` holds the prime factors of `n` met so far,
/// none above `bound`; `rest` is what is left of `n`, free of divisors below `bound`; and
/// every prime factor of `n` is in `found` or still divides `rest`.
spec fn factoring_state(found: Seq<u64>, rest: int, n: int, bound: int) -> bool {
    &&& n >= 1
    &&& rest >= 1
    &&& divides(rest, n)
    &&& ascending(found)
    &&& forall|i: int|
        0 <= i < found.len() ==> prime_factor(#[trigger] found[i] as int, n) && found[i] <= bound
    &&& forall|p: int| #[trigger]
        prime_factor(p, n) ==> divides(p, rest) || exists|i: int|
            0 <= i < found.len() && found[i] == p
    &&& forall|d: int| 2 <= d < bound ==> !#[trigger] divides(d, rest)
}

/// Dividing `rest` by a divisor `f` at the current bound, after recording `f`, keeps the state.
proof fn lemma_strip_factor(found: Seq<u64>, rest: int, n: int, f: u64)
    requires
        f >= 2,
        factoring_state(found, rest, n, f as int),
        divides(f as int, rest),
    ensures
        prime(f as int),
        prime_factor(f as int, n),
        1 <= rest / (f as int) < rest,
        found.contains(f) ==> factoring_state(found, rest / (f as int), n, f as int),
        !found.contains(f) ==> factoring_state(found.push(f), rest / (f as int), n, f as int),
{
    let fi = f as int;
    let next = rest / fi;
    lemma_cofactor(fi, rest);
    assert(next < rest) by (nonlinear_arith)
        requires
            rest == fi * next,
            fi >= 2,
            next > 0,
    ;
    assert forall|d: int| 2 <= d < fi implies !#[trigger] divides(d, fi) by {
        if divides(d, fi) {
            lemma_divides_trans(d, fi, rest);
        }
    }
    lemma_divides_trans(fi, rest, n);
    lemma_divides_trans(next, rest, n);
    assert forall|d: int| 2 <= d < fi implies !#[trigger] divides(d, next) by {
        if divides(d, next) {
            lemma_divides_trans(d, next, rest);
        }
    }
    let grown = if found.contains(f) {
        found
    } else {
        found.push(f)
    };
    let at = if found.contains(f) {
        found.index_of(f)
    } else {
        found.len() as int
    };
    assert(0 <= at < grown.len() && grown[at] == f);
    assert forall|i: int| 0 <= i < found.len() implies grown[i] == found[i] by {}
    assert forall|p: int| #[trigger] prime_factor(p, n) implies divides(p, next) || exists|i: int|
        0 <= i < grown.len() && grown[i] == p by {
        if exists|i: int| 0 <= i < found.len() && found[i] == p {
            let i = choose|i: int| 0 <= i < found.len() && found[i] == p;
            assert(grown[i] == p);
        } else {
            assert(divides(p, rest));
            lemma_euclid(p, fi, next);
            if divides(p, fi) {
                lemma_prime_divisor_of_prime(p, fi);
                assert(grown[at] == p);
            }
        }
    }
    assert(ascending(grown)) by {
        if !found.contains(f) {
            assert forall|i: int, j: int| 0 <= i < j < grown.len() implies grown[i] < grown[j] by {
                if j == found.len() {
                    assert(found[i] <= f);
                    assert(found.contains(found[i]));
                }
            }
        }
    }
    assert forall|i: int| 0 <= i < grown.len() implies prime_factor(#[trigger] grown[i] as int, n)
        && grown[i] <= fi by {
        if i < found.len() {
            assert(grown[i] == found[i]);
        }
    }
}

/// Once `bound * bound` exceeds `rest`, what is left is 1 or the last prime factor.
proof fn lemma_factoring_done(found: Seq<u64>, rest: u64, n: int, bound: int)
    requires
        bound >= 2,
        bound * bound > rest,
        factoring_state(found, rest as int, n, bound),
    ensures
        rest == 1 ==> lists_prime_factors(found, n),
        rest > 1 && found.contains(rest) ==> lists_prime_factors(found, n),
        rest > 1 && !found.contains(rest) ==> lists_prime_factors(found.push(rest), n),
{
    let r = rest as int;
    if rest == 1 {
        assert forall|p: int| #[trigger] prime_factor(p, n) implies exists|i: int|
            0 <= i < found.len() && found[i] == p by {
            if divides(p, 1) {
                lemma_divisor_bound(p, 1);
            }
        }
    } else {
        lemma_trial_division_complete(r, bound);
        let grown = if found.contains(rest) {
            found
        } else {
            found.push(rest)
        };
        let at = if found.contains(rest) {
            found.index_of(rest)
        } else {
            found.len() as int
        };
        assert(0 <= at < grown.len() && grown[at] == rest);
        assert(r >= bound) by {
            if r < bound {
                assert(divides(r, r));
            }
        }
        assert forall|p: int| #[trigger] prime_factor(p, n) implies exists|i: int|
            0 <= i < grown.len() && grown[i] == p by {
            if exists|i: int| 0 <= i < found.len() && found[i] == p {
                let i = choose|i: int| 0 <= i < found.len() && found[i] == p;
                assert(grown[i] == p);
            } else {
                lemma_prime_divisor_of_prime(p, r);
                assert(grown[at] == p);
            }
        }
        assert(ascending(grown)) by {
            if !found.contains(rest) {
                assert forall|i: int, j: int| 0 <= i < j < grown.len() implies grown[i]
                    < grown[j] by {
                    if j == found.len() {
                        assert(found[i] <= bound);
                        assert(found.contains(found[i]));
                    }
                }
            }
        }
        assert forall|i: int| 0 <= i < grown.len() implies prime_factor(
            #[trigger] grown[i] as int,
            n,
        ) by {
            if i < found.len() {
                assert(grown[i] == found[i]);
            }
        }
    }
}

/// Whether `x` occurs in `v`.
fn contains(v: &Vec<u64>, x: u64) -> (r: bool)
    ensures
        r == v@.contains(x),
{
    let mut k: usize = 0;
    while k < v.len()
        invariant
            k <= v.len(),
            forall|i: int| 0 <= i < k ==> v@[i] != x,
        decreases v.len() - k,
    {
        if v[k] == x {
            return true;
        }
        k += 1;
    }
    false
}

/// The distinct prime factors of `n`, in ascending order; none for 0 and for 1.
pub fn prime_factors(n: u64) -> (factors: Vec<u64>)
    ensures
        lists_prime_factors(factors@, n as int),
        n <= 1 ==> factors@.len() == 0,
{
    let mut factors: Vec<u64> = Vec::new();
    if n == 0 {
        return factors;
    }
    let mut rest: u64 = n;
    assert(divides(rest as int, n as int));

    // Factor out 2
    while rest % 2 == 0
        invariant
            factoring_state(factors@, rest as int, n as int, 2),
        decreases rest,
    {
        proof {
            assert(divides(2, rest as int));
            lemma_strip_factor(factors@, rest as int, n as int, 2);
        }
        if !contains(&factors, 2) {
            factors.push(2);
        }
        rest /= 2;
    }

    // Factor out odd primes
    let mut i: u64 = 3;
    while i <= rest / i
        invariant
            3 <= i,
            i % 2 == 1,
            factoring_state(factors@, rest as int, n as int, i as int),
        decreases u64::MAX - i,
    {
        proof {
            lemma_square_vs_quotient(i as int, rest as int);
            assert(3 * i <= rest) by (nonlinear_arith)
                requires
                    3 <= i,
                    i * i <= rest,
            ;
        }
        while rest % i == 0
            invariant
                3 <= i <= u64::MAX / 3,
                factoring_state(factors@, rest as int, n as int, i as int),
            decreases rest,
        {
            proof {
                assert(divides(i as int, rest as int));
                lemma_strip_factor(factors@, rest as int, n as int, i);
            }
            if !contains(&factors, i) {
                factors.push(i);
            }
            rest /= i;
        }
        proof {
            if divides(i + 1, rest as int) {
                assert(divides(2, i + 1));
                lemma_divides_trans(2, i + 1, rest as int);
            }
        }
        i += 2;
    }

    proof {
        lemma_square_vs_quotient(i as int, rest as int);
        lemma_factoring_done(factors@, rest, n as int, i as int);
    }
    // What is left above 1 is prime
    if rest > 1 && !contains(&factors, rest) {
        factors.push(rest);
    }
    proof {
        if n == 1 && factors@.len() > 0 {
            assert(prime_factor(factors@[0] as int, 1));
            lemma_divisor_bound(factors@[0] as int, 1);
        }
    }
    factors
}

} // verus!
