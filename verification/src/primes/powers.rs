//! Facts about powers and about powers reduced modulo a positive number.

use crate::primes::model::pow_mod;
use vstd::arithmetic::div_mod::{lemma_mul_mod_noop_general, lemma_small_mod};
use vstd::arithmetic::power::{
    lemma1_pow, lemma_pow_adds, lemma_pow_mod_noop, lemma_pow_multiplies, lemma_square_is_pow2,
    pow,
};
use vstd::prelude::*;

verus! {

/// A positive power splits off one factor.
pub proof fn lemma_pow_unfold(b: int, e: nat)
    requires
        e > 0,
    ensures
        pow(b, e) == b * pow(b, (e - 1) as nat),
{
    reveal(pow);
}

/// Halving the exponent squares the base; an odd exponent leaves one factor over.
pub proof fn lemma_pow_halve(b: int, e: nat)
    ensures
        e % 2 == 0 ==> pow(b, e) == pow(b * b, e / 2),
        e % 2 == 1 ==> pow(b, e) == b * pow(b * b, e / 2),
{
    let h = e / 2;
    lemma_square_is_pow2(b);
    lemma_pow_multiplies(b, 2, h);
    assert(pow(b * b, h) == pow(b, 2 * h));
    if e % 2 == 1 {
        lemma_pow_unfold(b, e);
        assert((e - 1) as nat == 2 * h);
    } else {
        assert(e == 2 * h);
    }
}

/// Reducing either factor of a product first does not change the reduced product.
pub proof fn lemma_mul_mod(x: int, y: int, m: int)
    requires
        m > 0,
    ensures
        ((x % m) * y) % m == (x * y) % m,
        (x * (y % m)) % m == (x * y) % m,
        ((x % m) * (y % m)) % m == (x * y) % m,
{
    lemma_mul_mod_noop_general(x, y, m);
}

/// One round of square-and-multiply keeps the value of `acc * base^exp` modulo `m`.
pub proof fn lemma_square_and_multiply_step(acc: int, base: int, exp: nat, m: int)
    requires
        m > 0,
    ensures
        exp % 2 == 1 ==> (((acc * base) % m) * pow((base * base) % m, exp / 2)) % m == (acc * pow(
            base,
            exp,
        )) % m,
        exp % 2 == 0 ==> (acc * pow((base * base) % m, exp / 2)) % m == (acc * pow(base, exp)) % m,
{
    let h = exp / 2;
    let sq = base * base;
    lemma_pow_halve(base, exp);
    lemma_pow_mod_noop(sq, h, m);
    if exp % 2 == 1 {
        let front = acc * base;
        // reduce the power, then the front factor, and undo both
        lemma_mul_mod(front % m, pow(sq % m, h), m);
        lemma_mul_mod(front % m, pow(sq, h), m);
        lemma_mul_mod(front, pow(sq, h), m);
        assert((acc * base) * pow(sq, h) == acc * (base * pow(sq, h))) by (nonlinear_arith);
    } else {
        lemma_mul_mod(acc, pow(sq % m, h), m);
        lemma_mul_mod(acc, pow(sq, h), m);
    }
}

/// The reduced power of a sum of exponents is the reduced product of the reduced powers.
pub proof fn lemma_pow_mod_adds(b: int, e1: nat, e2: nat, m: int)
    requires
        m > 0,
    ensures
        pow_mod(b, (e1 + e2) as int, m) == (pow_mod(b, e1 as int, m) * pow_mod(b, e2 as int, m))
            % m,
{
    lemma_pow_adds(b, e1, e2);
    lemma_mul_mod(pow(b, e1), pow(b, e2), m);
}

/// If `b^e ≡ 1 (mod m)` then every power of `b^e` is `≡ 1` as well.
pub proof fn lemma_pow_mod_one_multiple(b: int, e: nat, k: nat, m: int)
    requires
        m > 1,
        pow_mod(b, e as int, m) == 1,
    ensures
        pow_mod(b, (e * k) as int, m) == 1,
{
    lemma_pow_multiplies(b, e, k);
    lemma_pow_mod_noop(pow(b, e), k, m);
    lemma1_pow(k);
    lemma_small_mod(1, m as nat);
}

} // verus!
