//! Polynomials with integer coefficients, considered modulo a prime: a polynomial of
//! degree `d` has at most `d` roots there. Applied to `x^d - 1`, this bounds the number
//! of residues whose `d`-th power is 1.

use crate::primes::divisibility::{
    lemma_divides_combination, lemma_divides_multiple, lemma_euclid,
};
use crate::primes::fermat::{distinct, lemma_prime_misses_smaller};
use crate::primes::model::{divides, pow_mod, prime};
use crate::primes::powers::lemma_pow_unfold;
use vstd::arithmetic::div_mod::{lemma_fundamental_div_mod, lemma_small_mod};
use vstd::arithmetic::power::{lemma_pow0, pow};
use vstd::prelude::*;

verus! {

/// The value at `x` of the polynomial with the coefficients `c`, leading coefficient first.
pub open spec fn eval(c: Seq<int>, x: int) -> int
    decreases c.len(),
{
    if c.len() == 0 {
        0
    } else {
        eval(c.drop_last(), x) * x + c.last()
    }
}

/// The quotient of the polynomial `c` on division by `x - a` (synthetic division).
pub open spec fn quotient(c: Seq<int>, a: int) -> Seq<int>
    decreases c.len(),
{
    if c.len() <= 1 {
        Seq::empty()
    } else {
        quotient(c.drop_last(), a).push(eval(c.drop_last(), a))
    }
}

/// Every element of `roots` is a residue modulo `p` at which `c` vanishes modulo `p`.
pub open spec fn roots_of(roots: Seq<int>, c: Seq<int>, p: int) -> bool {
    forall|i: int|
        0 <= i < roots.len() ==> 0 <= #[trigger] roots[i] < p && eval(c, roots[i]) % p == 0
}

/// The quotient is one shorter and keeps the leading coefficient.
proof fn lemma_quotient_shape(c: Seq<int>, a: int)
    requires
        c.len() >= 1,
    ensures
        quotient(c, a).len() == c.len() - 1,
        c.len() >= 2 ==> quotient(c, a)[0] == c[0],
    decreases c.len(),
{
    if c.len() >= 2 {
        let front = c.drop_last();
        lemma_quotient_shape(front, a);
        if c.len() == 2 {
            assert(front.drop_last().len() == 0);
            assert(eval(front.drop_last(), a) == 0);
            assert(eval(front, a) == 0 * a + front.last());
        }
    }
}

/// Division with remainder by `x - a`: the remainder is the value at `a`.
proof fn lemma_division(c: Seq<int>, a: int, x: int)
    ensures
        eval(c, x) == (x - a) * eval(quotient(c, a), x) + eval(c, a),
    decreases c.len(),
{
    if c.len() == 0 {
        assert((x - a) * 0 == 0);
    } else if c.len() == 1 {
        assert(quotient(c, a).len() == 0);
        assert(eval(quotient(c, a), x) == 0);
        assert((x - a) * 0 == 0);
        assert(c.drop_last().len() == 0);
        assert(eval(c.drop_last(), x) == 0);
        assert(eval(c.drop_last(), a) == 0);
        assert(0 * x == 0 && 0 * a == 0);
    } else {
        let front = c.drop_last();
        let q = quotient(c, a);
        let qf = quotient(front, a);
        lemma_division(front, a, x);
        assert(q.drop_last() =~= qf);
        assert(q.last() == eval(front, a));
        let ef = eval(front, x);
        let ea = eval(front, a);
        let eq = eval(qf, x);
        assert(eval(q, x) == eq * x + ea);
        assert(ef * x + c.last() == (x - a) * (eq * x + ea) + (ea * a + c.last()))
            by (nonlinear_arith)
            requires
                ef == (x - a) * eq + ea,
        ;
    }
}

/// A polynomial of degree `d` whose leading coefficient is not divisible by the prime `p`
/// has at most `d` distinct roots modulo `p`.
proof fn lemma_root_bound(c: Seq<int>, p: int, roots: Seq<int>)
    requires
        prime(p),
        c.len() >= 1,
        c[0] % p != 0,
        distinct(roots),
        roots_of(roots, c, p),
    ensures
        roots.len() <= c.len() - 1,
    decreases c.len(),
{
    if roots.len() == 0 {
    } else if c.len() == 1 {
        let x = roots[0];
        assert(c.drop_last().len() == 0);
        assert(eval(c.drop_last(), x) == 0);
        assert(eval(c, x) == 0 * x + c.last());
        assert(eval(c, x) == c[0]);
    } else {
        let a = roots.last();
        let q = quotient(c, a);
        let others = roots.drop_last();
        lemma_quotient_shape(c, a);
        assert forall|i: int| 0 <= i < others.len() implies 0 <= #[trigger] others[i] < p && eval(
            q,
            others[i],
        ) % p == 0 by {
            let b = roots[i];
            assert(others[i] == b);
            assert(b != a);
            lemma_division(c, a, b);
            // p divides eval(c, b) and eval(c, a), hence (b - a) * eval(q, b)
            lemma_divides_combination(p, eval(c, b), eval(c, a), 1, -1);
            assert(1 * eval(c, b) + (-1) * eval(c, a) == (b - a) * eval(q, b));
            lemma_euclid(p, b - a, eval(q, b));
            if divides(p, b - a) {
                if b > a {
                    lemma_prime_misses_smaller(p, b - a);
                } else {
                    lemma_divides_combination(p, b - a, b - a, -1, 0);
                    assert((-1) * (b - a) + 0 * (b - a) == a - b);
                    lemma_prime_misses_smaller(p, a - b);
                }
            }
        }
        lemma_root_bound(q, p, others);
    }
}

/// The coefficients of `x^d`.
pub open spec fn monomial(d: nat) -> Seq<int> {
    Seq::new(d + 1, |i: int| if i == 0 { 1int } else { 0int })
}

/// The coefficients of `x^d - 1`, for `d ≥ 1`.
pub open spec fn power_minus_one(d: nat) -> Seq<int> {
    monomial((d - 1) as nat).push(-1)
}

/// The value of the monomial `x^d` at `x` is the `d`-th power of `x`.
proof fn lemma_monomial_value(d: nat, x: int)
    ensures
        eval(monomial(d), x) == pow(x, d),
    decreases d,
{
    let m = monomial(d);
    if d == 0 {
        assert(m.drop_last().len() == 0);
        assert(eval(m.drop_last(), x) == 0);
        assert(eval(m, x) == 0 * x + m.last());
        lemma_pow0(x);
    } else {
        assert(m.drop_last() =~= monomial((d - 1) as nat));
        lemma_monomial_value((d - 1) as nat, x);
        lemma_pow_unfold(x, d);
        assert(pow(x, (d - 1) as nat) * x == x * pow(x, (d - 1) as nat)) by (nonlinear_arith);
    }
}

/// The value of `x^d - 1` at `x` is one less than the `d`-th power of `x`.
proof fn lemma_power_minus_one_value(d: nat, x: int)
    requires
        d >= 1,
    ensures
        eval(power_minus_one(d), x) == pow(x, d) - 1,
{
    let c = power_minus_one(d);
    assert(c.drop_last() =~= monomial((d - 1) as nat));
    lemma_monomial_value((d - 1) as nat, x);
    lemma_pow_unfold(x, d);
    assert(pow(x, (d - 1) as nat) * x == x * pow(x, (d - 1) as nat)) by (nonlinear_arith);
}

/// Modulo a prime `p`, at most `d` residues have a `d`-th power of 1.
pub proof fn lemma_few_roots_of_unity(p: int, d: nat, roots: Seq<int>)
    requires
        prime(p),
        d >= 1,
        distinct(roots),
        forall|i: int|
            0 <= i < roots.len() ==> 0 <= #[trigger] roots[i] < p && pow_mod(roots[i], d as int, p)
                == 1,
    ensures
        roots.len() <= d,
{
    let c = power_minus_one(d);
    assert(c[0] == 1);
    lemma_small_mod(1, p as nat);
    assert forall|i: int| 0 <= i < roots.len() implies 0 <= #[trigger] roots[i] < p && eval(
        c,
        roots[i],
    ) % p == 0 by {
        let x = roots[i];
        lemma_power_minus_one_value(d, x);
        let w = pow(x, d);
        lemma_fundamental_div_mod(w, p);
        assert(w - 1 == p * (w / p));
        lemma_divides_multiple(p, w / p);
    }
    lemma_root_bound(c, p, roots);
}

/// Modulo a prime `p`, for `1 ≤ d < p - 1` some nonzero residue has a `d`-th power other
/// than 1.
pub proof fn lemma_not_all_roots_of_unity(p: int, d: nat) -> (a: int)
    requires
        prime(p),
        1 <= d < p - 1,
    ensures
        1 <= a < p,
        pow_mod(a, d as int, p) != 1,
{
    let all = Seq::new((p - 1) as nat, |i: int| i + 1);
    if forall|i: int| 0 <= i < all.len() ==> pow_mod(#[trigger] all[i], d as int, p) == 1 {
        lemma_few_roots_of_unity(p, d, all);
    }
    let i = choose|i: int| 0 <= i < all.len() && pow_mod(#[trigger] all[i], d as int, p) != 1;
    all[i]
}

} // verus!
