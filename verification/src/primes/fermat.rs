//! Fermat's little theorem, by the classical argument that multiplication by a unit
//! permutes the nonzero residues of a prime.

use crate::primes::divisibility::{lemma_divides_multiple, lemma_divisor_bound, lemma_euclid};
use crate::primes::model::{divides, pow_mod, prime};
use crate::primes::powers::{lemma_mul_mod, lemma_pow_unfold};
use vstd::arithmetic::div_mod::{lemma_fundamental_div_mod, lemma_mod_bound, lemma_small_mod};
use vstd::arithmetic::power::{lemma_pow0, pow};
use vstd::prelude::*;

verus! {

/// The product of the elements of `s`.
pub open spec fn product(s: Seq<int>) -> int
    decreases s.len(),
{
    if s.len() == 0 {
        1
    } else {
        product(s.drop_last()) * s.last()
    }
}

/// `n! = 1 * 2 * ... * n`.
pub open spec fn factorial(n: nat) -> int
    decreases n,
{
    if n == 0 {
        1
    } else {
        factorial((n - 1) as nat) * n
    }
}

/// Every element of `s` lies in `[1, top]`.
pub open spec fn within(s: Seq<int>, top: int) -> bool {
    forall|i: int| 0 <= i < s.len() ==> 1 <= #[trigger] s[i] <= top
}

/// No value occurs twice in `s`.
pub open spec fn distinct(s: Seq<int>) -> bool {
    forall|i: int, j: int| 0 <= i < j < s.len() ==> s[i] != s[j]
}

/// The residues `a * 1, a * 2, ..., a * len` modulo `p`.
pub open spec fn multiples(a: int, p: int, len: nat) -> Seq<int> {
    Seq::new(len, |i: int| (a * (i + 1)) % p)
}

/// Any one element can be split off a product.
proof fn lemma_product_remove(s: Seq<int>, j: int)
    requires
        0 <= j < s.len(),
    ensures
        product(s) == s[j] * product(s.remove(j)),
    decreases s.len(),
{
    let front = s.drop_last();
    let cut = s.remove(j);
    if j == s.len() - 1 {
        assert(cut =~= front);
        assert(product(front) * s.last() == s.last() * product(front)) by (nonlinear_arith);
    } else {
        lemma_product_remove(front, j);
        assert(cut.drop_last() =~= front.remove(j));
        assert(cut.last() == s.last());
        let inner = product(front.remove(j));
        assert((s[j] * inner) * s.last() == s[j] * (inner * s.last())) by (nonlinear_arith);
    }
}

/// Removing an element keeps a sequence of distinct values distinct, and within its range.
proof fn lemma_remove_keeps(s: Seq<int>, j: int, top: int)
    requires
        0 <= j < s.len(),
        distinct(s),
        within(s, top),
    ensures
        distinct(s.remove(j)),
        within(s.remove(j), top),
        s.remove(j).len() == s.len() - 1,
        forall|i: int| 0 <= i < s.len() - 1 ==> #[trigger] s.remove(j)[i] != s[j],
{
    let cut = s.remove(j);
    s.remove_ensures(j);
    assert forall|i: int| 0 <= i < cut.len() implies 1 <= #[trigger] cut[i] <= top && cut[i]
        != s[j] by {
        if i < j {
            assert(cut[i] == s[i]);
        } else {
            assert(cut[i] == s[i + 1]);
        }
    }
    assert forall|i: int, k: int| 0 <= i < k < cut.len() implies cut[i] != cut[k] by {
        let oi = if i < j {
            i
        } else {
            i + 1
        };
        let ok = if k < j {
            k
        } else {
            k + 1
        };
        assert(cut[i] == s[oi]);
        assert(cut[k] == s[ok]);
    }
}

/// Pigeonhole: distinct values from `[1, top]` number at most `top`.
proof fn lemma_distinct_count(s: Seq<int>, top: int)
    requires
        distinct(s),
        within(s, top),
    ensures
        s.len() <= top || s.len() == 0,
    decreases top,
{
    if s.len() == 0 {
    } else if top <= 0 {
        assert(1 <= s[0] <= top);
    } else if exists|j: int| 0 <= j < s.len() && s[j] == top {
        let j = choose|j: int| 0 <= j < s.len() && s[j] == top;
        lemma_remove_keeps(s, j, top);
        let cut = s.remove(j);
        assert(within(cut, top - 1)) by {
            assert forall|i: int| 0 <= i < cut.len() implies 1 <= #[trigger] cut[i] <= top - 1 by {
                assert(cut[i] != s[j]);
            }
        }
        lemma_distinct_count(cut, top - 1);
    } else {
        assert(within(s, top - 1)) by {
            assert forall|i: int| 0 <= i < s.len() implies 1 <= #[trigger] s[i] <= top - 1 by {
                assert(1 <= s[i] <= top);
            }
        }
        lemma_distinct_count(s, top - 1);
    }
}

/// A sequence of `n` distinct values from `[1, n]` is a rearrangement of `1, ..., n`, so
/// its product is `n!`.
proof fn lemma_rearrangement_product(s: Seq<int>, n: nat)
    requires
        s.len() == n,
        distinct(s),
        within(s, n as int),
    ensures
        product(s) == factorial(n),
    decreases n,
{
    if n > 0 {
        if !exists|j: int| 0 <= j < s.len() && s[j] == n {
            assert(within(s, n - 1)) by {
                assert forall|i: int| 0 <= i < s.len() implies 1 <= #[trigger] s[i] <= n - 1 by {
                    assert(1 <= s[i] <= n);
                }
            }
            lemma_distinct_count(s, n - 1);
        }
        let j = choose|j: int| 0 <= j < s.len() && s[j] == n;
        lemma_remove_keeps(s, j, n as int);
        let cut = s.remove(j);
        assert(within(cut, n - 1)) by {
            assert forall|i: int| 0 <= i < cut.len() implies 1 <= #[trigger] cut[i] <= n - 1 by {
                assert(cut[i] != s[j]);
            }
        }
        lemma_rearrangement_product(cut, (n - 1) as nat);
        lemma_product_remove(s, j);
        assert(s[j] * factorial((n - 1) as nat) == factorial((n - 1) as nat) * n)
            by (nonlinear_arith)
            requires
                s[j] == n,
        ;
    }
}

/// A prime divides no positive number below itself.
pub proof fn lemma_prime_misses_smaller(p: int, k: int)
    requires
        prime(p),
        0 < k < p,
    ensures
        !divides(p, k),
        k % p != 0,
{
    if divides(p, k) {
        lemma_divisor_bound(p, k);
    }
}

/// A prime does not divide the factorial of a smaller number.
proof fn lemma_prime_misses_factorial(p: int, k: nat)
    requires
        prime(p),
        k < p,
    ensures
        !divides(p, factorial(k)),
    decreases k,
{
    if k == 0 {
        lemma_prime_misses_smaller(p, 1);
    } else {
        lemma_prime_misses_factorial(p, (k - 1) as nat);
        lemma_prime_misses_smaller(p, k as int);
        if divides(p, factorial(k)) {
            lemma_euclid(p, factorial((k - 1) as nat), k as int);
        }
    }
}

/// Modulo `p`, the product of the first `k` multiples of `a` is `a^k * k!`.
proof fn lemma_multiples_product(a: int, p: int, k: nat)
    requires
        p > 0,
    ensures
        product(multiples(a, p, k)) % p == (pow(a, k) * factorial(k)) % p,
    decreases k,
{
    if k == 0 {
        lemma_pow0(a);
    } else {
        let j = (k - 1) as nat;
        let s = multiples(a, p, k);
        assert(s.drop_last() =~= multiples(a, p, j));
        assert(s.last() == (a * k) % p);
        lemma_multiples_product(a, p, j);
        lemma_pow_unfold(a, k);
        let head = product(multiples(a, p, j));
        let ideal = pow(a, j) * factorial(j);
        // head * ((a * k) % p) ≡ head * (a * k) ≡ ideal * (a * k)
        lemma_mul_mod(head, a * k, p);
        lemma_mul_mod(ideal, a * k, p);
        assert(ideal * (a * k) == pow(a, k) * factorial(k)) by (nonlinear_arith)
            requires
                ideal == pow(a, j) * factorial(j),
                pow(a, k) == a * pow(a, j),
                factorial(k) == factorial(j) * k,
        ;
    }
}

/// For a prime `p` and `a` not divisible by it, the first `p - 1` multiples of `a` are
/// distinct nonzero residues.
proof fn lemma_multiples_rearrange(a: int, p: int)
    requires
        prime(p),
        a % p != 0,
    ensures
        distinct(multiples(a, p, (p - 1) as nat)),
        within(multiples(a, p, (p - 1) as nat), p - 1),
{
    let s = multiples(a, p, (p - 1) as nat);
    assert forall|i: int| 0 <= i < s.len() implies 1 <= #[trigger] s[i] <= p - 1 by {
        lemma_mod_bound(a * (i + 1), p);
        if s[i] == 0 {
            lemma_euclid(p, a, i + 1);
            lemma_prime_misses_smaller(p, i + 1);
        }
    }
    assert forall|i: int, j: int| 0 <= i < j < s.len() implies s[i] != s[j] by {
        if s[i] == s[j] {
            let x = a * (j + 1);
            let y = a * (i + 1);
            lemma_fundamental_div_mod(x, p);
            lemma_fundamental_div_mod(y, p);
            let u = x / p;
            let v = y / p;
            assert(a * (j - i) == p * (u - v)) by (nonlinear_arith)
                requires
                    x == a * (j + 1),
                    y == a * (i + 1),
                    x == p * u + x % p,
                    y == p * v + y % p,
                    x % p == y % p,
            ;
            lemma_divides_multiple(p, u - v);
            lemma_euclid(p, a, j - i);
            lemma_prime_misses_smaller(p, j - i);
        }
    }
}

/// Fermat's little theorem: `a^(p - 1) ≡ 1 (mod p)` for a prime `p` that does not divide `a`.
pub proof fn lemma_fermat_little(a: int, p: int)
    requires
        prime(p),
        a % p != 0,
    ensures
        pow_mod(a, p - 1, p) == 1,
{
    let k = (p - 1) as nat;
    let s = multiples(a, p, k);
    lemma_multiples_rearrange(a, p);
    lemma_rearrangement_product(s, k);
    lemma_multiples_product(a, p, k);
    let f = factorial(k);
    let w = pow(a, k);
    // f ≡ w * f, so p divides (w - 1) * f, hence w - 1
    assert(f % p == (w * f) % p);
    lemma_fundamental_div_mod(f, p);
    lemma_fundamental_div_mod(w * f, p);
    let u = (w * f) / p;
    let v = f / p;
    assert((w - 1) * f == p * (u - v)) by (nonlinear_arith)
        requires
            f == p * v + f % p,
            w * f == p * u + (w * f) % p,
            f % p == (w * f) % p,
    ;
    lemma_divides_multiple(p, u - v);
    lemma_euclid(p, w - 1, f);
    lemma_prime_misses_factorial(p, k);
    assert(divides(p, w - 1));
    lemma_fundamental_div_mod(w - 1, p);
    let c = (w - 1) / p;
    assert(w == p * c + 1);
    vstd::arithmetic::div_mod::lemma_mod_multiples_vanish(c, 1, p);
    lemma_small_mod(1, p as nat);
}

} // verus!
