//! The mathematical vocabulary in which the contracts of this crate are stated.

use vstd::arithmetic::power::pow;
use vstd::arithmetic::power2::pow2;
use vstd::prelude::*;

verus! {

/// `d` divides `n` exactly.
pub open spec fn divides(d: int, n: int) -> bool {
    d != 0 && n % d == 0
}

/// `n` is a prime number: at least 2 and without a divisor strictly between 1 and itself.
pub open spec fn prime(n: int) -> bool {
    n >= 2 && forall|d: int| 2 <= d < n ==> !#[trigger] divides(d, n)
}

/// `base` raised to `exp`, reduced modulo `modulus`.
pub open spec fn pow_mod(base: int, exp: int, modulus: int) -> int {
    pow(base, exp as nat) % modulus
}

/// `q` is a prime with `q ≡ 1 (mod 2n)` for a ring dimension `n ≥ 1`.
pub open spec fn ntt_friendly(q: int, n: int) -> bool {
    q >= 2 && n >= 1 && q % (2 * n) == 1 && prime(q)
}

/// `p` is a prime factor of the positive number `n`. Zero has none.
pub open spec fn prime_factor(p: int, n: int) -> bool {
    n > 0 && prime(p) && divides(p, n)
}

/// Each element of `s` is smaller than the next.
pub open spec fn ascending(s: Seq<u64>) -> bool {
    forall|i: int, j: int| 0 <= i < j < s.len() ==> s[i] < s[j]
}

/// `s` holds the prime factors of `n`, each once, smallest first.
pub open spec fn lists_prime_factors(s: Seq<u64>, n: int) -> bool {
    &&& ascending(s)
    &&& forall|i: int| 0 <= i < s.len() ==> prime_factor(#[trigger] s[i] as int, n)
    &&& forall|p: int| #[trigger]
        prime_factor(p, n) ==> exists|i: int| 0 <= i < s.len() && s[i] == p
}

/// `x` has multiplicative order exactly `k` modulo `q`: `x^k ≡ 1`, and no smaller positive
/// power of `x` is `≡ 1`.
pub open spec fn has_order(x: int, k: int, q: int) -> bool {
    &&& k >= 1
    &&& pow_mod(x, k, q) == 1
    &&& forall|d: int| 1 <= d < k ==> #[trigger] pow_mod(x, d, q) != 1
}

/// The criterion by which a candidate generator `g` modulo `p` is judged: for no prime
/// factor `f` of `p - 1` is `g^((p - 1) / f) ≡ 1 (mod p)`.
pub open spec fn passes_generator_test(g: int, p: int) -> bool {
    forall|f: int| #[trigger] prime_factor(f, p - 1) ==> pow_mod(g, (p - 1) / f, p) != 1
}

/// `g` is the smallest number from 2 up, below `q`, that passes the generator test modulo `q`.
pub open spec fn least_generator(g: int, q: int) -> bool {
    &&& 2 <= g < q
    &&& passes_generator_test(g, q)
    &&& forall|h: int| 2 <= h < g ==> !#[trigger] passes_generator_test(h, q)
}

/// `psi` is the `2n`-th root of unity modulo `q` that the smallest generator `g` yields,
/// namely `g^((q - 1) / 2n) mod q`.
pub open spec fn root_of_least_generator(q: int, n: int, psi: int) -> bool {
    exists|g: int| #[trigger] least_generator(g, q) && psi == pow_mod(g, (q - 1) / (2 * n), q)
}

/// `psi` is what the search for a primitive `2n`-th root of unity modulo `q` yields: `q` is
/// NTT-friendly for `n`, and `psi` comes from the smallest generator.
pub open spec fn primitive_root_found(q: int, n: int, psi: int) -> bool {
    ntt_friendly(q, n) && root_of_least_generator(q, n, psi)
}

/// `p` is an NTT-friendly prime for the ring dimension `n` that does not exceed `2^logq`,
/// where `logq` is at least 2.
pub open spec fn ntt_prime_within(p: int, logq: nat, n: int) -> bool {
    logq >= 2 && p <= pow2(logq) && ntt_friendly(p, n)
}

/// `p` is the largest NTT-friendly prime for the ring dimension `n` within `2^logq`.
pub open spec fn largest_ntt_prime(p: int, logq: nat, n: int) -> bool {
    &&& ntt_prime_within(p, logq, n)
    &&& forall|x: int| #[trigger] ntt_prime_within(x, logq, n) ==> x <= p
}

/// Each element of `s` is larger than the next.
pub open spec fn descending(s: Seq<u64>) -> bool {
    forall|i: int, j: int| 0 <= i < j < s.len() ==> s[i] > s[j]
}

/// `s` holds NTT-friendly primes within `2^logq`, largest first, and leaves out none that
/// is as large as its last element: it is an initial stretch of the downward search.
pub open spec fn lists_largest_ntt_primes(s: Seq<u64>, logq: nat, n: int) -> bool {
    &&& descending(s)
    &&& forall|i: int| 0 <= i < s.len() ==> ntt_prime_within(#[trigger] s[i] as int, logq, n)
    &&& forall|x: int| #[trigger]
        ntt_prime_within(x, logq, n) && s.len() > 0 && x >= s.last() ==> exists|i: int|
            0 <= i < s.len() && s[i] == x
}

/// `s` holds every NTT-friendly prime within `2^logq`.
pub open spec fn holds_all_ntt_primes(s: Seq<u64>, logq: nat, n: int) -> bool {
    forall|x: int| #[trigger]
        ntt_prime_within(x, logq, n) ==> exists|i: int| 0 <= i < s.len() && s[i] == x
}

} // verus!
