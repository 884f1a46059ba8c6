//! The downward search: from `2^logq`, through the numbers `≡ 1 (mod 2n)`, for primes.

use crate::primes::divisibility::lemma_ntt_friendly_bounds;
use crate::primes::model::{
    descending, holds_all_ntt_primes, largest_ntt_prime, lists_largest_ntt_primes,
    ntt_prime_within,
};
use crate::primes::primitives::is_prime;
use vstd::arithmetic::div_mod::{
    lemma_fundamental_div_mod, lemma_mod_multiples_vanish, lemma_mod_sub_multiples_vanish,
    lemma_small_mod,
};
use vstd::arithmetic::power2::pow2;
use vstd::prelude::*;

verus! {

/// Of two numbers with the same residue modulo `m`, the smaller is at least `m` below the
/// larger.
proof fn lemma_congruent_gap(x: int, c: int, m: int)
    requires
        m > 0,
        x % m == c % m,
        x < c,
    ensures
        x <= c - m,
{
    lemma_fundamental_div_mod(x, m);
    lemma_fundamental_div_mod(c, m);
    let r = x % m;
    let a = x / m;
    let b = c / m;
    assert(a < b) by (nonlinear_arith)
        requires
            m > 0,
            x == m * a + r,
            c == m * b + r,
            x < c,
    ;
    assert(m * a + m <= m * b) by (nonlinear_arith)
        requires
            m > 0,
            a + 1 <= b,
    ;
}

/// `1 << logq` is `2^logq` as long as it fits in 64 bits.
proof fn lemma_shift_is_pow2(logq: u32)
    requires
        logq < 64,
    ensures
        1u64 << logq == pow2(logq as nat),
        0 < pow2(logq as nat) <= 0x8000_0000_0000_0000,
{
    vstd::bits::lemma_u64_pow2_no_overflow(logq as nat);
    vstd::bits::lemma_u64_shl_is_mul(1, logq as u64);
    if logq < 63 {
        vstd::arithmetic::power2::lemma_pow2_strictly_increases(logq as nat, 63);
    }
    vstd::arithmetic::power2::lemma2_to64_rest();
}

/// The largest NTT-friendly prime for the ring dimension `n` that is at most `2^logq`.
/// `None` if `logq < 2`, if `n < 1`, or if there is no such prime.
pub fn get_first_prime_down(logq: u32, n: u64) -> (r: Option<u64>)
    requires
        logq < 64,
    ensures
        match r {
            Some(p) => largest_ntt_prime(p as int, logq as nat, n as int),
            None => forall|x: int| !#[trigger] ntt_prime_within(x, logq as nat, n as int),
        },
        logq < 2 || n < 1 ==> r is None,
{
    if logq < 2 || n < 1 {
        return None;
    }
    proof {
        lemma_shift_is_pow2(logq);
    }
    if n > u64::MAX / 2 {
        // 2n is above 2^logq, so only 1 itself is ≡ 1 (mod 2n) there
        proof {
            assert forall|x: int| !#[trigger] ntt_prime_within(x, logq as nat, n as int) by {
                if 2 <= x <= pow2(logq as nat) {
                    lemma_small_mod(x as nat, (2 * n) as nat);
                }
            }
        }
        return None;
    }
    let two_n = 2 * n;
    let target: u64 = 1u64 << logq;
    assert(target == pow2(logq as nat));
    proof {
        vstd::arithmetic::div_mod::lemma_mod_decreases(target as nat, two_n as nat);
    }

    // Find the largest number <= target that is ≡ 1 (mod 2n)
    let mut candidate = target - (target % two_n) + 1;
    proof {
        let m = two_n as int;
        lemma_fundamental_div_mod(target as int, m);
        lemma_mod_multiples_vanish((target as int) / m, 1, m);
        lemma_small_mod(1, m as nat);
        assert(candidate as int % m == 1);
    }
    if candidate > target {
        proof {
            if target < two_n {
                lemma_small_mod(target as nat, two_n as nat);
            }
            vstd::arithmetic::div_mod::lemma_mod_is_zero(target as nat, two_n as nat);
            lemma_mod_sub_multiples_vanish(candidate as int, two_n as int);
        }
        candidate -= two_n;
    }
    proof {
        assert forall|x: int| #[trigger]
            ntt_prime_within(x, logq as nat, n as int) implies x <= candidate by {
            if x > candidate {
                lemma_congruent_gap(candidate as int, x, two_n as int);
            }
        }
    }

    // Search downward until we find a prime
    while candidate > 1
        invariant
            2 <= logq < 64,
            n >= 1,
            two_n == 2 * n,
            1 <= candidate <= pow2(logq as nat),
            candidate as int % (two_n as int) == 1,
            forall|x: int| #[trigger] ntt_prime_within(x, logq as nat, n as int) ==> x <= candidate,
        decreases candidate,
    {
        if is_prime(candidate) {
            return Some(candidate);
        }
        proof {
            let m = two_n as int;
            lemma_small_mod(1, m as nat);
            lemma_congruent_gap(1, candidate as int, m);
            lemma_mod_sub_multiples_vanish(candidate as int, m);
            assert forall|x: int| #[trigger]
                ntt_prime_within(x, logq as nat, n as int) implies x <= candidate - m by {
                lemma_congruent_gap(x, candidate as int, m);
            }
        }
        candidate -= two_n;
    }

    None
}

/// The NTT-friendly primes for the ring dimension `n` that are at most `2^logq`, largest
/// first, until `count` of them are collected or none is left.
pub fn get_primes_down(logq: u32, n: u64, count: usize) -> (primes: Vec<u64>)
    requires
        logq < 64,
    ensures
        lists_largest_ntt_primes(primes@, logq as nat, n as int),
        primes@.len() > 0 ==> largest_ntt_prime(primes@[0] as int, logq as nat, n as int),
        primes@.len() <= count,
        primes@.len() < count ==> holds_all_ntt_primes(primes@, logq as nat, n as int),
        logq < 2 || n < 1 ==> primes@.len() == 0,
{
    let mut primes: Vec<u64> = Vec::new();
    if count == 0 {
        return primes;
    }

    if let Some(first_prime) = get_first_prime_down(logq, n) {
        primes.push(first_prime);

        proof {
            lemma_ntt_friendly_bounds(first_prime as int, n as int);
        }
        let two_n = 2 * n;
        proof {
            let m = two_n as int;
            lemma_mod_sub_multiples_vanish(first_prime as int, m);
            lemma_small_mod(1, m as nat);
            lemma_congruent_gap(1, first_prime as int, m);
            assert forall|x: int| #[trigger]
                ntt_prime_within(x, logq as nat, n as int) && x > first_prime
                - m implies x == first_prime by {
                if x < first_prime {
                    lemma_congruent_gap(x, first_prime as int, m);
                }
            }
        }
        let mut candidate = first_prime - two_n;
        assert(primes@[0] == first_prime);

        while primes.len() < count && candidate > 1
            invariant
                2 <= logq < 64,
                n >= 1,
                two_n == 2 * n,
                1 <= primes.len(),
                largest_ntt_prime(primes@[0] as int, logq as nat, n as int),
                primes.len() <= count,
                1 <= candidate < primes@.last(),
                candidate as int % (two_n as int) == 1,
                descending(primes@),
                forall|i: int|
                    0 <= i < primes.len() ==> ntt_prime_within(
                        #[trigger] primes@[i] as int,
                        logq as nat,
                        n as int,
                    ),
                forall|x: int| #[trigger]
                    ntt_prime_within(x, logq as nat, n as int) && x > candidate ==> exists|i: int|
                        0 <= i < primes.len() && primes@[i] == x,
            decreases candidate,
        {
            let ghost before = primes@;
            if is_prime(candidate) {
                primes.push(candidate);
            }
            proof {
                let m = two_n as int;
                let c = candidate as int;
                lemma_small_mod(1, m as nat);
                lemma_congruent_gap(1, c, m);
                lemma_mod_sub_multiples_vanish(c, m);
                assert forall|i: int| 0 <= i < before.len() implies primes@[i] == before[i] by {}
                assert forall|x: int| #[trigger]
                    ntt_prime_within(x, logq as nat, n as int) && x > c - m implies exists|i: int|
                    0 <= i < primes.len() && primes@[i] == x by {
                    if x > c {
                        let i = choose|i: int| 0 <= i < before.len() && before[i] == x;
                        assert(primes@[i] == x);
                    } else if x == c {
                        assert(primes@[before.len() as int] == x);
                    } else {
                        lemma_congruent_gap(x, c, m);
                    }
                }
            }
            candidate -= two_n;
        }
    }
    primes
}

} // verus!
