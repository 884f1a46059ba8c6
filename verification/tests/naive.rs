use ntt_primes::primes::naive::{get_first_prime_down, get_primes_down};
use ntt_primes::primes::primitives::{is_ntt_friendly_prime, is_prime};

#[test]
fn test_get_first_prime_down() {
    let prime = get_first_prime_down(30, 1024).unwrap();
    assert_eq!(prime, 1073707009);
    assert!(is_prime(prime));
    assert_eq!(prime % (2 * 1024), 1);
}

#[test]
fn test_get_primes_down() {
    let primes = get_primes_down(30, 1024, 3);
    assert_eq!(primes.len(), 3);

    for &prime in &primes {
        assert!(is_prime(prime));
        assert_eq!(prime % (2 * 1024), 1);
    }
}

#[test]
fn known_prime_is_ntt_friendly() {
    assert!(is_prime(1073707009));
    assert_eq!(1073707009 % 2048, 1);
    assert!(is_ntt_friendly_prime(1073707009, 1024));
}

#[test]
fn get_primes_down_three_thirty_bit_primes() {
    let primes = get_primes_down(30, 1024, 3);
    assert_eq!(primes, vec![1073707009, 1073698817, 1073692673]);
    assert!(primes[0] > primes[1] && primes[1] > primes[2]);
}

#[test]
fn get_first_prime_down_rejects_parameters_below_minimum() {
    assert_eq!(get_first_prime_down(1, 1024), None);
    assert_eq!(get_first_prime_down(0, 1024), None);
    assert_eq!(get_first_prime_down(30, 0), None);
    assert_eq!(get_first_prime_down(1, 1), None);
}

#[test]
fn get_first_prime_down_exact_small_values() {
    // candidates for n = 1 below 4 are 3, 1
    assert_eq!(get_first_prime_down(2, 1), Some(3));
    // 2^3 = 8, n = 1: 7
    assert_eq!(get_first_prime_down(3, 1), Some(7));
    // 2^4 = 16, n = 2: 13
    assert_eq!(get_first_prime_down(4, 2), Some(13));
    // 2^4 = 16, n = 8: the only candidate above 1 would be 17 > 16
    assert_eq!(get_first_prime_down(4, 8), None);
    // 2^5 = 32, n = 8: 17
    assert_eq!(get_first_prime_down(5, 8), Some(17));
    // 2^6 = 64, n = 16: 33 is composite, then 1
    assert_eq!(get_first_prime_down(6, 16), None);
    // 2^4 = 16 is a multiple of 2n = 16: the first candidate 17 overshoots
    assert_eq!(get_first_prime_down(4, 4), None);
    // 2^8 = 256 is a multiple of 2n = 16: 257 overshoots, 241 is prime
    assert_eq!(get_first_prime_down(8, 8), Some(241));
}

#[test]
fn get_first_prime_down_exact_large_values() {
    assert_eq!(get_first_prime_down(20, 512), Some(1038337));
    assert_eq!(get_first_prime_down(32, 1 << 15), Some(4293918721));
    assert_eq!(get_first_prime_down(40, 1 << 20), Some(1099469684737));
    // 2^63 is a multiple of 2n = 2^62; the only candidate above 1 is 2^62 + 1, a multiple of 5
    assert_eq!(get_first_prime_down(63, 1 << 61), None);
}

#[test]
fn get_first_prime_down_with_ring_dimension_beyond_the_target() {
    assert_eq!(get_first_prime_down(10, 1 << 20), None);
    assert_eq!(get_first_prime_down(63, u64::MAX), None);
    assert_eq!(get_first_prime_down(63, 1u64 << 63), None);
    assert_eq!(get_first_prime_down(63, u64::MAX / 2), None);
}

#[test]
fn get_first_prime_down_is_the_largest_qualifying_prime() {
    for logq in 2u32..12 {
        for n in 1u64..20 {
            let limit = 1u64 << logq;
            let mut want = None;
            let mut p = limit;
            while p >= 2 {
                if p % (2 * n) == 1 && is_prime(p) {
                    want = Some(p);
                    break;
                }
                p -= 1;
            }
            assert_eq!(get_first_prime_down(logq, n), want);
        }
    }
}

#[test]
fn get_primes_down_exact_small_values() {
    // primes ≡ 1 (mod 4) up to 64: 61, 53, 41, 37, 29, 17, 13, 5
    assert_eq!(get_primes_down(6, 2, 3), vec![61, 53, 41]);
    assert_eq!(get_primes_down(6, 2, 8), vec![61, 53, 41, 37, 29, 17, 13, 5]);
    assert_eq!(get_primes_down(6, 2, 1), vec![61]);
}

#[test]
fn get_primes_down_exact_large_values() {
    assert_eq!(get_primes_down(20, 512, 4), vec![1038337, 1032193, 1022977, 1017857]);
    assert_eq!(get_primes_down(16, 8, 5), vec![65521, 65393, 65089, 64849, 64817]);
}

#[test]
fn get_primes_down_elements_are_ntt_friendly() {
    for &p in &get_primes_down(24, 256, 10) {
        assert!(is_ntt_friendly_prime(p, 256));
        assert!(p <= 1 << 24);
    }
}

#[test]
fn get_primes_down_returns_fewer_when_exhausted() {
    assert_eq!(get_primes_down(6, 2, 100), vec![61, 53, 41, 37, 29, 17, 13, 5]);
    assert_eq!(get_primes_down(5, 8, 4), vec![17]);
    assert_eq!(get_primes_down(4, 8, 4), Vec::<u64>::new());
}

#[test]
fn get_primes_down_rejects_parameters_below_minimum() {
    assert_eq!(get_primes_down(1, 1024, 3), Vec::<u64>::new());
    assert_eq!(get_primes_down(30, 0, 3), Vec::<u64>::new());
}

#[test]
fn get_primes_down_with_count_zero_is_empty() {
    assert_eq!(get_primes_down(30, 1024, 0), Vec::<u64>::new());
    assert_eq!(get_primes_down(3, 1, 0), Vec::<u64>::new());
    assert_eq!(get_primes_down(4, 8, 0), Vec::<u64>::new());
}

#[test]
fn get_primes_down_never_exceeds_count() {
    for count in 0usize..12 {
        assert!(get_primes_down(6, 2, count).len() <= count);
        assert!(get_primes_down(30, 1024, count.min(3)).len() <= count);
    }
    assert_eq!(get_primes_down(3, 1, 1), vec![7]);
    assert_eq!(get_primes_down(3, 1, 5), vec![7, 5, 3]);
}

#[test]
fn get_primes_down_is_strictly_descending_and_complete() {
    for logq in 2u32..11 {
        for n in 1u64..10 {
            let limit = 1u64 << logq;
            let mut all = Vec::new();
            let mut p = limit;
            while p >= 2 {
                if p % (2 * n) == 1 && is_prime(p) {
                    all.push(p);
                }
                p -= 1;
            }
            for count in 0usize..6 {
                let got = get_primes_down(logq, n, count);
                let want: Vec<u64> = all.iter().copied().take(count).collect();
                assert_eq!(got, want);
                assert!(got.len() <= count);
                for w in got.windows(2) {
                    assert!(w[0] > w[1]);
                }
            }
        }
    }
}

#[test]
fn get_primes_down_starts_with_get_first_prime_down() {
    for logq in 2u32..16 {
        for n in [1u64, 2, 4, 8, 16, 32] {
            let first = get_first_prime_down(logq, n);
            let primes = get_primes_down(logq, n, 2);
            assert_eq!(primes.first().copied(), first);
        }
    }
}
