use ntt_primes::primes::primitives::{
    find_primitive_root, is_generator, is_ntt_friendly_prime, is_prime, mod_exp, prime_factors,
};

#[test]
fn test_is_prime() {
    assert!(is_prime(2));
    assert!(is_prime(3));
    assert!(is_prime(17));
    assert!(is_prime(65537));

    assert!(!is_prime(1));
    assert!(!is_prime(4));
    assert!(!is_prime(15));
    assert!(!is_prime(100));
}

#[test]
fn test_is_ntt_friendly_prime() {
    // Known NTT-friendly prime for N=1024
    let q = 1073707009;
    let n = 1024;
    assert!(is_ntt_friendly_prime(q, n));

    // Not prime
    assert!(!is_ntt_friendly_prime(1073707008, n));

    // Not ≡ 1 mod 2N
    assert!(!is_ntt_friendly_prime(1073707010, n));
}

#[test]
fn test_find_primitive_root() {
    let q = 1073707009;
    let n = 1024;

    if let Some(root) = find_primitive_root(q, n) {
        // Verify it's a 2N-th root of unity
        let two_n = 2 * n;
        assert_eq!(mod_exp(root, two_n, q), 1);

        // Verify it's primitive (not an m-th root for any m < 2N)
        // We'll just check a few divisors to keep the test fast
        for &divisor in &[2, 4, 8, 16, 32, 64, 128, 256, 512, 1024] {
            if two_n % divisor == 0 {
                assert_ne!(mod_exp(root, divisor, q), 1);
            }
        }
    } else {
        panic!("Should find primitive root for NTT-friendly prime");
    }
}

#[test]
fn is_prime_rejects_everything_below_two() {
    assert!(!is_prime(0));
    assert!(!is_prime(1));
}

#[test]
fn is_prime_rejects_even_numbers_above_two() {
    let mut n: u64 = 4;
    while n <= 2000 {
        assert!(!is_prime(n));
        n += 2;
    }
    assert!(!is_prime(1u64 << 40));
    assert!(!is_prime(u64::MAX - 1));
}

#[test]
fn is_prime_agrees_with_a_divisor_count_on_small_numbers() {
    for n in 0u64..600 {
        let mut divisors = 0;
        for d in 1..=n {
            if n % d == 0 {
                divisors += 1;
            }
        }
        assert_eq!(is_prime(n), divisors == 2);
    }
}

#[test]
fn is_prime_handles_squares_of_primes() {
    assert!(!is_prime(9));
    assert!(!is_prime(25));
    assert!(!is_prime(49));
    assert!(!is_prime(65537 * 65537));
    assert!(is_prime(4294967291));
    assert!(is_prime(1000003));
    assert!(!is_prime(1000003 * 1000003));
}

#[test]
fn is_prime_near_the_top_of_the_range() {
    // 2^64 - 1 = 3 * 5 * 17 * 257 * 641 * 65537 * 6700417
    assert!(!is_prime(u64::MAX));
    assert!(!is_prime(u64::MAX - 1));
    // 2^64 - 3 is a multiple of 13
    assert!(!is_prime(u64::MAX - 2));
    assert_eq!(prime_factors(u64::MAX), vec![3, 5, 17, 257, 641, 65537, 6700417]);
}

#[test]
fn mod_exp_exact_values() {
    assert_eq!(mod_exp(2, 10, 1000), 24);
    assert_eq!(mod_exp(3, 4, 7), 4);
    assert_eq!(mod_exp(5, 3, 13), 8);
    assert_eq!(mod_exp(7, 0, 13), 1);
    assert_eq!(mod_exp(0, 0, 13), 1);
    assert_eq!(mod_exp(0, 5, 13), 0);
    assert_eq!(mod_exp(13, 5, 13), 0);
    assert_eq!(mod_exp(10, 1, 7), 3);
}

#[test]
fn mod_exp_modulus_one_gives_zero() {
    assert_eq!(mod_exp(0, 0, 1), 0);
    assert_eq!(mod_exp(5, 0, 1), 0);
    assert_eq!(mod_exp(5, 17, 1), 0);
}

#[test]
fn mod_exp_does_not_overflow_with_large_operands() {
    let m = u64::MAX;
    // (m - 1)^2 = m^2 - 2m + 1 ≡ 1 (mod m)
    assert_eq!(mod_exp(m - 1, 2, m), 1);
    assert_eq!(mod_exp(m - 1, 3, m), m - 1);
    // 2^64 ≡ 1 (mod 2^64 - 1)
    assert_eq!(mod_exp(2, 64, m), 1);
    // Fermat for the largest prime below 2^64
    let p = 18446744073709551557;
    assert_eq!(mod_exp(3, p - 1, p), 1);
}

#[test]
fn mod_exp_agrees_with_repeated_multiplication() {
    for m in 1u64..30 {
        for b in 0u64..30 {
            let mut want = 1 % m;
            for e in 0u64..20 {
                assert_eq!(mod_exp(b, e, m), want);
                want = want * b % m;
            }
        }
    }
}

#[test]
fn is_ntt_friendly_prime_rejects_out_of_range_parameters() {
    assert!(!is_ntt_friendly_prime(0, 1));
    assert!(!is_ntt_friendly_prime(1, 1));
    assert!(!is_ntt_friendly_prime(1073707009, 0));
    assert!(!is_ntt_friendly_prime(3, u64::MAX));
    assert!(!is_ntt_friendly_prime(u64::MAX, 1u64 << 63));
}

#[test]
fn is_ntt_friendly_prime_small_cases() {
    assert!(is_ntt_friendly_prime(3, 1));
    assert!(is_ntt_friendly_prime(5, 2));
    assert!(is_ntt_friendly_prime(17, 8));
    assert!(is_ntt_friendly_prime(17, 4));
    assert!(!is_ntt_friendly_prime(2, 1));
    assert!(!is_ntt_friendly_prime(7, 2));
    assert!(!is_ntt_friendly_prime(9, 4));
    assert!(!is_ntt_friendly_prime(17, 16));
}

#[test]
fn is_ntt_friendly_prime_implies_prime_and_residue() {
    for n in 1u64..12 {
        for q in 0u64..400 {
            if is_ntt_friendly_prime(q, n) {
                assert!(is_prime(q));
                assert_eq!(q % (2 * n), 1);
            } else {
                assert!(q < 2 || !is_prime(q) || q % (2 * n) != 1);
            }
        }
    }
}

#[test]
fn prime_factors_exact_values() {
    assert_eq!(prime_factors(0), Vec::<u64>::new());
    assert_eq!(prime_factors(1), Vec::<u64>::new());
    assert_eq!(prime_factors(2), vec![2]);
    assert_eq!(prime_factors(8), vec![2]);
    assert_eq!(prime_factors(9), vec![3]);
    assert_eq!(prime_factors(12), vec![2, 3]);
    assert_eq!(prime_factors(97), vec![97]);
    assert_eq!(prime_factors(360), vec![2, 3, 5]);
    assert_eq!(prime_factors(2 * 3 * 5 * 7 * 11 * 13), vec![2, 3, 5, 7, 11, 13]);
    assert_eq!(prime_factors(1073707008), vec![2, 3, 11, 15887]);
    assert_eq!(prime_factors(65537 * 65537), vec![65537]);
}

#[test]
fn prime_factors_are_ascending_distinct_prime_divisors() {
    for n in 1u64..2000 {
        let factors = prime_factors(n);
        for w in factors.windows(2) {
            assert!(w[0] < w[1]);
        }
        for &f in &factors {
            assert!(is_prime(f));
            assert_eq!(n % f, 0);
        }
        for p in 2..=n {
            if is_prime(p) && n % p == 0 {
                assert!(factors.contains(&p));
            }
        }
    }
}

#[test]
fn is_generator_small_primes() {
    // the generators modulo 7 are 3 and 5
    assert!(!is_generator(1, 7));
    assert!(!is_generator(2, 7));
    assert!(is_generator(3, 7));
    assert!(!is_generator(4, 7));
    assert!(is_generator(5, 7));
    assert!(!is_generator(6, 7));
    // modulo 17 the generators are 3, 5, 6, 7, 10, 11, 12, 14
    let gens: Vec<u64> = (1..17).filter(|&g| is_generator(g, 17)).collect();
    assert_eq!(gens, vec![3, 5, 6, 7, 10, 11, 12, 14]);
}

#[test]
fn is_generator_means_full_order_for_small_primes() {
    for p in 3u64..60 {
        if !is_prime(p) {
            continue;
        }
        for g in 1..p {
            let mut order = 1;
            let mut x = g;
            while x != 1 {
                x = x * g % p;
                order += 1;
            }
            assert_eq!(is_generator(g, p), order == p - 1);
        }
    }
}

#[test]
fn is_generator_with_no_prime_factor_to_test() {
    // p - 1 is 0 or 1: there is no prime factor, so the test passes
    assert!(is_generator(5, 1));
    assert!(is_generator(1, 2));
}

#[test]
fn find_primitive_root_exact_values() {
    // smallest generator of 17 is 3; for n = 8 the root is 3 itself
    assert_eq!(find_primitive_root(17, 8), Some(3));
    // for n = 4 it is 3^2 = 9, for n = 2 it is 3^4 = 81 mod 17 = 13, for n = 1 it is 16
    assert_eq!(find_primitive_root(17, 4), Some(9));
    assert_eq!(find_primitive_root(17, 2), Some(13));
    assert_eq!(find_primitive_root(17, 1), Some(16));
    assert_eq!(find_primitive_root(3, 1), Some(2));
    // smallest generator of 7 is 3; (7 - 1) / 6 = 1
    assert_eq!(find_primitive_root(7, 3), Some(3));
    // smallest generator of 41 is 6; 6^(40 / 8) mod 41 = 27
    assert_eq!(find_primitive_root(41, 4), Some(27));
}

#[test]
fn find_primitive_root_exact_large_values() {
    // the smallest generator of 1073707009 is 23
    assert!(is_generator(23, 1073707009));
    for g in 2..23 {
        assert!(!is_generator(g, 1073707009));
    }
    assert_eq!(find_primitive_root(1073707009, 1024), Some(992735929));
    assert_eq!(mod_exp(23, (1073707009 - 1) / 2048, 1073707009), 992735929);
    // smallest generators: 11 for 12289, 17 for 7681, 3 for 65537
    assert_eq!(find_primitive_root(12289, 1024), Some(1945));
    assert_eq!(find_primitive_root(7681, 256), Some(7146));
    assert_eq!(find_primitive_root(65537, 32768), Some(3));
}

#[test]
fn find_primitive_root_rejects_unfriendly_moduli() {
    assert_eq!(find_primitive_root(1073707008, 1024), None);
    assert_eq!(find_primitive_root(1073707010, 1024), None);
    assert_eq!(find_primitive_root(17, 16), None);
    assert_eq!(find_primitive_root(2, 1), None);
    assert_eq!(find_primitive_root(0, 1), None);
    assert_eq!(find_primitive_root(17, 0), None);
    assert_eq!(find_primitive_root(15, 7), None);
}

#[test]
fn find_primitive_root_has_exact_order_two_n() {
    for n in 1u64..40 {
        for q in 2u64..500 {
            match find_primitive_root(q, n) {
                Some(root) => {
                    assert!(is_ntt_friendly_prime(q, n));
                    assert_eq!(mod_exp(root, 2 * n, q), 1);
                    for d in 1..2 * n {
                        assert_ne!(mod_exp(root, d, q), 1);
                    }
                }
                None => assert!(!is_ntt_friendly_prime(q, n)),
            }
        }
    }
}

#[test]
fn find_primitive_root_is_deterministic() {
    let first = find_primitive_root(1073707009, 1024);
    assert_eq!(first, find_primitive_root(1073707009, 1024));
    assert!(first.is_some());
}
