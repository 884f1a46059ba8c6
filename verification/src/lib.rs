//! Primes for the number-theoretic transform: primes `q ≡ 1 (mod 2N)` for a ring dimension
//! `N`, found by a downward search from `2^logq`, and primitive `2N`-th roots of unity
//! modulo such primes. Every function is verified against a mathematical model.

pub mod primes;
