//! What holds across the functions of this library, stated over the model in which their
//! contracts are written.

use crate::primes::divisibility::lemma_ntt_friendly_bounds;
use crate::primes::generators::lemma_generator_exists;
use crate::primes::model::{
    divides, has_order, least_generator, ntt_friendly, passes_generator_test, pow_mod, prime,
    primitive_root_found,
};
use crate::primes::orders::{lemma_generator_test_decides_order, lemma_root_from_generator};
use vstd::arithmetic::div_mod::{lemma_mod_bound, lemma_small_mod};
use vstd::arithmetic::power::pow;
use vstd::prelude::*;

verus! {

/// An NTT-friendly modulus is a prime, and it leaves the residue 1 modulo `2n`.
pub proof fn lemma_ntt_friendly_is_prime(q: int, n: int)
    requires
        ntt_friendly(q, n),
    ensures
        prime(q),
        q % (2 * n) == 1,
{
}

/// Round trip of the root search: a root `psi` found for `(q, n)` satisfies
/// `psi^(2n) ≡ 1 (mod q)`, while `psi^d ≢ 1` for every divisor `d` of `2n` below `2n`;
/// indeed for every positive `d` below `2n`, so `psi` has order exactly `2n`.
pub proof fn lemma_found_root_is_primitive(q: int, n: int, psi: int)
    requires
        primitive_root_found(q, n, psi),
    ensures
        pow_mod(psi, 2 * n, q) == 1,
        forall|d: int| 1 <= d < 2 * n && #[trigger] divides(d, 2 * n) ==> pow_mod(psi, d, q) != 1,
        has_order(psi, 2 * n, q),
        0 <= psi < q,
{
    let g = choose|g: int| #[trigger]
        least_generator(g, q) && psi == pow_mod(g, (q - 1) / (2 * n), q);
    lemma_small_mod(g as nat, q as nat);
    lemma_generator_test_decides_order(g, q);
    lemma_root_from_generator(g, q, n);
    lemma_mod_bound(pow(g, ((q - 1) / (2 * n)) as nat), q);
}

/// For a prime `q`, the smallest number that passes the generator test is the smallest
/// generator: the smallest `g` from 2 up whose powers run through all `q - 1` nonzero
/// residues before they return to 1.
pub proof fn lemma_least_generator_has_full_order(g: int, q: int)
    requires
        prime(q),
    ensures
        least_generator(g, q) <==> {
            &&& 2 <= g < q
            &&& has_order(g, q - 1, q)
            &&& forall|h: int| 2 <= h < g ==> !#[trigger] has_order(h, q - 1, q)
        },
{
    if 2 <= g < q {
        lemma_small_mod(g as nat, q as nat);
        lemma_generator_test_decides_order(g, q);
        assert forall|h: int| 2 <= h < g implies (#[trigger] has_order(h, q - 1, q)
            <==> passes_generator_test(h, q)) by {
            lemma_small_mod(h as nat, q as nat);
            lemma_generator_test_decides_order(h, q);
        }
        if least_generator(g, q) {
            assert forall|h: int| 2 <= h < g implies !#[trigger] has_order(h, q - 1, q) by {
                assert(!passes_generator_test(h, q));
            }
        } else if has_order(g, q - 1, q) && (forall|h: int|
            2 <= h < g ==> !#[trigger] has_order(h, q - 1, q)) {
            assert forall|h: int| 2 <= h < g implies !#[trigger] passes_generator_test(h, q) by {
                assert(!has_order(h, q - 1, q));
            }
        }
    }
}

/// Among the numbers from 2 up to `top` that pass the generator test modulo `q`, if there
/// is any, there is a smallest.
proof fn lemma_least_generator(q: int, top: int) -> (g: int)
    requires
        2 <= top < q,
        passes_generator_test(top, q),
    ensures
        least_generator(g, q),
        g <= top,
    decreases top,
{
    if exists|h: int| 2 <= h < top && #[trigger] passes_generator_test(h, q) {
        let h = choose|h: int| 2 <= h < top && #[trigger] passes_generator_test(h, q);
        lemma_least_generator(q, h)
    } else {
        top
    }
}

/// The root search is a function: for an NTT-friendly modulus it yields a root, and it
/// cannot yield two different ones.
pub proof fn lemma_root_search_is_total_and_deterministic(q: int, n: int)
    requires
        ntt_friendly(q, n),
    ensures
        exists|psi: int| #[trigger] primitive_root_found(q, n, psi),
        forall|psi: int, other: int| #[trigger]
            primitive_root_found(q, n, psi) && #[trigger] primitive_root_found(q, n, other)
                ==> psi == other,
{
    lemma_ntt_friendly_bounds(q, n);
    let top = lemma_generator_exists(q);
    let g = lemma_least_generator(q, top);
    let found = pow_mod(g, (q - 1) / (2 * n), q);
    assert(primitive_root_found(q, n, found));
    assert forall|psi: int, other: int| #[trigger]
        primitive_root_found(q, n, psi) && #[trigger] primitive_root_found(
            q,
            n,
            other,
        ) implies psi == other by {
        let g1 = choose|g: int| #[trigger]
            least_generator(g, q) && psi == pow_mod(g, (q - 1) / (2 * n), q);
        let g2 = choose|g: int| #[trigger]
            least_generator(g, q) && other == pow_mod(g, (q - 1) / (2 * n), q);
        if g1 < g2 {
            assert(!passes_generator_test(g1, q));
        }
        if g2 < g1 {
            assert(!passes_generator_test(g2, q));
        }
    }
}

} // verus!
