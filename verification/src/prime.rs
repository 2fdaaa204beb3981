//! Primality of the modulus, established by trial division up to its square
//! root; the bit-level solver discharges the whole range of candidate
//! divisors at once.

use vstd::arithmetic::div_mod::{lemma_fundamental_div_mod, lemma_mod_multiples_basic};
use vstd::prelude::*;

use crate::modpow::P;

verus! {

/// No divisor of the modulus lies below `31623`, the least integer whose
/// square exceeds `P`.
proof fn lemma_no_small_divisor()
    ensures
        forall|d: int| 2 <= d < 31623 ==> #[trigger] ((P as int) % d) != 0,
{
    assert(forall|d: u32| 2 <= d < 31623 ==> #[trigger] (1000000007u32 % d) != 0) by (bit_vector);
    assert forall|d: int| 2 <= d < 31623 implies #[trigger] ((P as int) % d) != 0 by {
        let du = d as u32;
        assert(1000000007u32 % du != 0);
        assert((P as int) % d == (1000000007u32 % du) as int);
    };
}

/// The modulus is prime: no `d` with `2 <= d < P` divides it. Trial division
/// need only reach `31623`, since `31623 * 31623` exceeds `P`, so a proper
/// factorization would put its smaller factor below that bound.
pub proof fn lemma_p_prime()
    ensures
        forall|d: int| 2 <= d < P ==> #[trigger] ((P as int) % d) != 0,
{
    lemma_no_small_divisor();
    assert forall|d: int| 2 <= d < P implies #[trigger] ((P as int) % d) != 0 by {
        if (P as int) % d == 0 {
            let q = (P as int) / d;
            lemma_fundamental_div_mod(P as int, d);
            assert(d * q == P as int);
            assert(2 <= q < P as int) by (nonlinear_arith)
                requires
                    d * q == P as int,
                    2 <= d < P as int,
            ;
            if d >= 31623 {
                assert(q < 31623) by (nonlinear_arith)
                    requires
                        d * q == P as int,
                        d >= 31623,
                        q >= 2,
                ;
                lemma_mod_multiples_basic(d, q);
                assert((P as int) % q != 0);
                assert(false);
            }
        }
    };
}

} // verus!
