//! Batch modular inverses: the inverse of every integer in `[1, n)` in
//! linear time, through the recurrence that expresses the inverse of `i`
//! by the inverse of `P % i`.

use vstd::arithmetic::div_mod::{
    lemma_fundamental_div_mod, lemma_mod_bound, lemma_mod_multiples_vanish,
    lemma_mul_mod_noop_left, lemma_small_mod,
};
use vstd::arithmetic::mul::{
    lemma_mul_is_associative, lemma_mul_nonnegative, lemma_mul_upper_bound,
};
use vstd::prelude::*;

use crate::modpow::P;
use crate::prime::lemma_p_prime;

verus! {

/// One step of the recurrence. With `P == q * i + r` the congruence
/// `q * i == -r (mod P)` turns a known inverse of `r` into one of `i`:
/// `(P - vr) * q * i == vr * r == 1 (mod P)`.
proof fn lemma_inv_step(i: int, q: int, r: int, vr: int, w: int, z: int)
    requires
        2 <= i < P,
        q == (P as int) / i,
        r == (P as int) % i,
        1 <= r < i,
        0 <= vr < P,
        (vr * r) % (P as int) == 1,
        w == ((P as int) - vr) % (P as int),
        z == (w * q) % (P as int),
    ensures
        0 <= z < P,
        (z * i) % (P as int) == 1,
{
    let p = P as int;
    lemma_fundamental_div_mod(p, i);
    lemma_mod_bound(w * q, p);
    assert(vr != 0) by {
        lemma_small_mod(0nat, p as nat);
    };
    lemma_small_mod((p - vr) as nat, p as nat);
    lemma_mul_mod_noop_left(w * q, i, p);
    lemma_mul_is_associative(w, q, i);
    assert((p - vr) * (q * i) == p * (p - r - vr) + vr * r) by (nonlinear_arith)
        requires
            p == i * q + r,
    ;
    lemma_mod_multiples_vanish(p - r - vr, vr * r, p);
}

/// The modular inverse of every `i` in `[1, n)`, computed in linear time.
/// Entry `0` is a zero sentinel (zero has no inverse), so for `n < 2` the
/// whole table is zero. The bound `n <= P` is inherent: an index divisible
/// by the modulus could have no inverse.
pub fn inv_dp(n: usize) -> (r: Vec<i64>)
    requires
        n as int <= P as int,
    ensures
        r.len() == n,
        forall|i: int| 0 <= i < n ==> 0 <= #[trigger] r[i] < P,
        n >= 1 ==> r[0] == 0,
        forall|i: int| 1 <= i < n ==> (#[trigger] r[i] * i) % (P as int) == 1,
{
    let mut dp: Vec<i64> = Vec::new();
    while dp.len() < n
        invariant
            dp.len() <= n,
            forall|j: int| 0 <= j < dp.len() ==> dp[j] == 0,
        decreases n - dp.len(),
    {
        dp.push(0);
    }
    if n >= 2 {
        dp[1] = 1;
        proof {
            lemma_small_mod(1nat, P as nat);
            lemma_p_prime();
        }
        let mut i: usize = 2;
        while i < n
            invariant
                2 <= i <= n,
                n as int <= P as int,
                dp.len() == n,
                dp[0] == 0,
                forall|j: int| 0 <= j < n ==> 0 <= #[trigger] dp[j] < P,
                forall|j: int| 1 <= j < i ==> (#[trigger] dp[j] * j) % (P as int) == 1,
                forall|d: int| 2 <= d < P ==> #[trigger] ((P as int) % d) != 0,
            decreases n - i,
        {
            let iv: i64 = i as i64;
            let q: i64 = P / iv;
            let r0: i64 = P % iv;
            proof {
                lemma_mod_bound(P as int, iv as int);
                assert((P as int) % (iv as int) != 0);
            }
            let vr: i64 = dp[r0 as usize];
            let w: i64 = (P - vr) % P;
            proof {
                lemma_mod_bound((P as int) - (vr as int), P as int);
                lemma_fundamental_div_mod(P as int, iv as int);
                assert((q as int) <= (P - 1) as int) by (nonlinear_arith)
                    requires
                        (iv as int) * (q as int) + (r0 as int) == P as int,
                        (iv as int) >= 2,
                        (r0 as int) >= 0,
                        (q as int) >= 0,
                ;
                lemma_mul_nonnegative(w as int, q as int);
                lemma_mul_upper_bound(w as int, (P - 1) as int, q as int, (P - 1) as int);
            }
            let z: i64 = (w * q) % P;
            proof {
                lemma_inv_step(iv as int, q as int, r0 as int, vr as int, w as int, z as int);
            }
            dp[i] = z;
            i = i + 1;
        }
    }
    dp
}

} // verus!
