//! The prime modulus, the specification of iterated modular products, and
//! fast modular exponentiation.

use vstd::arithmetic::div_mod::{
    lemma_fundamental_div_mod, lemma_mod_add_multiples_vanish, lemma_mod_bound,
    lemma_mod_multiples_vanish, lemma_mul_mod_noop_left, lemma_mul_mod_noop_right,
    lemma_small_mod,
};
use vstd::arithmetic::mul::{lemma_mul_is_associative, lemma_mul_nonnegative, lemma_mul_upper_bound};
use vstd::arithmetic::power;
use vstd::prelude::*;

verus! {

/// The fixed prime modulus of the field.
pub const P: i64 = 1_000_000_007;

/// `x` multiplied into `1` a total of `n` times, each product reduced modulo
/// `P`: the canonical residue of `x^n`, always in `[0, P)` (and `1` when
/// `n == 0`, for every `x`, including `x == 0`).
pub open spec fn pow_mod(x: int, n: nat) -> int
    decreases n,
{
    if n == 0 {
        1
    } else {
        (pow_mod(x, (n - 1) as nat) * x) % (P as int)
    }
}

/// `pow_mod` is the mathematical power `x^n` reduced modulo `P`.
pub proof fn lemma_pow_mod_is_pow(x: int, n: nat)
    ensures
        pow_mod(x, n) == power::pow(x, n) % (P as int),
    decreases n,
{
    if n == 0 {
        power::lemma_pow0(x);
        lemma_small_mod(1nat, P as nat);
    } else {
        lemma_pow_mod_is_pow(x, (n - 1) as nat);
        lemma_mul_mod_noop_left(power::pow(x, (n - 1) as nat), x, P as int);
        reveal(power::pow);
        assert(power::pow(x, n) == x * power::pow(x, (n - 1) as nat));
        vstd::arithmetic::mul::lemma_mul_is_commutative(power::pow(x, (n - 1) as nat), x);
    }
}

/// The iterated product is always a canonical residue.
pub proof fn lemma_pow_mod_bounds(x: int, n: nat)
    ensures
        0 <= pow_mod(x, n) < P,
{
    if n != 0 {
        lemma_mod_bound(pow_mod(x, (n - 1) as nat) * x, P as int);
    }
}

/// Every positive power of the zero residue is zero.
pub proof fn lemma_pow_mod_zero(n: nat)
    ensures
        n >= 1 ==> pow_mod(0, n) == 0,
{
    if n >= 1 {
        lemma_small_mod(0nat, P as nat);
    }
}

/// Reducing the base modulo `P` beforehand does not change the power's
/// residue: exponentiation is periodic in the base.
pub proof fn lemma_pow_mod_periodic(x: int, n: nat)
    ensures
        pow_mod(x % (P as int), n) == pow_mod(x, n),
{
    lemma_pow_mod_is_pow(x, n);
    lemma_pow_mod_is_pow(x % (P as int), n);
    power::lemma_pow_mod_noop(x, n, P as int);
}

/// Reduce an arbitrary machine integer into the canonical range `[0, P)`.
/// Two reductions are needed because the machine remainder of a negative
/// value is negative.
pub(crate) fn normalize(v: i64) -> (r: i64)
    ensures
        0 <= r < P,
        r as int == (v as int) % (P as int),
{
    let m: i64 = v % P;
    proof {
        lemma_mod_bound(v as int, P as int);
        if v < 0 {
            lemma_mod_bound(-(v as int), P as int);
            lemma_fundamental_div_mod(-(v as int), P as int);
            lemma_mod_multiples_vanish(
                -((-(v as int)) / (P as int)),
                m as int,
                P as int,
            );
        }
        lemma_mod_bound(m as int, P as int);
        lemma_mod_add_multiples_vanish(m as int, P as int);
    }
    (m + P) % P
}

/// Binary exponentiation: the residue of `x^n` modulo `P`, in `O(log n)`
/// multiplications. By Fermat's little theorem, `pow(x, P - 2)` is the
/// multiplicative inverse of a nonzero residue `x`.
pub fn pow(x: i64, n: i64) -> (r: i64)
    requires
        0 <= n,
    ensures
        0 <= r < P,
        r as int == pow_mod(x as int, n as nat),
        n == 0 ==> r == 1,
{
    let mut b: i64 = normalize(x);
    let mut y: i64 = 1;
    let mut m: i64 = n;
    proof {
        lemma_pow_mod_is_pow(x as int, n as nat);
        power::lemma_pow_mod_noop(x as int, n as nat, P as int);
    }
    while m > 0
        invariant
            0 <= b < P,
            0 <= y < P,
            0 <= m,
            (y * power::pow(b as int, m as nat)) % (P as int) == pow_mod(x as int, n as nat),
        decreases m,
    {
        if m % 2 != 0 {
            proof {
                lemma_mul_nonnegative(y as int, b as int);
                lemma_mul_upper_bound(y as int, (P - 1) as int, b as int, (P - 1) as int);
                reveal(power::pow);
                assert(power::pow(b as int, m as nat)
                    == (b as int) * power::pow(b as int, (m - 1) as nat));
                lemma_mul_mod_noop_left(
                    (y as int) * (b as int),
                    power::pow(b as int, (m - 1) as nat),
                    P as int,
                );
                lemma_mul_is_associative(y as int, b as int, power::pow(b as int, (m - 1) as nat));
                lemma_mod_bound((y as int) * (b as int), P as int);
            }
            y = (y * b) % P;
            m = m - 1;
        }
        proof {
            lemma_mul_nonnegative(b as int, b as int);
            lemma_mul_upper_bound(b as int, (P - 1) as int, b as int, (P - 1) as int);
            power::lemma_square_is_pow2(b as int);
            power::lemma_pow_multiplies(b as int, 2nat, (m / 2) as nat);
            power::lemma_pow_mod_noop((b as int) * (b as int), (m / 2) as nat, P as int);
            lemma_mul_mod_noop_right(
                y as int,
                power::pow((b as int) * (b as int), (m / 2) as nat),
                P as int,
            );
            lemma_mul_mod_noop_right(
                y as int,
                power::pow(((b as int) * (b as int)) % (P as int), (m / 2) as nat),
                P as int,
            );
            lemma_mod_bound((b as int) * (b as int), P as int);
        }
        b = (b * b) % P;
        m = m / 2;
    }
    proof {
        power::lemma_pow0(b as int);
        lemma_small_mod(y as nat, P as nat);
    }
    y
}

} // verus!
