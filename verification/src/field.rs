//! The field-element type: a residue normalized into `[0, P)`, with
//! construction from arbitrary integers and the four arithmetic operators.

use core::ops::{Add, Div, Mul, Sub};
use vstd::arithmetic::div_mod::{
    lemma_add_mod_noop, lemma_mod_bound, lemma_mul_mod_noop_left, lemma_mul_mod_noop_right,
    lemma_small_mod,
};
use vstd::arithmetic::mul::lemma_mul_is_associative;
use vstd::prelude::*;
use vstd::string::StringExecFns;

use crate::modpow::{lemma_pow_mod_bounds, lemma_pow_mod_zero, normalize, pow, pow_mod, P};

verus! {

/// An element of the finite field: the canonical residue in `[0, P)`.
#[derive(PartialEq, Eq, Structural, Ord, Clone, Copy, Debug)]
pub struct Finite(pub i64);

/// The residue of an arbitrary integer: what construction from `v` yields.
pub open spec fn spec_from(v: int) -> Finite {
    Finite((v % (P as int)) as i64)
}

/// The sum in the field.
pub open spec fn spec_add(a: Finite, b: Finite) -> Finite {
    spec_from(a.0 + b.0)
}

/// The difference in the field.
pub open spec fn spec_sub(a: Finite, b: Finite) -> Finite {
    spec_from(a.0 - b.0)
}

/// The product in the field.
pub open spec fn spec_mul(a: Finite, b: Finite) -> Finite {
    spec_from(a.0 * b.0)
}

/// The Fermat power `b^(P-2)`: the multiplicative inverse of a nonzero
/// residue, and `0` for the zero residue.
pub open spec fn spec_inv(b: Finite) -> Finite {
    Finite(pow_mod(b.0 as int, (P - 2) as nat) as i64)
}

/// The quotient in the field: multiplication by the Fermat power of the
/// divisor.
pub open spec fn spec_div(a: Finite, b: Finite) -> Finite {
    spec_mul(a, spec_inv(b))
}

impl Finite {
    /// The value is a canonical residue.
    pub open spec fn wf(self) -> bool {
        0 <= self.0 < P
    }

    /// The residue of `self` raised to the exponent `e`.
    pub fn pow(self, e: i64) -> (r: Finite)
        requires
            0 <= e,
        ensures
            r.0 as int == pow_mod(self.0 as int, e as nat),
            r.wf(),
    {
        Finite(pow(self.0, e))
    }
}

impl From<i64> for Finite {
    /// Normalization of an arbitrary integer into its residue.
    fn from(value: i64) -> (r: Finite) {
        Finite(normalize(value))
    }
}

impl vstd::std_specs::convert::FromSpecImpl<i64> for Finite {
    open spec fn obeys_from_spec() -> bool {
        true
    }

    open spec fn from_spec(value: i64) -> Finite {
        spec_from(value as int)
    }
}

impl Add<Finite> for Finite {
    type Output = Finite;

    fn add(self, rhs: Finite) -> (r: Finite) {
        Finite(normalize(self.0 + rhs.0))
    }
}

impl vstd::std_specs::ops::AddSpecImpl<Finite> for Finite {
    open spec fn obeys_add_spec() -> bool {
        true
    }

    open spec fn add_req(self, rhs: Finite) -> bool {
        self.wf() && rhs.wf()
    }

    open spec fn add_spec(self, rhs: Finite) -> Finite {
        spec_add(self, rhs)
    }
}

impl Sub<Finite> for Finite {
    type Output = Finite;

    fn sub(self, rhs: Finite) -> (r: Finite) {
        Finite(normalize(self.0 - rhs.0))
    }
}

impl vstd::std_specs::ops::SubSpecImpl<Finite> for Finite {
    open spec fn obeys_sub_spec() -> bool {
        true
    }

    open spec fn sub_req(self, rhs: Finite) -> bool {
        self.wf() && rhs.wf()
    }

    open spec fn sub_spec(self, rhs: Finite) -> Finite {
        spec_sub(self, rhs)
    }
}

impl Add<i64> for Finite {
    type Output = Finite;

    /// The raw right-hand integer is normalized first.
    fn add(self, rhs: i64) -> (r: Finite) {
        let f = Finite::from(rhs);
        proof {
            lemma_mod_bound(rhs as int, P as int);
        }
        self + f
    }
}

impl vstd::std_specs::ops::AddSpecImpl<i64> for Finite {
    open spec fn obeys_add_spec() -> bool {
        true
    }

    open spec fn add_req(self, rhs: i64) -> bool {
        self.wf()
    }

    open spec fn add_spec(self, rhs: i64) -> Finite {
        spec_add(self, spec_from(rhs as int))
    }
}

impl Sub<i64> for Finite {
    type Output = Finite;

    /// The raw right-hand integer is normalized first.
    fn sub(self, rhs: i64) -> (r: Finite) {
        let f = Finite::from(rhs);
        proof {
            lemma_mod_bound(rhs as int, P as int);
        }
        self - f
    }
}

impl vstd::std_specs::ops::SubSpecImpl<i64> for Finite {
    open spec fn obeys_sub_spec() -> bool {
        true
    }

    open spec fn sub_req(self, rhs: i64) -> bool {
        self.wf()
    }

    open spec fn sub_spec(self, rhs: i64) -> Finite {
        spec_sub(self, spec_from(rhs as int))
    }
}

impl Mul<Finite> for Finite {
    type Output = Finite;

    fn mul(self, rhs: Finite) -> (r: Finite) {
        proof {
            vstd::arithmetic::mul::lemma_mul_nonnegative(self.0 as int, rhs.0 as int);
            vstd::arithmetic::mul::lemma_mul_upper_bound(
                self.0 as int,
                (P - 1) as int,
                rhs.0 as int,
                (P - 1) as int,
            );
        }
        Finite(normalize(self.0 * rhs.0))
    }
}

impl vstd::std_specs::ops::MulSpecImpl<Finite> for Finite {
    open spec fn obeys_mul_spec() -> bool {
        true
    }

    open spec fn mul_req(self, rhs: Finite) -> bool {
        self.wf() && rhs.wf()
    }

    open spec fn mul_spec(self, rhs: Finite) -> Finite {
        spec_mul(self, rhs)
    }
}

impl Mul<i64> for Finite {
    type Output = Finite;

    /// The raw right-hand integer is normalized first.
    fn mul(self, rhs: i64) -> (r: Finite) {
        let f = Finite::from(rhs);
        proof {
            lemma_mod_bound(rhs as int, P as int);
        }
        self * f
    }
}

impl vstd::std_specs::ops::MulSpecImpl<i64> for Finite {
    open spec fn obeys_mul_spec() -> bool {
        true
    }

    open spec fn mul_req(self, rhs: i64) -> bool {
        self.wf()
    }

    open spec fn mul_spec(self, rhs: i64) -> Finite {
        spec_mul(self, spec_from(rhs as int))
    }
}

impl Div<Finite> for Finite {
    type Output = Finite;

    /// Division by the zero residue silently yields zero, since the Fermat
    /// power of zero is zero.
    fn div(self, rhs: Finite) -> (r: Finite) {
        self * rhs.pow(P - 2)
    }
}

impl vstd::std_specs::ops::DivSpecImpl<Finite> for Finite {
    open spec fn obeys_div_spec() -> bool {
        true
    }

    open spec fn div_req(self, rhs: Finite) -> bool {
        self.wf() && rhs.wf()
    }

    open spec fn div_spec(self, rhs: Finite) -> Finite {
        spec_div(self, rhs)
    }
}

impl Div<i64> for Finite {
    type Output = Finite;

    /// The raw right-hand integer is normalized first.
    fn div(self, rhs: i64) -> (r: Finite) {
        let f = Finite::from(rhs);
        proof {
            lemma_mod_bound(rhs as int, P as int);
        }
        self / f
    }
}

impl vstd::std_specs::ops::DivSpecImpl<i64> for Finite {
    open spec fn obeys_div_spec() -> bool {
        true
    }

    open spec fn div_req(self, rhs: i64) -> bool {
        self.wf()
    }

    open spec fn div_spec(self, rhs: i64) -> Finite {
        spec_div(self, spec_from(rhs as int))
    }
}

impl Finite {
    /// Add a raw integer in place.
    pub fn add_assign(&mut self, rhs: i64)
        requires
            old(self).wf(),
        ensures
            *final(self) == spec_add(*old(self), spec_from(rhs as int)),
    {
        *self = *self + rhs;
    }

    /// Subtract a raw integer in place.
    pub fn sub_assign(&mut self, rhs: i64)
        requires
            old(self).wf(),
        ensures
            *final(self) == spec_sub(*old(self), spec_from(rhs as int)),
    {
        *self = *self - rhs;
    }

    /// Multiply by a raw integer in place.
    pub fn mul_assign(&mut self, rhs: i64)
        requires
            old(self).wf(),
        ensures
            *final(self) == spec_mul(*old(self), spec_from(rhs as int)),
    {
        *self = *self * rhs;
    }

    /// Divide by a raw integer in place.
    pub fn div_assign(&mut self, rhs: i64)
        requires
            old(self).wf(),
        ensures
            *final(self) == spec_div(*old(self), spec_from(rhs as int)),
    {
        *self = *self / rhs;
    }
}

/// The character for one decimal digit.
pub open spec fn digit_char(d: int) -> char {
    if d == 0 {
        '0'
    } else if d == 1 {
        '1'
    } else if d == 2 {
        '2'
    } else if d == 3 {
        '3'
    } else if d == 4 {
        '4'
    } else if d == 5 {
        '5'
    } else if d == 6 {
        '6'
    } else if d == 7 {
        '7'
    } else if d == 8 {
        '8'
    } else {
        '9'
    }
}

/// The plain decimal rendering of a nonnegative integer, most significant
/// digit first and without leading zeroes (`0` itself renders as one digit).
pub open spec fn spec_decimal(v: int) -> Seq<char>
    decreases v,
{
    if v < 10 {
        seq![digit_char(v)]
    } else {
        spec_decimal(v / 10).push(digit_char(v % 10))
    }
}

fn digit_str(d: i64) -> (s: &'static str)
    requires
        0 <= d < 10,
    ensures
        s@ == seq![digit_char(d as int)],
{
    proof {
        reveal_strlit("0");
        reveal_strlit("1");
        reveal_strlit("2");
        reveal_strlit("3");
        reveal_strlit("4");
        reveal_strlit("5");
        reveal_strlit("6");
        reveal_strlit("7");
        reveal_strlit("8");
        reveal_strlit("9");
    }
    let s: &'static str = if d == 0 {
        "0"
    } else if d == 1 {
        "1"
    } else if d == 2 {
        "2"
    } else if d == 3 {
        "3"
    } else if d == 4 {
        "4"
    } else if d == 5 {
        "5"
    } else if d == 6 {
        "6"
    } else if d == 7 {
        "7"
    } else if d == 8 {
        "8"
    } else {
        "9"
    };
    proof {
        assert(s@ =~= seq![digit_char(d as int)]);
    }
    s
}

fn push_decimal(v: i64, out: &mut String)
    requires
        0 <= v,
    ensures
        final(out)@ == old(out)@ + spec_decimal(v as int),
    decreases v,
{
    if v >= 10 {
        push_decimal(v / 10, out);
        let d = digit_str(v % 10);
        out.append(d);
        proof {
            assert(out@ =~= old(out)@ + spec_decimal(v as int));
        }
    } else {
        let d = digit_str(v);
        out.append(d);
        proof {
            assert(out@ =~= old(out)@ + spec_decimal(v as int));
        }
    }
}

impl Finite {
    /// The residue rendered as plain decimal text.
    pub fn to_string(&self) -> (s: String)
        requires
            self.wf(),
        ensures
            s@ == spec_decimal(self.0 as int),
    {
        let mut s = String::new();
        push_decimal(self.0, &mut s);
        proof {
            assert(s@ =~= spec_decimal(self.0 as int));
        }
        s
    }
}

impl PartialOrd for Finite {
    /// The total order by residue value.
    fn partial_cmp(&self, other: &Finite) -> (r: Option<core::cmp::Ordering>) {
        if self.0 < other.0 {
            Some(core::cmp::Ordering::Less)
        } else if self.0 == other.0 {
            Some(core::cmp::Ordering::Equal)
        } else {
            Some(core::cmp::Ordering::Greater)
        }
    }
}

impl vstd::std_specs::cmp::PartialOrdSpecImpl for Finite {
    open spec fn obeys_partial_cmp_spec() -> bool {
        true
    }

    open spec fn partial_cmp_spec(&self, other: &Finite) -> Option<core::cmp::Ordering> {
        if self.0 < other.0 {
            Some(core::cmp::Ordering::Less)
        } else if self.0 == other.0 {
            Some(core::cmp::Ordering::Equal)
        } else {
            Some(core::cmp::Ordering::Greater)
        }
    }
}

/// Construction is additively homomorphic: the residue of a sum is the field
/// sum of the residues, for all integers.
pub proof fn lemma_from_add_homomorphic(v: int, w: int)
    ensures
        spec_add(spec_from(v), spec_from(w)) == spec_from(v + w),
{
    lemma_mod_bound(v, P as int);
    lemma_mod_bound(w, P as int);
    lemma_add_mod_noop(v, w, P as int);
}

/// Dividing and then multiplying restores the dividend, for every nonzero
/// divisor: `(a / b) * b == a`.
pub proof fn lemma_div_mul_cancel(a: Finite, b: Finite)
    requires
        a.wf(),
        b.wf(),
        b.0 != 0,
    ensures
        spec_mul(spec_div(a, b), b) == a,
{
    let p = P as int;
    let e = spec_inv(b).0 as int;
    lemma_pow_mod_bounds(b.0 as int, (P - 2) as nat);
    crate::fermat::lemma_fermat_inverse(b.0 as int);
    assert((e * (b.0 as int)) % p == 1);
    lemma_mod_bound((a.0 as int) * e, p);
    lemma_mul_mod_noop_left((a.0 as int) * e, b.0 as int, p);
    lemma_mul_is_associative(a.0 as int, e, b.0 as int);
    lemma_mul_mod_noop_right(a.0 as int, e * (b.0 as int), p);
    lemma_small_mod(a.0 as nat, p as nat);
}

/// The latent edge of division: the Fermat power of the zero residue is
/// zero, so dividing by it silently yields the zero residue.
pub proof fn lemma_div_by_zero_residue(a: Finite)
    requires
        a.wf(),
    ensures
        spec_div(a, Finite(0)) == Finite(0),
{
    lemma_pow_mod_zero((P - 2) as nat);
    lemma_small_mod(0nat, P as nat);
    assert(spec_inv(Finite(0)) == Finite(0));
    assert(a.0 * 0 == 0) by (nonlinear_arith);
}

} // verus!
