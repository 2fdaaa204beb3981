//! Fermat's little theorem for the modulus: the `(P-2)`-nd power of a
//! nonzero residue is its multiplicative inverse. Proved by the classical
//! permutation argument: multiplication by `b` permutes the nonzero
//! residues, so the product of all of them absorbs a factor `b^(P-1)`.

use vstd::arithmetic::div_mod::{
    lemma_fundamental_div_mod, lemma_mod_bound, lemma_mod_multiples_basic,
    lemma_mod_multiples_vanish, lemma_mod_self_0, lemma_mul_mod_noop_left,
    lemma_mul_mod_noop_right, lemma_small_mod, lemma_sub_mod_noop,
};
use vstd::arithmetic::power;
use vstd::prelude::*;
use vstd::seq_lib::{commutative_foldl, lemma_fold_left_permutation};
use vstd::set_lib::{lemma_int_range, set_int_range};

use crate::modpow::{lemma_pow_mod_bounds, lemma_pow_mod_is_pow, pow_mod, P};
use crate::prime::lemma_p_prime;

verus! {

/// The extended Euclidean algorithm: a Bezout certificate `(g, x, y)` with
/// `g == a * x + b * y` for a common divisor `g` of `a` and `b`.
proof fn lemma_bezout(a: int, b: int) -> (r: (int, int, int))
    requires
        a > 0,
        0 <= b < a,
    ensures
        r.0 > 0,
        r.0 == a * r.1 + b * r.2,
        a % r.0 == 0,
        b % r.0 == 0,
    decreases b,
{
    if b == 0 {
        lemma_mod_self_0(a);
        lemma_small_mod(0nat, a as nat);
        (a, 1, 0)
    } else {
        let q = a / b;
        let rm = a % b;
        lemma_fundamental_div_mod(a, b);
        lemma_mod_bound(a, b);
        let (g, x, y) = lemma_bezout(b, rm);
        assert(g == a * y + b * (x - q * y)) by (nonlinear_arith)
            requires
                rm == a - b * q,
                g == b * x + rm * y,
        ;
        lemma_fundamental_div_mod(b, g);
        lemma_fundamental_div_mod(rm, g);
        assert(a == (q * (b / g) + rm / g) * g) by (nonlinear_arith)
            requires
                a == b * q + rm,
                b == g * (b / g),
                rm == g * (rm / g),
        ;
        lemma_mod_multiples_basic(q * (b / g) + rm / g, g);
        (g, y, x - q * y)
    }
}

/// Cancellation modulo the prime: if `P` divides `b * c` but `b` is a
/// nonzero residue, then `P` divides `c`.
proof fn lemma_coprime_cancel(b: int, c: int)
    requires
        1 <= b < P,
        (b * c) % (P as int) == 0,
    ensures
        c % (P as int) == 0,
{
    let p = P as int;
    let (g, x, y) = lemma_bezout(p, b);
    if g >= 2 {
        lemma_fundamental_div_mod(b, g);
        assert(g <= b) by (nonlinear_arith)
            requires
                b == g * (b / g),
                b >= 1,
                g >= 2,
        ;
        lemma_p_prime();
        assert((p % g) != 0);
        assert(false);
    }
    lemma_fundamental_div_mod(b * c, p);
    let k = (b * c) / p;
    assert(c == (c * x + k * y) * p) by (nonlinear_arith)
        requires
            1 == p * x + b * y,
            b * c == p * k,
    ;
    lemma_mod_multiples_basic(c * x + k * y, p);
}

/// Multiplication by a nonzero residue is injective on canonical residues.
proof fn lemma_mul_mod_injective(b: int, i: int, j: int)
    requires
        1 <= b < P,
        0 <= i < P,
        0 <= j < P,
        (b * i) % (P as int) == (b * j) % (P as int),
    ensures
        i == j,
{
    let p = P as int;
    lemma_sub_mod_noop(b * i, b * j, p);
    lemma_small_mod(0nat, p as nat);
    assert(b * i - b * j == b * (i - j)) by (nonlinear_arith);
    assert((b * (i - j)) % p == 0);
    lemma_coprime_cancel(b, i - j);
    if i != j {
        if i > j {
            lemma_small_mod((i - j) as nat, p as nat);
        } else {
            lemma_mod_multiples_vanish(1, i - j, p);
            lemma_small_mod((i - j + p) as nat, p as nat);
        }
        assert(false);
    }
}

/// The fold step of a product reduced modulo `P`.
spec fn mul_mod_op() -> spec_fn(int, int) -> int {
    |acc: int, x: int| (acc * x) % (P as int)
}

/// The product of a sequence of integers, reduced modulo `P` at each step.
spec fn prod_mod(s: Seq<int>) -> int {
    s.fold_left(1, mul_mod_op())
}

/// The integers `1, ..., k` in order.
spec fn id_seq(k: nat) -> Seq<int> {
    Seq::new(k, |i: int| i + 1)
}

/// The residues `b * 1, ..., b * k`, each reduced modulo `P`.
spec fn mul_seq(b: int, k: nat) -> Seq<int> {
    Seq::new(k, |i: int| (b * (i + 1)) % (P as int))
}

proof fn lemma_mul_mod_op_commutative()
    ensures
        commutative_foldl(mul_mod_op()),
{
    let p = P as int;
    let f = mul_mod_op();
    assert forall|x: int, y: int, v: int| #[trigger] f(f(v, x), y) == f(f(v, y), x) by {
        lemma_mul_mod_noop_left(v * x, y, p);
        lemma_mul_mod_noop_left(v * y, x, p);
        assert((v * x) * y == (v * y) * x) by (nonlinear_arith);
    };
}

/// The running product of `1, ..., k` is a nonzero residue: none of its
/// factors vanishes modulo the prime.
proof fn lemma_prod_id_bounds(k: nat)
    requires
        k < P,
    ensures
        1 <= prod_mod(id_seq(k)) < P,
    decreases k,
{
    let p = P as int;
    if k == 0 {
        assert(id_seq(0nat) =~= Seq::<int>::empty());
        assert(prod_mod(id_seq(0nat)) == 1);
    } else {
        lemma_prod_id_bounds((k - 1) as nat);
        let s = id_seq(k);
        let prev = prod_mod(id_seq((k - 1) as nat));
        assert(s.drop_last() =~= id_seq((k - 1) as nat));
        assert(s.last() == k as int);
        assert(prod_mod(s) == (prev * (k as int)) % p);
        lemma_mod_bound(prev * (k as int), p);
        if prod_mod(s) == 0 {
            lemma_coprime_cancel(prev, k as int);
            lemma_small_mod(k, P as nat);
            assert(false);
        }
    }
}

/// Pulling the common factor `b` out of the product of `b * 1, ..., b * k`
/// leaves `b^k` times the product of `1, ..., k`.
proof fn lemma_prod_shift(b: int, k: nat)
    requires
        1 <= b < P,
        k < P,
    ensures
        prod_mod(mul_seq(b, k)) == (power::pow(b, k) * prod_mod(id_seq(k))) % (P as int),
    decreases k,
{
    let p = P as int;
    if k == 0 {
        assert(mul_seq(b, 0nat) =~= Seq::<int>::empty());
        power::lemma_pow0(b);
        lemma_small_mod(1nat, p as nat);
    } else {
        lemma_prod_shift(b, (k - 1) as nat);
        let s = mul_seq(b, k);
        let pk = power::pow(b, k);
        let pk1 = power::pow(b, (k - 1) as nat);
        let t1 = prod_mod(id_seq((k - 1) as nat));
        let t = prod_mod(id_seq(k));
        reveal(power::pow);
        assert(pk == b * pk1);
        assert(s.drop_last() =~= mul_seq(b, (k - 1) as nat));
        assert(s.last() == (b * (k as int)) % p);
        assert(prod_mod(s) == (prod_mod(mul_seq(b, (k - 1) as nat)) * ((b * (k as int)) % p)) % p);
        assert(id_seq(k).drop_last() =~= id_seq((k - 1) as nat));
        assert(id_seq(k).last() == k as int);
        assert(t == (t1 * (k as int)) % p);
        lemma_mul_mod_noop_left(pk1 * t1, (b * (k as int)) % p, p);
        lemma_mul_mod_noop_right((pk1 * t1), b * (k as int), p);
        assert((pk1 * t1) * (b * (k as int)) == pk * (t1 * (k as int))) by (nonlinear_arith)
            requires
                pk == b * pk1,
        ;
        lemma_mul_mod_noop_right(pk, t1 * (k as int), p);
    }
}

/// Multiplication by a nonzero residue permutes the nonzero residues:
/// `b * 1, ..., b * (P-1)` reduced modulo `P` is a rearrangement of
/// `1, ..., P-1`.
proof fn lemma_mul_seq_permutes(b: int)
    requires
        1 <= b < P,
    ensures
        mul_seq(b, (P - 1) as nat).to_multiset() == id_seq((P - 1) as nat).to_multiset(),
{
    let p = P as int;
    let s = mul_seq(b, (P - 1) as nat);
    let t = id_seq((P - 1) as nat);
    assert forall|i: int| 0 <= i < s.len() implies 1 <= #[trigger] s[i] < p by {
        lemma_mod_bound(b * (i + 1), p);
        if s[i] == 0 {
            lemma_coprime_cancel(b, i + 1);
            lemma_small_mod((i + 1) as nat, p as nat);
        }
    };
    assert forall|i: int, j: int|
        0 <= i < s.len() && 0 <= j < s.len() && i != j implies s[i] != s[j] by {
        if s[i] == s[j] {
            lemma_mul_mod_injective(b, i + 1, j + 1);
        }
    };
    assert(s.no_duplicates());
    assert(t.no_duplicates());
    s.unique_seq_to_set();
    t.unique_seq_to_set();
    lemma_int_range(1, p);
    assert forall|x: int| t.contains(x) <==> 1 <= x < p by {
        if 1 <= x < p {
            assert(t[x - 1] == x);
        }
    };
    assert(t.to_set() =~= set_int_range(1, p));
    assert(s.to_set().subset_of(set_int_range(1, p))) by {
        assert forall|x: int| s.to_set().contains(x) implies set_int_range(1, p).contains(x) by {
            let i = choose|i: int| 0 <= i < s.len() && s[i] == x;
            assert(1 <= s[i] < p);
        };
    };
    assert forall|x: int| set_int_range(1, p).contains(x) implies s.to_set().contains(x) by {
        if !s.to_set().contains(x) {
            s.to_set().lemma_subset_not_in_lt(set_int_range(1, p), x);
            assert(false);
        }
    };
    assert(s.to_set() =~= t.to_set());
    s.lemma_multiset_has_no_duplicates();
    t.lemma_multiset_has_no_duplicates();
    broadcast use vstd::seq_lib::group_to_multiset_ensures;

    assert forall|x: int| s.to_multiset().count(x) == t.to_multiset().count(x) by {
        assert(s.contains(x) <==> s.to_set().contains(x));
        assert(t.contains(x) <==> t.to_set().contains(x));
        if s.contains(x) {
            assert(s.to_multiset().count(x) == 1);
            assert(t.to_multiset().count(x) == 1);
        } else {
            assert(s.to_multiset().count(x) == 0);
            assert(t.to_multiset().count(x) == 0);
        }
    };
    assert(s.to_multiset() =~= t.to_multiset());
}

/// Fermat's little theorem: a nonzero residue raised to `P - 1` is `1`.
pub proof fn lemma_fermat_little(b: int)
    requires
        1 <= b < P,
    ensures
        pow_mod(b, (P - 1) as nat) == 1,
{
    let p = P as int;
    let k = (P - 1) as nat;
    lemma_mul_mod_op_commutative();
    lemma_mul_seq_permutes(b);
    lemma_fold_left_permutation(mul_seq(b, k), id_seq(k), mul_mod_op(), 1);
    lemma_prod_shift(b, k);
    lemma_prod_id_bounds(k);
    let t = prod_mod(id_seq(k));
    lemma_pow_mod_is_pow(b, k);
    lemma_pow_mod_bounds(b, k);
    let pm = pow_mod(b, k);
    // The permutation gives t == (b^k * t) % p, so (pm - 1) * t vanishes.
    lemma_mul_mod_noop_left(power::pow(b, k), t, p);
    assert(t == (pm * t) % p);
    lemma_small_mod(t as nat, p as nat);
    lemma_sub_mod_noop(pm * t, t, p);
    lemma_small_mod(0nat, p as nat);
    assert(pm * t - t == t * (pm - 1)) by (nonlinear_arith);
    assert((t * (pm - 1)) % p == 0);
    lemma_coprime_cancel(t, pm - 1);
    if pm == 0 {
        lemma_mod_multiples_vanish(1, -1, p);
        lemma_small_mod((p - 1) as nat, p as nat);
        assert(false);
    }
    if pm != 1 {
        lemma_small_mod((pm - 1) as nat, p as nat);
        assert(false);
    }
}

/// The Fermat power `b^(P-2)` of a nonzero residue `b` is its multiplicative
/// inverse.
pub proof fn lemma_fermat_inverse(b: int)
    requires
        1 <= b < P,
    ensures
        (pow_mod(b, (P - 2) as nat) * b) % (P as int) == 1,
{
    lemma_fermat_little(b);
    assert(pow_mod(b, (P - 1) as nat) == (pow_mod(b, (P - 2) as nat) * b) % (P as int));
}

} // verus!
