use finite_field::{inv_dp, pow, Finite, P};

#[test]
fn test_pow_edges() {
    assert_eq!(pow(0, 0), 1);
    assert_eq!(pow(2, 0), 1);
    assert_eq!(pow(3, 1), 3);
    assert_eq!(pow(5, 6), (5 * 5 * 5) * (5 * 5 * 5));
    assert_eq!(pow(i64::MAX % P, i64::MAX), 856225998);
}

#[test]
fn test_pow_small() {
    for x in 0..100_i64 {
        for n in 0..100_i64 {
            let actual = pow(x, n);
            let expected = (0..n).fold(1_i64, |acc, _| (acc * x) % P);
            assert_eq!(actual, expected, "{}^{}", x, n);
        }
    }
}

#[test]
fn test_inv_dp() {
    let n = 10000;
    let dp = inv_dp(n);
    for i in 1..n {
        let mut z = dp[i] * i as i64;
        z %= P;
        z += P;
        z %= P;
        assert_eq!(z, 1);
    }
}

#[test]
fn test_finite() {
    let x = Finite::from(P + 2);

    // `from` should normalize the value.
    assert_eq!(x.0, 2);

    // Operations.
    assert_eq!(x + 7, (2 + 7).into());
    assert_eq!(x - 7, (P + (2 - 7)).into());
    assert_eq!(x * 3, (2 * 3).into());
    assert_eq!((x / 11) * 11, 2.into());

    assert_eq!(x + Finite::from(7), (2 + 7).into());
    assert_eq!(x - Finite::from(7), (P + (2 - 7)).into());
    assert_eq!(x * Finite::from(3), (2 * 3).into());
    assert_eq!((x / Finite::from(11)) * 11, 2.into());

    let mut x = x;
    x.add_assign(7);
    assert_eq!(x, 9.into());
    x.sub_assign(5);
    assert_eq!(x, 4.into());
    x.mul_assign(6);
    assert_eq!(x, 24.into());
    x.div_assign(3);
    assert_eq!(x, 8.into());
}

#[test]
fn test_finite_fmt() {
    assert_eq!(Finite::from(2).to_string(), "2");
    assert_eq!(Finite::from(2).to_string(), "2");
}

#[test]
fn test_pow_periodic() {
    // The base may be reduced modulo P first without changing any power.
    for n in 0..50_i64 {
        assert_eq!(pow(P + 2, n), pow(2, n));
        assert_eq!(pow(2 * P + 123, n), pow(123, n));
    }
}

#[test]
fn test_from_negative() {
    assert_eq!(Finite::from(-1).0, P - 1);
    assert_eq!(Finite::from(-P).0, 0);
    assert_eq!(Finite::from(-P - 5).0, P - 5);
    assert_eq!(Finite::from(i64::MIN).0, ((i64::MIN % P) + P) % P);
    assert_eq!(Finite::from(i64::MAX).0, i64::MAX % P);
}

#[test]
fn test_inv_dp_small() {
    assert_eq!(inv_dp(0), Vec::<i64>::new());
    assert_eq!(inv_dp(1), vec![0]);
    assert_eq!(inv_dp(2), vec![0, 1]);
}

#[test]
fn test_add_homomorphic() {
    let cases: [(i64, i64); 5] = [
        (0, 0),
        (123456789, 987654321),
        (-5, 3),
        (P - 1, 1),
        (-P - 7, 2 * P + 9),
    ];
    for (v, w) in cases {
        assert_eq!(Finite::from(v) + Finite::from(w), Finite::from(v + w));
    }
}

#[test]
fn test_div_mul_cancel() {
    let a = Finite::from(12345);
    let b = Finite::from(6789);
    assert_eq!((a / b) * b, a);
    let c = Finite::from(-99999);
    let d = Finite::from(P - 1);
    assert_eq!((c / d) * d, c);
}

#[test]
fn test_div_by_zero_residue() {
    // The latent edge: dividing by the zero residue silently yields zero.
    assert_eq!((Finite::from(5) / Finite::from(0)).0, 0);
    assert_eq!((Finite::from(5) / Finite::from(P)).0, 0);
}

#[test]
fn test_finite_pow() {
    assert_eq!(Finite::from(2).pow(10).0, 1024);
    assert_eq!(Finite::from(0).pow(0).0, 1);
    // Fermat: a^(P-1) == 1 for a nonzero residue.
    assert_eq!(Finite::from(3).pow(P - 1).0, 1);
}

#[test]
fn test_to_string() {
    assert_eq!(Finite::from(0).to_string(), "0");
    assert_eq!(Finite::from(10).to_string(), "10");
    assert_eq!(Finite::from(-1).to_string(), "1000000006");
}

#[test]
fn test_ordering() {
    assert!(Finite::from(3) < Finite::from(5));
    assert!(Finite::from(5) > Finite::from(3));
    assert!(Finite::from(3) <= Finite::from(3));
    // The order is by normalized residue, so -1 is the largest residue.
    assert!(Finite::from(1) < Finite::from(-1));
    let mut v = vec![Finite::from(5), Finite::from(-1), Finite::from(0)];
    v.sort();
    assert_eq!(v, vec![Finite::from(0), Finite::from(5), Finite::from(-1)]);
}
