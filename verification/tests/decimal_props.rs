use fixdec::decimal::Decimal;
use fixdec::engine::BigInt;
use fixdec::solvers::{compute_pi, compute_sqrt2};

#[test]
fn render_from_unit_pads_fraction() {
    assert_eq!(Decimal::<3>::new(&BigInt::from_u64(7)).to_string(), "7.000");
    assert_eq!(Decimal::<1>::new(&BigInt::from_u64(0)).to_string(), "0.0");
    assert_eq!(Decimal::<6>::new(&BigInt::from_u64(42)).to_string(), "42.000000");
}

#[test]
fn render_precision_zero() {
    assert_eq!(Decimal::<0>::new(&BigInt::from_u64(5)).to_string(), "5.0");
}

#[test]
fn add_zero_is_identity() {
    let x = Decimal::<4>::from_unit(7).div(&Decimal::<4>::from_unit(2));
    assert_eq!(x.to_string(), "3.5000");
    assert_eq!(x.add(&Decimal::<4>::from_unit(0)).to_string(), "3.5000");
}

#[test]
fn sub_add_round_trip() {
    let x = Decimal::<4>::from_unit(12345).div(&Decimal::<4>::from_unit(10000));
    assert_eq!(x.to_string(), "1.2345");
    let y = Decimal::<4>::from_unit(9).div(&Decimal::<4>::from_unit(7));
    assert_eq!(x.add(&y).sub(&y).to_string(), "1.2345");
}

#[test]
fn mul_by_one_is_exact() {
    let one = Decimal::<4>::from_unit(1);
    let x = Decimal::<4>::from_unit(12345).div(&Decimal::<4>::from_unit(10000));
    assert_eq!(x.mul(&one).to_string(), "1.2345");
    let nx = Decimal::<4>::from_unit(0).sub(&x);
    assert_eq!(nx.mul(&one).to_string(), "-1.2345");
}

#[test]
fn div_mul_inverse_within_one_unit() {
    let third = Decimal::<4>::from_unit(1).div(&Decimal::<4>::from_unit(3));
    assert_eq!(third.to_string(), "0.3333");
    assert_eq!(third.mul(&Decimal::<4>::from_unit(3)).to_string(), "0.9999");
    let half = Decimal::<4>::from_unit(1).div(&Decimal::<4>::from_unit(2));
    let six = Decimal::<4>::from_unit(3).div(&half);
    assert_eq!(six.to_string(), "6.0000");
    assert_eq!(six.mul(&half).to_string(), "3.0000");
}

#[test]
fn order_is_power_of_ten() {
    assert_eq!(Decimal::<0>::order().to_decimal(), "1");
    assert_eq!(Decimal::<1>::order().to_decimal(), "10");
    let expected = format!("1{}", "0".repeat(1000));
    assert_eq!(Decimal::<1000>::order().to_decimal(), expected);
}

#[test]
fn render_round_trips_integer_part() {
    let s = Decimal::<5>::new(&BigInt::from_u64(9876)).to_string();
    let dot = s.find('.').unwrap();
    let back: u64 = s[..dot].parse().unwrap();
    assert_eq!(back, 9876);
    let s0 = Decimal::<0>::new(&BigInt::from_u64(31)).to_string();
    let dot0 = s0.find('.').unwrap();
    let back0: u64 = s0[..dot0].parse().unwrap();
    assert_eq!(back0, 31);
}

#[test]
fn sqrt2_four_digits() {
    assert_eq!(compute_sqrt2::<4>(6).to_string(), "1.4142");
}

#[test]
fn pi_from_arctan_series() {
    // At four digits the one-unit truncation of each operation adds up to
    // a few units in the last digits, so the 1415 prefix needs a little
    // working precision: eight digits and thirty terms give it safely.
    let sqrt2 = compute_sqrt2::<8>(7);
    let z = sqrt2.sub(&Decimal::<8>::from_unit(1));
    let pi = compute_pi(&z, 30);
    let s = pi.to_string();
    assert!(s.starts_with("3.1415"), "pi rendered as {}", s);
}

#[test]
fn precision_zero_is_integer_arithmetic() {
    let seven = Decimal::<0>::from_unit(7);
    let two = Decimal::<0>::from_unit(2);
    assert_eq!(seven.div(&two).to_string(), "3.0");
    assert_eq!(seven.add(&two).to_string(), "9.0");
    let neg7 = Decimal::<0>::from_unit(0).sub(&seven);
    assert_eq!(neg7.div(&two).to_string(), "-3.0");
    let neg2 = Decimal::<0>::from_unit(0).sub(&two);
    assert_eq!(seven.div(&neg2).to_string(), "-3.0");
    assert_eq!(neg7.div(&neg2).to_string(), "3.0");
}

#[test]
fn negative_renders_single_leading_sign() {
    let d = Decimal::<2>::from_unit(1).sub(&Decimal::<2>::from_unit(2));
    assert_eq!(d.to_string(), "-1.00");
    let q = Decimal::<2>::from_unit(1).div(&Decimal::<2>::from_unit(4));
    assert_eq!(q.to_string(), "0.25");
    let nq = Decimal::<2>::from_unit(0).sub(&q);
    let s = nq.to_string();
    assert_eq!(s, "-0.25");
    assert_eq!(s.matches('-').count(), 1);
}

#[test]
fn fraction_keeps_leading_zeros() {
    let d = Decimal::<2>::from_unit(1).div(&Decimal::<2>::from_unit(20));
    assert_eq!(d.to_string(), "0.05");
}

#[test]
fn multi_limb_values_round_trip() {
    assert_eq!(
        BigInt::from_u64(u64::MAX).to_decimal(),
        "18446744073709551615"
    );
    assert_eq!(
        Decimal::<2>::new(&BigInt::from_u64(u64::MAX)).to_string(),
        "18446744073709551615.00"
    );
}

#[test]
fn negative_integers_scale_and_render() {
    let neg5 = BigInt::from_u64(5).negated();
    assert_eq!(neg5.to_decimal(), "-5");
    assert_eq!(Decimal::<2>::new(&neg5).to_string(), "-5.00");
}

#[test]
fn clone_keeps_the_value() {
    let x = Decimal::<4>::from_unit(22).div(&Decimal::<4>::from_unit(7));
    let c = x.clone();
    assert_eq!(c.to_string(), x.to_string());
    assert_eq!(c.to_string(), "3.1428");
}
