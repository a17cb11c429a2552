use discrete_mathematics_inverse_matrix::{gcd, Fraction};

fn fr(n: i64, d: i64) -> Fraction {
    Fraction::new(n, d)
}

#[test]
fn gcd_basics() {
    assert_eq!(gcd(12, 18), 6);
    assert_eq!(gcd(0, 7), 7);
    assert_eq!(gcd(7, 0), 7);
    assert_eq!(gcd(1, 1), 1);
    assert_eq!(gcd(100, 75), 25);
}

#[test]
fn new_reduces_to_lowest_terms() {
    assert_eq!(fr(5, 10), Fraction { numerator: 1, denominator: 2 });
    assert_eq!(fr(4, 2), Fraction { numerator: 2, denominator: 1 });
    assert_eq!(fr(-6, 8), Fraction { numerator: -3, denominator: 4 });
    assert_eq!(fr(0, 5), Fraction { numerator: 0, denominator: 1 });
}

#[test]
fn new_keeps_denominator_positive() {
    assert_eq!(fr(1, -2), Fraction { numerator: -1, denominator: 2 });
    assert_eq!(fr(-3, -6), Fraction { numerator: 1, denominator: 2 });
}

#[test]
fn add_cross_multiplies_and_reduces() {
    assert_eq!(fr(1, 2).add(&fr(1, 3)), fr(5, 6));
    assert_eq!(fr(1, 4).add(&fr(1, 4)), fr(1, 2));
    assert_eq!(fr(-1, 2).add(&fr(1, 2)), fr(0, 1));
}

#[test]
fn sub_cross_multiplies_and_reduces() {
    assert_eq!(fr(1, 2).sub(&fr(1, 3)), fr(1, 6));
    assert_eq!(fr(1, 3).sub(&fr(1, 2)), fr(-1, 6));
}

#[test]
fn mul_componentwise() {
    assert_eq!(fr(2, 3).mul(&fr(3, 4)), fr(1, 2));
    assert_eq!(fr(-2, 5).mul(&fr(5, 2)), fr(-1, 1));
}

#[test]
fn div_by_reciprocal() {
    assert_eq!(fr(1, 2).div(&fr(1, 4)), fr(2, 1));
    assert_eq!(fr(3, 4).div(&fr(3, 4)), fr(1, 1));
    assert_eq!(fr(1, 2).div(&fr(-1, 2)), fr(-1, 1));
}

#[test]
fn abs_drops_the_sign() {
    assert_eq!(fr(-3, 4).abs(), fr(3, 4));
    assert_eq!(fr(3, 4).abs(), fr(3, 4));
    assert_eq!(fr(0, 1).abs(), fr(0, 1));
}

#[test]
fn checked_ops_report_overflow() {
    let big = fr(i64::MAX, 1);
    let one = fr(1, 1);
    assert!(big.checked_add(&one).is_none());
    assert!(big.checked_mul(&fr(2, 1)).is_none());
    assert_eq!(big.checked_sub(&one), Some(fr(i64::MAX - 1, 1)));
}

#[test]
fn convergent_steps_reach_one_half() {
    // the continued fraction of 0.5: a0 = 0, a1 = 2
    let (h1, h2, k1, k2) = (1i64, 0i64, 0i64, 1i64);
    let (h, k) = discrete_mathematics_inverse_matrix::convergent_step(0, h1, h2, k1, k2).unwrap();
    assert_eq!((h, k), (0, 1));
    let (h2n, k2n) = (h1, k1);
    let (h1n, k1n) = (h, k);
    let (h, k) = discrete_mathematics_inverse_matrix::convergent_step(2, h1n, h2n, k1n, k2n)
        .unwrap();
    assert_eq!((h, k), (1, 2));
}

#[test]
fn convergent_step_reports_overflow() {
    assert!(discrete_mathematics_inverse_matrix::convergent_step(2, i64::MAX, 1, 1, 0).is_none());
}
