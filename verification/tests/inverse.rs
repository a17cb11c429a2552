use discrete_mathematics_inverse_matrix::determinant::determinant;
use discrete_mathematics_inverse_matrix::determinant::inverse as adjugate_inverse;
use discrete_mathematics_inverse_matrix::gauss_jordan::inverse as gauss_jordan_inverse;
use discrete_mathematics_inverse_matrix::matrix::{
    calculate_identity_error, create_identity_matrix, matrices_equal, matrix_multiply,
    FractionMatrix,
};
use discrete_mathematics_inverse_matrix::{Fraction, MatrixError};

fn fr(n: i64, d: i64) -> Fraction {
    Fraction::new(n, d)
}

fn from_ints(rows: &[&[i64]]) -> FractionMatrix {
    rows.iter().map(|r| r.iter().map(|&v| fr(v, 1)).collect()).collect()
}

#[test]
fn determinant_of_1x1_is_the_entry() {
    assert_eq!(determinant(&from_ints(&[&[7]])), Ok(fr(7, 1)));
    assert_eq!(determinant(&from_ints(&[&[-3]])), Ok(fr(-3, 1)));
    assert_eq!(determinant(&vec![vec![fr(1, 2)]]), Ok(fr(1, 2)));
}

#[test]
fn determinant_of_2x2_is_ad_minus_bc() {
    assert_eq!(determinant(&from_ints(&[&[1, 2], &[3, 4]])), Ok(fr(-2, 1)));
    assert_eq!(determinant(&from_ints(&[&[4, 7], &[2, 6]])), Ok(fr(10, 1)));
    let m = vec![vec![fr(1, 2), fr(1, 3)], vec![fr(1, 4), fr(1, 5)]];
    // 1/2 * 1/5 - 1/3 * 1/4 = 1/10 - 1/12 = 1/60
    assert_eq!(determinant(&m), Ok(fr(1, 60)));
}

#[test]
fn determinant_of_3x3_by_cofactor_expansion() {
    let m = from_ints(&[&[1, 2, 3], &[4, 5, 6], &[7, 8, 10]]);
    assert_eq!(determinant(&m), Ok(fr(-3, 1)));
    let diag = from_ints(&[&[2, 0, 0], &[0, 2, 0], &[0, 0, 2]]);
    assert_eq!(determinant(&diag), Ok(fr(8, 1)));
}

#[test]
fn non_square_inputs_are_rejected() {
    let wide = from_ints(&[&[1, 2, 3], &[4, 5, 6]]);
    assert_eq!(determinant(&wide), Err(MatrixError::NotSquare));
    assert_eq!(adjugate_inverse(&wide), Err(MatrixError::NotSquare));
    assert_eq!(gauss_jordan_inverse(&wide), Err(MatrixError::NotSquare));
    let empty: FractionMatrix = vec![];
    assert_eq!(determinant(&empty), Err(MatrixError::NotSquare));
    assert_eq!(adjugate_inverse(&empty), Err(MatrixError::NotSquare));
    assert_eq!(gauss_jordan_inverse(&empty), Err(MatrixError::NotSquare));
    let ragged = vec![vec![fr(1, 1)], vec![fr(2, 1), fr(3, 1)]];
    assert_eq!(determinant(&ragged), Err(MatrixError::NotSquare));
}

#[test]
fn singular_matrix_is_rejected_by_both_methods() {
    let m = from_ints(&[&[1, 2], &[2, 4]]);
    assert_eq!(determinant(&m), Ok(fr(0, 1)));
    assert_eq!(adjugate_inverse(&m), Err(MatrixError::SingularMatrix));
    assert_eq!(gauss_jordan_inverse(&m), Err(MatrixError::SingularMatrix));
}

#[test]
fn two_by_two_inverse_by_both_methods() {
    let a = from_ints(&[&[4, 7], &[2, 6]]);
    let expected = vec![
        vec![fr(3, 5), fr(-7, 10)],
        vec![fr(-1, 5), fr(2, 5)],
    ];
    let inv1 = adjugate_inverse(&a).unwrap();
    let inv2 = gauss_jordan_inverse(&a).unwrap();
    assert_eq!(inv1, expected);
    assert_eq!(inv2, expected);
    assert!(matrices_equal(&inv1, &inv2));
    let product = matrix_multiply(&a, &inv1).unwrap();
    let identity = create_identity_matrix(2);
    assert!(matrices_equal(&product, &identity));
    assert_eq!(calculate_identity_error(&product, &identity), Ok(fr(0, 1)));
}

#[test]
fn diagonal_inverse_is_elementwise_reciprocal() {
    let a = from_ints(&[&[2, 0, 0], &[0, 2, 0], &[0, 0, 2]]);
    let expected = vec![
        vec![fr(1, 2), fr(0, 1), fr(0, 1)],
        vec![fr(0, 1), fr(1, 2), fr(0, 1)],
        vec![fr(0, 1), fr(0, 1), fr(1, 2)],
    ];
    let inv1 = adjugate_inverse(&a).unwrap();
    let inv2 = gauss_jordan_inverse(&a).unwrap();
    assert_eq!(inv1, expected);
    assert_eq!(inv2, expected);
    let product = matrix_multiply(&a, &inv1).unwrap();
    assert!(matrices_equal(&product, &create_identity_matrix(3)));
}

#[test]
fn one_by_one_inverse_is_the_reciprocal() {
    let a = vec![vec![fr(4, 1)]];
    assert_eq!(adjugate_inverse(&a), Ok(vec![vec![fr(1, 4)]]));
    assert_eq!(gauss_jordan_inverse(&a), Ok(vec![vec![fr(1, 4)]]));
}

#[test]
fn three_by_three_inverse_agrees_across_methods() {
    let a = from_ints(&[&[1, 2, 3], &[4, 5, 6], &[7, 8, 10]]);
    let inv1 = adjugate_inverse(&a).unwrap();
    let inv2 = gauss_jordan_inverse(&a).unwrap();
    assert_eq!(inv1, inv2);
    assert!(matrices_equal(&inv1, &inv2));
    let product = matrix_multiply(&a, &inv1).unwrap();
    let identity = create_identity_matrix(3);
    assert!(matrices_equal(&product, &identity));
    assert_eq!(calculate_identity_error(&product, &identity), Ok(fr(0, 1)));
    let product_left = matrix_multiply(&inv2, &a).unwrap();
    assert!(matrices_equal(&product_left, &identity));
}

#[test]
fn pivoting_handles_a_zero_leading_entry() {
    let a = from_ints(&[&[0, 1], &[1, 0]]);
    let inv = gauss_jordan_inverse(&a).unwrap();
    assert_eq!(inv, from_ints(&[&[0, 1], &[1, 0]]));
}

#[test]
fn matrices_equal_uses_the_fixed_tolerance() {
    let base = vec![vec![fr(1, 1)]];
    let close = vec![vec![fr(1000001, 1000000)]];
    let far = vec![vec![fr(1000002, 1000000)]];
    assert!(matrices_equal(&base, &close));
    assert!(!matrices_equal(&base, &far));
    let other_shape = vec![vec![fr(1, 1), fr(1, 1)]];
    assert!(!matrices_equal(&base, &other_shape));
}

#[test]
fn identity_error_reports_the_largest_deviation() {
    let identity = create_identity_matrix(2);
    let near = vec![
        vec![fr(999999, 1000000), fr(0, 1)],
        vec![fr(1, 2000000), fr(1, 1)],
    ];
    assert_eq!(calculate_identity_error(&near, &identity), Ok(fr(1, 1000000)));
}

#[test]
fn overflow_is_reported_not_silent() {
    let big = 1 << 62;
    let a = from_ints(&[&[big, 1], &[1, big]]);
    assert_eq!(determinant(&a), Err(MatrixError::Overflow));
    assert_eq!(adjugate_inverse(&a), Err(MatrixError::Overflow));
}
