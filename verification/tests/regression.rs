use regressor_rs::checks::{check_design, check_paired, check_same_length};
use regressor_rs::design::{split_intercept, with_intercept_column, Matrix};
use regressor_rs::error::RegressorError;

#[test]
fn with_intercept_column_prepends_ones() {
    let x = Matrix::from_rows(2, vec![vec![2.0, 3.0], vec![4.0, 5.0]]).unwrap();
    let design = with_intercept_column(&x, 1.0);
    assert_eq!((design.nrows(), design.ncols()), (2, 3));
    let column0: Vec<f64> = design.rows().iter().map(|r| r[0]).collect();
    assert_eq!(column0, vec![1.0, 1.0]);
    assert_eq!(design.rows()[0], vec![1.0, 2.0, 3.0]);
}

#[test]
fn with_intercept_column_on_no_rows_and_no_columns() {
    let x: Matrix<f64> = Matrix::from_rows(3, vec![]).unwrap();
    let design = with_intercept_column(&x, 1.0);
    assert_eq!((design.nrows(), design.ncols()), (0, 4));
    let y: Matrix<f64> = Matrix::from_rows(0, vec![vec![], vec![]]).unwrap();
    let design = with_intercept_column(&y, 1.0);
    assert_eq!(design.into_rows(), vec![vec![1.0], vec![1.0]]);
}

#[test]
fn matrix_refuses_ragged_rows() {
    assert!(Matrix::from_rows(2, vec![vec![1.0, 2.0], vec![3.0]]).is_none());
    assert!(Matrix::from_rows(1, vec![vec![1.0, 2.0]]).is_none());
}

#[test]
fn split_intercept_peels_off_the_bias() {
    assert_eq!(split_intercept(&[3.0, 5.0, 7.0], true, 0.0), (3.0, vec![5.0, 7.0]));
    assert_eq!(split_intercept(&[3.0, 5.0, 7.0], false, 0.0), (0.0, vec![3.0, 5.0, 7.0]));
    assert_eq!(split_intercept::<f64>(&[], true, 0.0), (0.0, vec![]));
}

#[test]
fn split_matches_design_width() {
    let x = Matrix::from_rows(2, vec![vec![2.0, 3.0]]).unwrap();
    let design = with_intercept_column(&x, 1.0);
    let betas = vec![0.5; design.ncols()];
    let (_, coefs) = split_intercept(&betas, true, 0.0);
    assert_eq!(coefs.len(), x.ncols());
}

#[test]
fn linear_betas_reject_mismatch_and_empty_shapes() {
    assert!(matches!(check_design(2, 1, 1), Err(RegressorError::SizeMismatch)));
    assert!(matches!(check_design(0, 0, 0), Err(RegressorError::EmptyInput)));
    assert!(matches!(check_design(3, 0, 3), Err(RegressorError::EmptyInput)));
    assert!(check_design(2, 1, 2).is_ok());
}

#[test]
fn paired_checks_order_mismatch_before_empty() {
    assert!(matches!(check_paired(2, 1), Err(RegressorError::SizeMismatch)));
    assert!(matches!(check_paired(0, 3), Err(RegressorError::SizeMismatch)));
    assert!(matches!(check_paired(0, 0), Err(RegressorError::EmptyInput)));
    assert!(check_paired(4, 4).is_ok());
    assert!(check_same_length(0, 0).is_ok());
    assert!(matches!(check_same_length(1, 0), Err(RegressorError::SizeMismatch)));
}
