use regressor_rs::error::RegressorError;
use regressor_rs::scoring::{count_agreements, Metric};

#[test]
fn agreement_count_rejects_mismatch_and_empty() {
    assert!(matches!(
        count_agreements(&[true, false], &[true]),
        Err(RegressorError::SizeMismatch)
    ));
    assert!(matches!(count_agreements(&[], &[]), Err(RegressorError::EmptyInput)));
}

#[test]
fn agreement_count_counts_equal_classes() {
    let y_true = [false, false, false, true, true, true];
    assert_eq!(count_agreements(&y_true, &y_true).unwrap(), 6);
    let y_pred = [false, true, false, true, false, true];
    assert_eq!(count_agreements(&y_true, &y_pred).unwrap(), 4);
    assert_eq!(count_agreements(&[true], &[false]).unwrap(), 0);
}

#[test]
fn metric_is_copyable() {
    let m = Metric::RMSE;
    let n = m;
    assert!(matches!((m, n), (Metric::RMSE, Metric::RMSE)));
    assert!(matches!(Metric::R2.clone(), Metric::R2));
    assert!(matches!(Metric::MSE, Metric::MSE));
}
