//! The size checks that models, metrics and scores make on their inputs
//! before any arithmetic.

use vstd::prelude::*;

use crate::error::RegressorError;

verus! {

/// Refuses two inputs of different lengths.
pub fn check_same_length(n_true: usize, n_pred: usize) -> (r: Result<(), RegressorError>)
    ensures
        r is Ok <==> n_true == n_pred,
        r matches Err(e) ==> e is SizeMismatch,
{
    if n_true != n_pred {
        return Err(RegressorError::SizeMismatch);
    }
    Ok(())
}

/// Refuses a pair of vectors (truth and prediction) of different lengths,
/// then an empty pair.
pub fn check_paired(n_true: usize, n_pred: usize) -> (r: Result<(), RegressorError>)
    ensures
        n_true != n_pred ==> r matches Err(RegressorError::SizeMismatch),
        n_true == n_pred && n_true == 0 ==> r matches Err(RegressorError::EmptyInput),
        r is Ok <==> n_true == n_pred && n_true > 0,
{
    check_same_length(n_true, n_pred)?;
    if n_true == 0 {
        return Err(RegressorError::EmptyInput);
    }
    Ok(())
}

/// Refuses a design matrix of `nrows` x `ncols` whose row count differs from
/// the target's length, then one that holds no entry.
pub fn check_design(nrows: usize, ncols: usize, n_target: usize) -> (r: Result<(), RegressorError>)
    ensures
        nrows != n_target ==> r matches Err(RegressorError::SizeMismatch),
        nrows == n_target && (nrows == 0 || ncols == 0) ==> r matches Err(
            RegressorError::EmptyInput,
        ),
        r is Ok <==> nrows == n_target && nrows > 0 && ncols > 0,
{
    if nrows != n_target {
        return Err(RegressorError::SizeMismatch);
    }
    if nrows == 0 || ncols == 0 {
        return Err(RegressorError::EmptyInput);
    }
    Ok(())
}

} // verus!
