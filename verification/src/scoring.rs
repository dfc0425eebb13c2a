//! Scoring: the metrics a regression can be scored by, and the agreement
//! count behind a classifier's accuracy.

use vstd::prelude::*;

use crate::checks::check_paired;
use crate::error::RegressorError;

verus! {

/// The metric a regression model is scored by.
#[derive(Debug, Clone, Copy)]
pub enum Metric {
    /// Coefficient of determination.
    R2,
    /// Mean of the squared errors.
    MSE,
    /// Square root of the mean squared error.
    RMSE,
}

/// The number of positions at which `a` and `b` hold the same class.
pub open spec fn agreements(a: Seq<bool>, b: Seq<bool>) -> nat
    decreases a.len(),
{
    if a.len() == 0 {
        0
    } else {
        agreements(a.drop_last(), b.drop_last()) + if a.last() == b.last() {
            1nat
        } else {
            0nat
        }
    }
}

/// There are never more agreements than positions.
pub proof fn lemma_agreements_bounded(a: Seq<bool>, b: Seq<bool>)
    ensures
        agreements(a, b) <= a.len(),
    decreases a.len(),
{
    if a.len() > 0 {
        lemma_agreements_bounded(a.drop_last(), b.drop_last());
    }
}

/// A classification agrees with itself everywhere: a perfect prediction
/// scores every position.
pub proof fn lemma_agreements_self(a: Seq<bool>)
    ensures
        agreements(a, a) == a.len(),
    decreases a.len(),
{
    if a.len() > 0 {
        lemma_agreements_self(a.drop_last());
    }
}

/// One position scores one agreement exactly when the two classes are equal.
pub proof fn lemma_agreements_single(x: bool, y: bool)
    ensures
        agreements(seq![x], seq![y]) == if x == y {
            1nat
        } else {
            0nat
        },
{
    assert(seq![x].drop_last() =~= Seq::<bool>::empty());
    assert(seq![y].drop_last() =~= Seq::<bool>::empty());
    assert(agreements(Seq::<bool>::empty(), Seq::<bool>::empty()) == 0);
    assert(seq![x].last() == x && seq![y].last() == y);
}

/// Agreements add up over consecutive stretches of positions: the count on
/// `a + a2` against `b + b2` is the count on `a` against `b` plus the count
/// on `a2` against `b2`.
pub proof fn lemma_agreements_split(a: Seq<bool>, b: Seq<bool>, a2: Seq<bool>, b2: Seq<bool>)
    requires
        a.len() == b.len(),
        a2.len() == b2.len(),
    ensures
        agreements(a + a2, b + b2) == agreements(a, b) + agreements(a2, b2),
    decreases a2.len(),
{
    if a2.len() == 0 {
        assert(a + a2 =~= a);
        assert(b + b2 =~= b);
    } else {
        assert((a + a2).drop_last() =~= a + a2.drop_last());
        assert((b + b2).drop_last() =~= b + b2.drop_last());
        lemma_agreements_split(a, b, a2.drop_last(), b2.drop_last());
    }
}

/// Sequences that disagree at every position have no agreements.
pub proof fn lemma_agreements_none(a: Seq<bool>, b: Seq<bool>)
    requires
        a.len() == b.len(),
        forall|i: int| 0 <= i < a.len() ==> a[i] != b[i],
    ensures
        agreements(a, b) == 0,
    decreases a.len(),
{
    if a.len() > 0 {
        lemma_agreements_none(a.drop_last(), b.drop_last());
    }
}

/// Counts the positions at which the true and the predicted class agree,
/// refusing inputs of different lengths and then empty inputs.
pub fn count_agreements(y_true: &[bool], y_pred: &[bool]) -> (r: Result<usize, RegressorError>)
    ensures
        y_true@.len() != y_pred@.len() ==> r matches Err(RegressorError::SizeMismatch),
        y_true@.len() == y_pred@.len() && y_true@.len() == 0 ==> r matches Err(
            RegressorError::EmptyInput,
        ),
        r is Ok <==> y_true@.len() == y_pred@.len() && y_true@.len() > 0,
        r matches Ok(hits) ==> hits == agreements(y_true@, y_pred@),
{
    check_paired(y_true.len(), y_pred.len())?;
    let mut hits: usize = 0;
    let mut i: usize = 0;
    while i < y_true.len()
        invariant
            y_true@.len() == y_pred@.len(),
            i <= y_true@.len(),
            hits == agreements(y_true@.take(i as int), y_pred@.take(i as int)),
        decreases y_true@.len() - i,
    {
        assert(y_true@.take(i + 1).drop_last() =~= y_true@.take(i as int));
        assert(y_pred@.take(i + 1).drop_last() =~= y_pred@.take(i as int));
        proof {
            lemma_agreements_bounded(y_true@.take(i as int), y_pred@.take(i as int));
        }
        if y_true[i] == y_pred[i] {
            hits = hits + 1;
        }
        i = i + 1;
    }
    assert(y_true@.take(i as int) =~= y_true@);
    assert(y_pred@.take(i as int) =~= y_pred@);
    Ok(hits)
}

} // verus!
