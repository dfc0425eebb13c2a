//! Design matrices: the feature matrix a linear model is solved on, with an
//! optional leading intercept column, and the split of a fitted coefficient
//! vector back into intercept and feature coefficients.
//!
//! These functions only move entries around, so they are generic over the
//! entry type; the value of "one" and "zero" is supplied by the caller.

use vstd::prelude::*;

verus! {

/// A dense matrix stored row by row; every row has `ncols` entries.
pub struct Matrix<T> {
    ncols: usize,
    rows: Vec<Vec<T>>,
}

/// Every row of `rows` has `ncols` entries.
pub open spec fn rectangular<T>(ncols: nat, rows: Seq<Seq<T>>) -> bool {
    forall|i: int| 0 <= i < rows.len() ==> (#[trigger] rows[i]).len() == ncols
}

/// The entries of a sequence of rows.
pub open spec fn row_views<T>(rows: Seq<Vec<T>>) -> Seq<Seq<T>> {
    rows.map_values(|r: Vec<T>| r@)
}

impl<T> Matrix<T> {
    #[verifier::type_invariant]
    spec fn is_rectangular(self) -> bool {
        rectangular(self.ncols as nat, row_views(self.rows@))
    }

    /// The number of columns.
    pub closed spec fn spec_ncols(&self) -> nat {
        self.ncols as nat
    }

    /// The rows, top to bottom.
    pub closed spec fn spec_rows(&self) -> Seq<Seq<T>> {
        row_views(self.rows@)
    }

    /// Builds a matrix with `ncols` columns from its rows, or `None` when some
    /// row has another length.
    pub fn from_rows(ncols: usize, rows: Vec<Vec<T>>) -> (r: Option<Matrix<T>>)
        ensures
            r is Some <==> rectangular(ncols as nat, row_views(rows@)),
            r matches Some(m) ==> m.spec_ncols() == ncols && m.spec_rows() == row_views(rows@),
    {
        let mut i: usize = 0;
        while i < rows.len()
            invariant
                i <= rows@.len(),
                forall|j: int| 0 <= j < i ==> (#[trigger] row_views(rows@)[j]).len() == ncols,
            decreases rows@.len() - i,
        {
            if rows[i].len() != ncols {
                assert(row_views(rows@)[i as int].len() != ncols);
                return None;
            }
            i = i + 1;
        }
        Some(Matrix { ncols, rows })
    }

    /// The number of rows.
    pub fn nrows(&self) -> (n: usize)
        ensures
            n == self.spec_rows().len(),
    {
        self.rows.len()
    }

    /// The number of columns.
    pub fn ncols(&self) -> (n: usize)
        ensures
            n == self.spec_ncols(),
    {
        self.ncols
    }

    /// The rows, top to bottom.
    pub fn rows(&self) -> (r: &Vec<Vec<T>>)
        ensures
            row_views(r@) == self.spec_rows(),
            rectangular(self.spec_ncols(), self.spec_rows()),
    {
        proof {
            use_type_invariant(self);
        }
        &self.rows
    }

    /// Gives up the matrix for its rows.
    pub fn into_rows(self) -> (r: Vec<Vec<T>>)
        ensures
            row_views(r@) == self.spec_rows(),
    {
        self.rows
    }
}

/// The rows of `x` with `one` put in front of each.
pub open spec fn prepend_to_rows<T>(rows: Seq<Seq<T>>, one: T) -> Seq<Seq<T>> {
    rows.map_values(|r: Seq<T>| seq![one] + r)
}

/// Prepending to every row keeps the rows, in order: row `i` of the result
/// is `one` followed by row `i` of the input, entry for entry.
pub proof fn lemma_prepend_to_rows<T>(rows: Seq<Seq<T>>, one: T)
    ensures
        prepend_to_rows(rows, one).len() == rows.len(),
        forall|i: int|
            0 <= i < rows.len() ==> (#[trigger] prepend_to_rows(rows, one)[i]).len() == rows[i].len()
                + 1 && prepend_to_rows(rows, one)[i][0] == one && forall|j: int|
                0 <= j < rows[i].len() ==> prepend_to_rows(rows, one)[i][j + 1] == #[trigger] rows[i][j],
{
}

/// Prepends a column of `one`s to `x`: the design matrix of a model that
/// fits an intercept, whose coefficient then lands at index 0.
pub fn with_intercept_column<T: Copy>(x: &Matrix<T>, one: T) -> (r: Matrix<T>)
    requires
        x.spec_ncols() < usize::MAX,
    ensures
        r.spec_ncols() == x.spec_ncols() + 1,
        r.spec_rows() == prepend_to_rows(x.spec_rows(), one),
        r.spec_rows().len() == x.spec_rows().len(),
        forall|i: int|
            0 <= i < x.spec_rows().len() ==> #[trigger] r.spec_rows()[i] == seq![one]
                + x.spec_rows()[i],
{
    proof {
        use_type_invariant(x);
    }
    let mut rows: Vec<Vec<T>> = Vec::new();
    let mut i: usize = 0;
    while i < x.rows.len()
        invariant
            i <= x.rows@.len(),
            rows@.len() == i,
            forall|k: int|
                0 <= k < i ==> (#[trigger] row_views(rows@)[k]) == seq![one] + row_views(
                    x.rows@,
                )[k],
        decreases x.rows@.len() - i,
    {
        let src = &x.rows[i];
        let mut row: Vec<T> = Vec::new();
        row.push(one);
        let mut j: usize = 0;
        while j < src.len()
            invariant
                j <= src@.len(),
                row@ == seq![one] + src@.take(j as int),
            decreases src@.len() - j,
        {
            row.push(src[j]);
            assert(src@.take(j + 1) =~= src@.take(j as int).push(src@[j as int]));
            j = j + 1;
        }
        assert(src@.take(src@.len() as int) =~= src@);
        let ghost before = rows@;
        rows.push(row);
        proof {
            assert forall|k: int| 0 <= k <= i implies (#[trigger] row_views(rows@)[k]) == seq![one]
                + row_views(x.rows@)[k] by {
                assert(row_views(x.rows@)[k] == x.rows@[k]@);
                if k < i {
                    assert(rows@[k] == before[k]);
                    assert(row_views(before)[k] == before[k]@);
                } else {
                    assert(rows@[k] == row);
                }
            }
        }
        i = i + 1;
    }
    proof {
        assert(row_views(rows@) =~= prepend_to_rows(row_views(x.rows@), one));
        assert forall|k: int| 0 <= k < row_views(rows@).len() implies (
        #[trigger] row_views(rows@)[k]).len() == x.ncols + 1 by {
            assert(row_views(x.rows@)[k].len() == x.ncols);
        }
    }
    Matrix { ncols: x.ncols + 1, rows }
}

/// The intercept and the feature coefficients of a fitted coefficient
/// vector: with an intercept fitted (and at least one coefficient) it is
/// the first entry, followed by the rest; otherwise the intercept is `zero`
/// and every entry is a feature coefficient.
pub open spec fn spec_split_intercept<T>(betas: Seq<T>, fit_intercept: bool, zero: T) -> (
    T,
    Seq<T>,
) {
    if fit_intercept && betas.len() > 0 {
        (betas[0], betas.drop_first())
    } else {
        (zero, betas)
    }
}

/// Splits a fitted coefficient vector into `(intercept, coefficients)`.
pub fn split_intercept<T: Copy>(betas: &[T], fit_intercept: bool, zero: T) -> (r: (T, Vec<T>))
    ensures
        (r.0, r.1@) == spec_split_intercept(betas@, fit_intercept, zero),
        fit_intercept && betas@.len() > 0 ==> r.0 == betas@[0] && r.1@.len() == betas@.len() - 1
            && forall|j: int| 0 <= j < r.1@.len() ==> #[trigger] r.1@[j] == betas@[j + 1],
        !(fit_intercept && betas@.len() > 0) ==> r.0 == zero && r.1@ == betas@,
{
    let start: usize = if fit_intercept && betas.len() > 0 {
        1
    } else {
        0
    };
    let mut coefs: Vec<T> = Vec::new();
    let mut j: usize = start;
    while j < betas.len()
        invariant
            start <= j <= betas@.len(),
            coefs@ == betas@.subrange(start as int, j as int),
        decreases betas@.len() - j,
    {
        coefs.push(betas[j]);
        assert(betas@.subrange(start as int, j + 1) =~= betas@.subrange(start as int, j as int).push(
            betas@[j as int],
        ));
        j = j + 1;
    }
    if start == 1 {
        assert(coefs@ =~= betas@.drop_first());
        (betas[0], coefs)
    } else {
        assert(coefs@ =~= betas@);
        (zero, coefs)
    }
}

/// Splitting off the intercept keeps the feature coefficients in order:
/// with an intercept the coefficients are the entries after the first, one
/// for one; without one they are all the entries and the intercept is `zero`.
pub proof fn lemma_split_intercept_entries<T>(betas: Seq<T>, fit_intercept: bool, zero: T)
    ensures
        fit_intercept && betas.len() > 0 ==> {
            let (b0, coefs) = spec_split_intercept(betas, fit_intercept, zero);
            &&& b0 == betas[0]
            &&& coefs.len() + 1 == betas.len()
            &&& forall|j: int| 0 <= j < coefs.len() ==> #[trigger] coefs[j] == betas[j + 1]
        },
        !(fit_intercept && betas.len() > 0) ==> spec_split_intercept(betas, fit_intercept, zero)
            == (zero, betas),
{
}

/// A model fitted on the design matrix of `nfeatures` features, with an
/// intercept column when `fit_intercept` holds, reports one coefficient per
/// feature: the intercept column's coefficient is split off as the intercept.
pub proof fn lemma_split_matches_design<T>(
    betas: Seq<T>,
    nfeatures: nat,
    fit_intercept: bool,
    zero: T,
)
    requires
        betas.len() == (if fit_intercept {
            nfeatures + 1
        } else {
            nfeatures
        }),
    ensures
        spec_split_intercept(betas, fit_intercept, zero).1.len() == nfeatures,
        fit_intercept ==> spec_split_intercept(betas, fit_intercept, zero).0 == betas[0],
        !fit_intercept ==> spec_split_intercept(betas, fit_intercept, zero).0 == zero,
{
}

} // verus!
