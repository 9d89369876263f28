use vstd::prelude::*;
use crate::data::{filled, DenseMatrix, DesignMatrix};
use crate::error::BoostlssError;

verus! {

/// Shape restriction of a constrained P-spline.
#[derive(Debug, Clone, Copy, PartialEq, Eq, Structural)]
pub enum Constraint {
    MonotonicIncreasing,
    MonotonicDecreasing,
    Convex,
    Concave,
}

impl Constraint {
    /// Order of the coefficient differences that the constraint keeps in
    /// sign: first differences for a monotone shape, second differences for
    /// a convex or concave one.
    pub fn difference_order(&self) -> (r: usize)
        ensures
            r == (if *self is MonotonicIncreasing || *self is MonotonicDecreasing { 1usize } else { 2usize }),
    {
        match self {
            Constraint::MonotonicIncreasing | Constraint::MonotonicDecreasing => 1,
            Constraint::Convex | Constraint::Concave => 2,
        }
    }

    /// Whether the constraint asks the differences to be non-negative
    /// (increasing, convex) rather than non-positive (decreasing, concave).
    pub fn keeps_differences_non_negative(&self) -> (r: bool)
        ensures
            r == (*self is MonotonicIncreasing || *self is Convex),
    {
        match self {
            Constraint::MonotonicIncreasing | Constraint::Convex => true,
            Constraint::MonotonicDecreasing | Constraint::Concave => false,
        }
    }
}

/// Linear base learner on one feature, with or without an intercept column.
#[derive(Debug, Clone)]
pub struct Linear {
    pub feature_idx: usize,
    intercept: bool,
}

impl Linear {
    /// The feature the learner reads.
    pub closed spec fn feature(self) -> usize {
        self.feature_idx
    }

    /// Whether the design carries an intercept column.
    pub closed spec fn intercept_on(self) -> bool {
        self.intercept
    }

    /// Number of design columns: the feature, and the intercept if any.
    pub open spec fn design_cols(self) -> nat {
        if self.intercept_on() { 2 } else { 1 }
    }

    /// A linear learner on `feature_idx`, with an intercept.
    pub fn new(feature_idx: usize) -> (r: Self)
        ensures
            r.feature() == feature_idx,
            r.intercept_on(),
    {
        Linear { feature_idx, intercept: true }
    }

    /// The same learner with the intercept switched on or off.
    pub fn intercept(self, intercept: bool) -> (r: Self)
        ensures
            r.feature() == self.feature(),
            r.intercept_on() == intercept,
    {
        Linear { feature_idx: self.feature_idx, intercept }
    }

    /// Whether the design carries an intercept column.
    pub fn has_intercept(&self) -> (r: bool)
        ensures
            r == self.intercept_on(),
    {
        self.intercept
    }

    /// The learner's design: a column of `one` when the intercept is on,
    /// followed by the learner's feature column of `design`. Fails when the
    /// feature column does not exist.
    pub fn build_design<T: Copy>(&self, design: &DesignMatrix<T>, zero: T, one: T) -> (out: Result<
        DesignMatrix<T>,
        BoostlssError,
    >)
        requires
            design.wf(),
            self.feature() < design.cols() ==> design.readable(self.feature()),
            design.rows() * 2 <= usize::MAX,
        ensures
            out is Ok <==> self.feature() < design.cols(),
            out matches Ok(d) ==> (d matches DesignMatrix::Dense(m) && m.wf() && m.rows() == design.rows()
                && m.cols() == self.design_cols()
                && (forall|r: int| 0 <= r < m.rows() ==> #[trigger] m.at(r, self.design_cols() - 1) == design.entry(r, self.feature(), zero))
                && (self.intercept_on() ==> forall|r: int| 0 <= r < m.rows() ==> #[trigger] m.at(r, 0) == one)),
            out matches Err(e) ==> e is DataError && e.detail() == "Column index out of bounds"@,
    {
        let col = match design.get_column(self.feature_idx, zero) {
            Ok(c) => c,
            Err(e) => {
                return Err(e);
            },
        };
        let n = design.nrows();
        let k: usize = if self.intercept { 2 } else { 1 };
        let mut data: Vec<T> = Vec::new();
        let mut r: usize = 0;
        while r < n
            invariant
                n == design.rows(),
                n * 2 <= usize::MAX,
                col@.len() == n,
                k == self.design_cols(),
                r <= n,
                data@.len() == r * k,
                forall|a: int| 0 <= a < r ==> #[trigger] data@[a * k + (k - 1)] == col@[a],
                k == 2 ==> forall|a: int| 0 <= a < r ==> #[trigger] data@[a * k] == one,
            decreases n - r,
        {
            let ghost before = data@;
            if self.intercept {
                data.push(one);
            }
            data.push(col[r]);
            proof {
                assert((r + 1) * k == r * k + k) by (nonlinear_arith);
                assert forall|a: int| 0 <= a < r + 1 implies #[trigger] data@[a * k + (k - 1)] == col@[a] by {
                    if a < r {
                        assert(a * k + (k - 1) < r * k) by (nonlinear_arith)
                            requires
                                0 <= a < r,
                                1 <= k,
                        ;
                        assert(data@[a * k + (k - 1)] == before[a * k + (k - 1)]);
                    }
                }
                if k == 2 {
                    assert forall|a: int| 0 <= a < r + 1 implies #[trigger] data@[a * k] == one by {
                        if a < r {
                            assert(a * k < r * k) by (nonlinear_arith)
                                requires
                                    0 <= a < r,
                                    1 <= k,
                            ;
                            assert(data@[a * k] == before[a * k]);
                        }
                    }
                }
            }
            r = r + 1;
        }
        match DenseMatrix::from_row_major(n, k, data) {
            Ok(m) => Ok(DesignMatrix::Dense(m)),
            Err(e) => Err(e),
        }
    }

    /// The learner's penalty: the `n_cols`-by-`n_cols` zero matrix.
    pub fn penalty_matrix<T: Copy>(&self, n_cols: usize, zero: T) -> (d: DesignMatrix<T>)
        requires
            n_cols * n_cols <= usize::MAX,
        ensures
            d matches DesignMatrix::Dense(m) && m.wf() && m.rows() == n_cols && m.cols() == n_cols
                && forall|i: int, j: int| 0 <= i < n_cols && 0 <= j < n_cols ==> #[trigger] m.at(i, j) == zero,
    {
        let data = filled(n_cols * n_cols, zero);
        let m = DenseMatrix::from_row_major(n_cols, n_cols, data);
        match m {
            Ok(m) => {
                proof {
                    assert forall|i: int, j: int| 0 <= i < n_cols && 0 <= j < n_cols implies #[trigger] m.at(i, j) == zero by {
                        crate::data::lemma_row_major_index(i, j, n_cols as int, n_cols as int);
                    }
                }
                DesignMatrix::Dense(m)
            },
            Err(_) => {
                proof {
                    assert(false);
                }
                DesignMatrix::Dense(DenseMatrix::empty())
            },
        }
    }
}

/// Decision stump on one feature.
#[derive(Debug, Clone)]
pub struct Stump {
    pub feature_idx: usize,
}

impl Stump {
    /// A stump on `feature_idx`.
    pub fn new(feature_idx: usize) -> (r: Self)
        ensures
            r.feature_idx == feature_idx,
    {
        Stump { feature_idx }
    }
}

/// Regression tree on a set of features.
#[derive(Debug, Clone)]
pub struct Tree {
    pub max_depth: usize,
    pub min_samples_leaf: usize,
    pub feature_indices: Vec<usize>,
}

impl Tree {
    /// A tree on `feature_indices`, of depth three, with leaves of at least
    /// one observation.
    pub fn new(feature_indices: Vec<usize>) -> (r: Self)
        ensures
            r.feature_indices@ == feature_indices@,
            r.max_depth == 3,
            r.min_samples_leaf == 1,
    {
        Tree { max_depth: 3, min_samples_leaf: 1, feature_indices }
    }

    /// The same tree with another maximal depth.
    pub fn max_depth(self, depth: usize) -> (r: Self)
        ensures
            r.feature_indices@ == self.feature_indices@,
            r.max_depth == depth,
            r.min_samples_leaf == self.min_samples_leaf,
    {
        Tree { max_depth: depth, ..self }
    }

    /// The same tree with another least leaf size.
    pub fn min_samples_leaf(self, min_samples: usize) -> (r: Self)
        ensures
            r.feature_indices@ == self.feature_indices@,
            r.max_depth == self.max_depth,
            r.min_samples_leaf == min_samples,
    {
        Tree { min_samples_leaf: min_samples, ..self }
    }
}

/// Histogram-based regression tree: features are binned before the splits
/// are searched.
#[derive(Debug, Clone)]
pub struct HistTree {
    pub feature_indices: Vec<usize>,
    pub max_depth: usize,
    pub min_samples_leaf: usize,
    pub max_bins: usize,
    pub categorical_features: Vec<usize>,
}

impl HistTree {
    /// A histogram tree on `feature_indices`: depth three, leaves of at least
    /// one observation, at most 256 bins, no categorical feature.
    pub fn new(feature_indices: Vec<usize>) -> (r: Self)
        ensures
            r.feature_indices@ == feature_indices@,
            r.max_depth == 3,
            r.min_samples_leaf == 1,
            r.max_bins == 256,
            r.categorical_features@.len() == 0,
    {
        HistTree { feature_indices, max_depth: 3, min_samples_leaf: 1, max_bins: 256, categorical_features: Vec::new() }
    }

    /// The same tree with the features in `cat_features` binned by category.
    pub fn categorical_features(self, cat_features: Vec<usize>) -> (r: Self)
        ensures
            r.feature_indices@ == self.feature_indices@,
            r.max_depth == self.max_depth,
            r.min_samples_leaf == self.min_samples_leaf,
            r.max_bins == self.max_bins,
            r.categorical_features@ == cat_features@,
    {
        HistTree { categorical_features: cat_features, ..self }
    }

    /// The same tree with another bin limit.
    pub fn max_bins(self, max_bins: usize) -> (r: Self)
        ensures
            r.feature_indices@ == self.feature_indices@,
            r.max_depth == self.max_depth,
            r.min_samples_leaf == self.min_samples_leaf,
            r.max_bins == max_bins,
            r.categorical_features@ == self.categorical_features@,
    {
        HistTree { max_bins, ..self }
    }

    /// The same tree with another maximal depth.
    pub fn max_depth(self, max_depth: usize) -> (r: Self)
        ensures
            r.feature_indices@ == self.feature_indices@,
            r.max_depth == max_depth,
            r.min_samples_leaf == self.min_samples_leaf,
            r.max_bins == self.max_bins,
            r.categorical_features@ == self.categorical_features@,
    {
        HistTree { max_depth, ..self }
    }

    /// The same tree with another least leaf size.
    pub fn min_samples_leaf(self, min_samples_leaf: usize) -> (r: Self)
        ensures
            r.feature_indices@ == self.feature_indices@,
            r.max_depth == self.max_depth,
            r.min_samples_leaf == min_samples_leaf,
            r.max_bins == self.max_bins,
            r.categorical_features@ == self.categorical_features@,
    {
        HistTree { min_samples_leaf, ..self }
    }
}

} // verus!
