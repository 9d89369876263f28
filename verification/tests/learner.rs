use boostlss::data::{DenseMatrix, DesignMatrix};
use boostlss::learner::{Constraint, HistTree, Linear, Stump, Tree};
use boostlss::penalty::{difference_matrix, penalty_fits, penalty_matrix, tensor_penalty, tensor_penalty_fits};
use boostlss::random_effects::{random_effects_design, random_effects_penalty};
use boostlss::BoostlssError;

fn dense_of(d: DesignMatrix<f64>) -> DenseMatrix<f64> {
    match d {
        DesignMatrix::Dense(m) => m,
        _ => panic!("Expected Dense"),
    }
}

fn rows_of(m: &DenseMatrix<f64>) -> Vec<Vec<f64>> {
    (0..m.nrows()).map(|r| (0..m.ncols()).map(|c| m.get(r, c)).collect()).collect()
}

fn x_matrix(nrows: usize, ncols: usize, data: Vec<f64>) -> DesignMatrix<f64> {
    DesignMatrix::Dense(DenseMatrix::from_row_major(nrows, ncols, data).unwrap())
}

#[test]
fn test_linear_with_intercept() {
    let linear = Linear::new(0);
    let x = x_matrix(3, 1, vec![1.0, 2.0, 3.0]);
    let design = dense_of(linear.build_design(&x, 0.0, 1.0).unwrap());
    assert_eq!(rows_of(&design), vec![vec![1.0, 1.0], vec![1.0, 2.0], vec![1.0, 3.0]]);
}

#[test]
fn test_linear_without_intercept() {
    let linear = Linear::new(0).intercept(false);
    assert!(!linear.has_intercept());
    let x = x_matrix(3, 1, vec![1.0, 2.0, 3.0]);
    let design = dense_of(linear.build_design(&x, 0.0, 1.0).unwrap());
    assert_eq!(rows_of(&design), vec![vec![1.0], vec![2.0], vec![3.0]]);
}

#[test]
fn test_penalty_matrix() {
    let linear = Linear::new(0);
    let penalty = dense_of(linear.penalty_matrix(2, 0.0));
    assert_eq!(rows_of(&penalty), vec![vec![0.0, 0.0], vec![0.0, 0.0]]);
}

#[test]
fn test_linear_extracts_correct_column() {
    let x = x_matrix(3, 2, vec![1.0, 10.0, 2.0, 20.0, 3.0, 30.0]);
    let linear = Linear::new(1).intercept(false);
    let design = dense_of(linear.build_design(&x, 0.0, 1.0).unwrap());
    assert_eq!(rows_of(&design), vec![vec![10.0], vec![20.0], vec![30.0]]);
}

#[test]
fn linear_on_a_missing_feature_fails() {
    let x = x_matrix(2, 1, vec![1.0, 2.0]);
    match Linear::new(1).build_design(&x, 0.0, 1.0) {
        Err(BoostlssError::DataError(msg)) => assert_eq!(msg, "Column index out of bounds"),
        other => panic!("unexpected {:?}", other),
    }
    assert!(Linear::new(4).has_intercept());
    assert_eq!(Linear::new(4).feature_idx, 4);
}

#[test]
fn learner_settings() {
    assert_eq!(Stump::new(3).feature_idx, 3);
    let t = Tree::new(vec![0, 2]);
    assert_eq!((t.max_depth, t.min_samples_leaf), (3, 1));
    let t = t.max_depth(5).min_samples_leaf(4);
    assert_eq!((t.max_depth, t.min_samples_leaf, t.feature_indices.clone()), (5, 4, vec![0, 2]));
    let h = HistTree::new(vec![1]);
    assert_eq!((h.max_depth, h.min_samples_leaf, h.max_bins), (3, 1, 256));
    assert!(h.categorical_features.is_empty());
    let h = h.max_bins(3).max_depth(2).min_samples_leaf(7).categorical_features(vec![1]);
    assert_eq!((h.max_depth, h.min_samples_leaf, h.max_bins), (2, 7, 3));
    assert_eq!(h.categorical_features, vec![1]);
    assert_eq!(h.feature_indices, vec![1]);
}

#[test]
fn test_random_effects_design() {
    let design = match random_effects_design(&vec![0, 2, 1, 0], 1.0) {
        DesignMatrix::Csc(d) => d,
        _ => panic!("Expected Csc"),
    };
    assert_eq!(design.shape, (4, 3));
    // Col 0 has row 0, 3; col 1 has row 2; col 2 has row 1
    assert_eq!(design.indptr, vec![0, 2, 3, 4]);
    assert_eq!(design.indices, vec![0, 3, 2, 1]);
    assert_eq!(design.data, vec![1.0, 1.0, 1.0, 1.0]);
}

#[test]
fn random_effects_columns_indicate_groups() {
    let codes = vec![1, 1, 0, 3, 1];
    let d = random_effects_design(&codes, 1.0);
    assert_eq!(d.ncols(), 4);
    for c in 0..4 {
        let col = d.get_column(c, 0.0).unwrap();
        let expected: Vec<f64> = codes.iter().map(|&g| if g == c { 1.0 } else { 0.0 }).collect();
        assert_eq!(col, expected);
    }
}

#[test]
fn random_effects_without_observations_is_empty_dense() {
    match random_effects_design::<f64>(&vec![], 1.0) {
        DesignMatrix::Dense(m) => assert_eq!((m.nrows(), m.ncols()), (0, 0)),
        _ => panic!("Expected Dense"),
    }
}

#[test]
fn test_random_effects_penalty() {
    let pen = match random_effects_penalty(3, 1.0) {
        DesignMatrix::Csc(d) => d,
        _ => panic!("Expected Csc"),
    };
    assert_eq!(pen.shape, (3, 3));
    assert_eq!(pen.indptr, vec![0, 1, 2, 3]);
    assert_eq!(pen.indices, vec![0, 1, 2]);
    assert_eq!(pen.data, vec![1.0, 1.0, 1.0]);
    let d = DesignMatrix::Csc(pen);
    assert_eq!(d.get_column(1, 0.0).unwrap(), vec![0.0, 1.0, 0.0]);
}

#[test]
fn test_difference_matrix_d1() {
    let diff = difference_matrix(3, 1);
    assert_eq!(diff, vec![vec![-1, 1, 0], vec![0, -1, 1]]);
}

#[test]
fn difference_matrix_orders() {
    assert_eq!(difference_matrix(2, 0), vec![vec![1, 0], vec![0, 1]]);
    assert_eq!(difference_matrix(4, 2), vec![vec![1, -2, 1, 0], vec![0, 1, -2, 1]]);
    assert_eq!(difference_matrix(3, 3), Vec::<Vec<i64>>::new());
    for row in difference_matrix(6, 3) {
        assert_eq!(row.iter().sum::<i64>(), 0);
    }
}

#[test]
fn penalty_is_dtd() {
    let k = penalty_matrix(3, 1);
    assert_eq!(k, vec![vec![1, -1, 0], vec![-1, 2, -1], vec![0, -1, 1]]);
    let k2 = penalty_matrix(4, 2);
    assert_eq!(k2[0], vec![1, -2, 1, 0]);
    assert_eq!(k2[1], vec![-2, 5, -4, 1]);
    for i in 0..4 {
        for j in 0..4 {
            assert_eq!(k2[i][j], k2[j][i]);
        }
    }
}

#[test]
fn constraint_orders() {
    assert_eq!(Constraint::MonotonicIncreasing.difference_order(), 1);
    assert_eq!(Constraint::MonotonicDecreasing.difference_order(), 1);
    assert_eq!(Constraint::Convex.difference_order(), 2);
    assert_eq!(Constraint::Concave.difference_order(), 2);
    assert!(Constraint::Convex.keeps_differences_non_negative());
    assert!(!Constraint::Concave.keeps_differences_non_negative());
    assert_eq!(Constraint::Concave.name(), "concave");
}

#[test]
fn penalty_rows_sum_to_zero() {
    for d in 1..4 {
        let k = penalty_matrix(7, d);
        for row in &k {
            assert_eq!(row.iter().sum::<i64>(), 0);
        }
    }
    assert!(penalty_fits(7, 3));
    assert!(!penalty_fits(2, 3));
    assert!(!penalty_fits(100, 63));
    assert!(!penalty_fits(usize::MAX, 2));
}

#[test]
fn tensor_penalty_is_kronecker_sum() {
    // K1 = K2 = [[1, -1], [-1, 1]] for two coefficients and first differences
    let k = tensor_penalty(2, 2, 1);
    assert_eq!(
        k,
        vec![vec![2, -1, -1, 0], vec![-1, 2, 0, -1], vec![-1, 0, 2, -1], vec![0, -1, -1, 2]]
    );
    let k = tensor_penalty(3, 2, 1);
    assert_eq!(k.len(), 6);
    // entry (a=1,b=0) x (c=2,e=0) takes K1[1][2] = -1
    assert_eq!(k[2][4], -1);
    for i in 0..6 {
        for j in 0..6 {
            assert_eq!(k[i][j], k[j][i]);
        }
    }
    assert!(tensor_penalty_fits(3, 2, 1));
    assert!(!tensor_penalty_fits(3, 1, 2));
}
