use boostlss::data::{gather, DenseMatrix, DesignMatrix, SparseMatrix};
use boostlss::BoostlssError;

fn dense(nrows: usize, ncols: usize, data: Vec<f64>) -> DenseMatrix<f64> {
    DenseMatrix::from_row_major(nrows, ncols, data).unwrap()
}

#[test]
fn test_design_matrix_dense() {
    let dm = DesignMatrix::Dense(dense(3, 2, vec![1.0; 6]));
    let col = dm.get_column(1, 0.0).unwrap();
    assert_eq!(col, vec![1.0; 3]);
}

#[test]
fn test_design_matrix_csc() {
    // [[1.0, 0.0], [0.0, 2.0], [3.0, 4.0]]
    let sparse = SparseMatrix::new(vec![1.0, 3.0, 2.0, 4.0], vec![0, 2, 1, 2], vec![0, 2, 4], (3, 2)).unwrap();
    let dm = DesignMatrix::Csc(sparse);
    assert!(dm.column_readable(0));
    let col0 = dm.get_column(0, 0.0).unwrap();
    assert_eq!(col0, vec![1.0, 0.0, 3.0]);
    let col1 = dm.get_column(1, 0.0).unwrap();
    assert_eq!(col1, vec![0.0, 2.0, 4.0]);
}

#[test]
fn test_design_matrix_csr() {
    // [[1.0, 0.0], [0.0, 2.0], [3.0, 4.0]]
    let sparse = SparseMatrix::new(vec![1.0, 2.0, 3.0, 4.0], vec![0, 1, 0, 1], vec![0, 1, 2, 4], (3, 2)).unwrap();
    let dm = DesignMatrix::Csr(sparse);
    assert!(dm.column_readable(1));
    let col0 = dm.get_column(0, 0.0).unwrap();
    assert_eq!(col0, vec![1.0, 0.0, 3.0]);
    let col1 = dm.get_column(1, 0.0).unwrap();
    assert_eq!(col1, vec![0.0, 2.0, 4.0]);
}

#[test]
fn get_column_out_of_bounds_is_a_data_error() {
    let dm = DesignMatrix::Dense(dense(2, 2, vec![1.0, 2.0, 3.0, 4.0]));
    match dm.get_column(2, 0.0) {
        Err(BoostlssError::DataError(msg)) => assert_eq!(msg, "Column index out of bounds"),
        other => panic!("unexpected {:?}", other),
    }
    assert_eq!(dm.nrows(), 2);
    assert_eq!(dm.ncols(), 2);
}

#[test]
fn sparse_matrix_rejects_each_structural_problem() {
    let msg = |r: Result<SparseMatrix<f64>, BoostlssError>| match r {
        Err(BoostlssError::DataError(m)) => m,
        other => panic!("unexpected {:?}", other),
    };
    assert_eq!(
        msg(SparseMatrix::new(vec![1.0], vec![], vec![0, 1], (1, 1))),
        "Data and indices must have the same length"
    );
    assert_eq!(msg(SparseMatrix::new(vec![], vec![], vec![], (1, 1))), "indptr must not be empty");
    assert_eq!(
        msg(SparseMatrix::new(vec![1.0], vec![0], vec![0, 0, 0, 1], (1, 1))),
        "indptr length does not match expected length for CSR or CSC format"
    );
    assert_eq!(
        msg(SparseMatrix::new(vec![1.0], vec![0], vec![0, 2], (1, 1))),
        "Last element of indptr must equal the number of non-zero elements"
    );
    let ok = SparseMatrix::new(vec![1.0], vec![0], vec![0, 1], (1, 3)).unwrap();
    assert_eq!(ok.shape, (1, 3));
}

#[test]
fn csc_later_entries_for_the_same_row_win() {
    let sparse = SparseMatrix::new(vec![5.0, 7.0], vec![1, 1], vec![0, 2], (3, 1)).unwrap();
    let col = DesignMatrix::Csc(sparse).get_column(0, 0.0).unwrap();
    assert_eq!(col, vec![0.0, 7.0, 0.0]);
}

#[test]
fn csr_first_entry_for_the_column_wins() {
    let sparse = SparseMatrix::new(vec![5.0, 7.0], vec![0, 0], vec![0, 2], (1, 1)).unwrap();
    let col = DesignMatrix::Csr(sparse).get_column(0, 0.0).unwrap();
    assert_eq!(col, vec![5.0]);
}

#[test]
fn unreadable_sparse_columns_are_reported() {
    let sparse = SparseMatrix::new(vec![1.0], vec![9], vec![0, 1], (2, 1)).unwrap();
    assert!(!DesignMatrix::Csc(sparse.clone()).column_readable(0));
    let short = SparseMatrix::new(vec![1.0], vec![4], vec![0, 3, 1], (2, 5)).unwrap();
    assert!(!DesignMatrix::Csr(short).column_readable(0));
}

#[test]
fn dense_matrix_shape_and_rows() {
    assert!(DenseMatrix::from_row_major(2, 3, vec![0.0; 5]).is_err());
    let m = dense(3, 2, vec![1.0, 2.0, 3.0, 4.0, 5.0, 6.0]);
    assert_eq!(m.get(2, 1), 6.0);
    assert_eq!(m.column(0), vec![1.0, 3.0, 5.0]);
    let s = m.select_rows(&vec![2, 0]).unwrap();
    assert_eq!(s.nrows(), 2);
    assert_eq!(s.column(1), vec![6.0, 2.0]);
    match m.select_rows(&vec![0, 3]) {
        Err(BoostlssError::DataError(msg)) => assert_eq!(msg, "Index out of bounds"),
        other => panic!("unexpected {:?}", other),
    }
    let e: DenseMatrix<f64> = DenseMatrix::empty();
    assert_eq!((e.nrows(), e.ncols()), (0, 0));
}

#[test]
fn gather_picks_listed_entries() {
    assert_eq!(gather(&vec![10, 20, 30], &vec![2, 2, 0]), vec![30, 30, 10]);
}

use boostlss::data::{check_censoring, check_dataset, check_feature_index, check_new_weights, check_weights};

fn detail(r: Result<(), BoostlssError>) -> String {
    match r {
        Err(BoostlssError::DataError(msg)) => msg,
        other => panic!("unexpected {:?}", other),
    }
}

#[test]
fn dataset_validates_dimensions() {
    // design of 3 rows, response of 2
    assert_eq!(detail(check_dataset(3, 2, None, false, None)), "Design has 3 rows, but response has length 2");
}

#[test]
fn dataset_rejects_negative_weights() {
    assert_eq!(detail(check_dataset(2, 2, Some(2), true, None)), "Weights cannot be negative");
}

#[test]
fn dataset_accepts_valid_data() {
    assert!(check_dataset(2, 2, Some(2), false, None).is_ok());
    assert!(check_dataset(3, 3, None, false, Some(3)).is_ok());
}

#[test]
fn dataset_rejects_invalid_censoring_length() {
    assert_eq!(detail(check_dataset(2, 2, None, false, Some(3))), "Design has 2 rows, but censoring has length 3");
}

#[test]
fn dataset_checks_come_in_order() {
    assert_eq!(detail(check_dataset(12, 120, Some(1), true, Some(0))), "Design has 12 rows, but response has length 120");
    assert_eq!(detail(check_dataset(12, 12, Some(1), true, Some(0))), "Design has 12 rows, but weights have length 1");
    assert_eq!(detail(check_dataset(12, 12, Some(12), true, Some(0))), "Weights cannot be negative");
    assert_eq!(detail(check_dataset(12, 12, Some(12), false, Some(0))), "Design has 12 rows, but censoring has length 0");
    // the sign only matters when weights are given
    assert!(check_dataset(12, 12, None, true, None).is_ok());
}

#[test]
fn weight_and_censoring_updates() {
    assert_eq!(detail(check_weights(4, 5, false)), "Design has 4 rows, but weights have length 5");
    assert_eq!(detail(check_new_weights(4, 10, false)), "Design has 4 rows, but new weights have length 10");
    assert_eq!(detail(check_new_weights(4, 4, true)), "Weights cannot be negative");
    assert!(check_weights(4, 4, false).is_ok());
    assert_eq!(detail(check_censoring(1000, 7)), "Design has 1000 rows, but censoring has length 7");
    assert!(check_censoring(0, 0).is_ok());
}

#[test]
fn feature_index_bounds() {
    assert_eq!(
        detail(check_feature_index(5, 3)),
        "Feature index 5 out of bounds for design matrix with 3 columns"
    );
    assert!(check_feature_index(2, 3).is_ok());
}
