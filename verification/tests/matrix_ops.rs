use mnist::matrix::Matrix;
use mnist::matrix::MatrixError;

/// Build a matrix from row-major values.
fn build(rows: usize, cols: usize, vals: Vec<i32>) -> Matrix {
    let mut m = Matrix::new(rows, cols).unwrap();
    for y in 0..rows {
        for x in 0..cols {
            m.set(x, y, vals[y * cols + x]);
        }
    }
    m
}

#[test]
fn new_is_zero_filled() {
    let m = Matrix::new(2, 3).unwrap();
    assert_eq!(m.rows, 2);
    assert_eq!(m.cols, 3);
    for y in 0..2 {
        for x in 0..3 {
            assert_eq!(m.get(x, y), 0);
        }
    }
}

#[test]
fn new_zero_dimension_is_refused() {
    assert!(matches!(Matrix::new(0, 5), Err(MatrixError::DimensionError)));
    assert!(matches!(Matrix::new(5, 0), Err(MatrixError::DimensionError)));
}

#[test]
fn set_then_get() {
    let mut m = Matrix::new(3, 2).unwrap();
    m.set(1, 2, -7);
    assert_eq!(m.get(1, 2), -7);
    assert_eq!(m.get(0, 2), 0);
    assert_eq!(m.get(1, 1), 0);
}

#[test]
fn add_adds_entrywise() {
    let a = build(2, 2, vec![1, 2, 3, 4]);
    let b = build(2, 2, vec![10, 20, 30, -40]);
    let r = mnist::matrix::add(&a, &b).unwrap();
    assert_eq!(r.get(0, 0), 11);
    assert_eq!(r.get(1, 0), 22);
    assert_eq!(r.get(0, 1), 33);
    assert_eq!(r.get(1, 1), -36);
}

#[test]
fn add_shape_mismatch_is_refused() {
    let a = Matrix::new(2, 2).unwrap();
    let b = Matrix::new(2, 3).unwrap();
    assert!(matches!(mnist::matrix::add(&a, &b), Err(MatrixError::DimensionMismatch)));
}

#[test]
fn add_overflow_is_refused() {
    let a = build(1, 1, vec![i32::MAX]);
    let b = build(1, 1, vec![1]);
    assert!(matches!(mnist::matrix::add(&a, &b), Err(MatrixError::Overflow)));
}

#[test]
fn sub_subtracts_entrywise() {
    let a = build(1, 3, vec![5, 0, -5]);
    let b = build(1, 3, vec![2, 7, -1]);
    let r = mnist::matrix::sub(&a, &b).unwrap();
    assert_eq!(r.get(0, 0), 3);
    assert_eq!(r.get(1, 0), -7);
    assert_eq!(r.get(2, 0), -4);
}

#[test]
fn mul_multiplies_entrywise() {
    let a = build(2, 1, vec![3, -4]);
    let b = build(2, 1, vec![5, 6]);
    let r = mnist::matrix::mul(&a, &b).unwrap();
    assert_eq!(r.get(0, 0), 15);
    assert_eq!(r.get(0, 1), -24);
}

#[test]
fn scale_scales_every_entry() {
    let a = build(2, 2, vec![1, -2, 3, 0]);
    let r = mnist::matrix::scale(&a, -2).unwrap();
    assert_eq!(r.get(0, 0), -2);
    assert_eq!(r.get(1, 0), 4);
    assert_eq!(r.get(0, 1), -6);
    assert_eq!(r.get(1, 1), 0);
}

#[test]
fn scale_overflow_is_refused() {
    let a = build(1, 1, vec![i32::MIN]);
    assert!(matches!(mnist::matrix::scale(&a, -1), Err(MatrixError::Overflow)));
}

#[test]
fn transpose_swaps_rows_and_columns() {
    let a = build(2, 3, vec![1, 2, 3, 4, 5, 6]);
    let t = a.t();
    assert_eq!(t.rows, 3);
    assert_eq!(t.cols, 2);
    assert_eq!(t.get(0, 0), 1);
    assert_eq!(t.get(1, 0), 4);
    assert_eq!(t.get(0, 1), 2);
    assert_eq!(t.get(1, 1), 5);
    assert_eq!(t.get(0, 2), 3);
    assert_eq!(t.get(1, 2), 6);
}

#[test]
fn transpose_twice_restores_the_matrix() {
    let a = build(3, 2, vec![1, -2, 3, -4, 5, -6]);
    assert_eq!(a.t().t(), a);
}

#[test]
fn matmul_known_product() {
    let a = build(2, 2, vec![1, 2, 3, 4]);
    let b = build(2, 1, vec![5, 6]);
    let r = mnist::matrix::dot(&a, &b).unwrap();
    assert_eq!(r.rows, 2);
    assert_eq!(r.cols, 1);
    assert_eq!(r.get(0, 0), 17);
    assert_eq!(r.get(0, 1), 39);
}

#[test]
fn matmul_result_shape() {
    let a = Matrix::new(2, 3).unwrap();
    let b = Matrix::new(3, 4).unwrap();
    let r = mnist::matrix::dot(&a, &b).unwrap();
    assert_eq!(r.rows, 2);
    assert_eq!(r.cols, 4);
}

#[test]
fn matmul_inner_mismatch_is_refused() {
    let a = Matrix::new(2, 3).unwrap();
    let b = Matrix::new(2, 2).unwrap();
    assert!(matches!(mnist::matrix::dot(&a, &b), Err(MatrixError::DimensionMismatch)));
}

#[test]
fn matmul_overflow_is_refused() {
    let a = build(1, 1, vec![i32::MAX]);
    let b = build(1, 1, vec![2]);
    assert!(matches!(mnist::matrix::dot(&a, &b), Err(MatrixError::Overflow)));
}

#[test]
fn sum_adds_all_entries() {
    let a = build(2, 2, vec![1, -2, 3, 10]);
    assert_eq!(a.sum(), 12i128);
}

#[test]
fn argmax_takes_lowest_index_among_ties() {
    let a = build(1, 4, vec![2, 5, 5, 1]);
    assert_eq!(a.argmax(), 1);
}

#[test]
fn argmax_of_single_entry() {
    let a = build(1, 1, vec![-3]);
    assert_eq!(a.argmax(), 0);
}

#[test]
fn mse_of_matrix_with_itself_is_zero() {
    let a = build(2, 3, vec![4, -1, 0, 7, 2, -9]);
    assert_eq!(a.mean_squared_error(&a), Ok(0i128));
}

#[test]
fn mse_exact_value() {
    let o = build(1, 2, vec![1, 2]);
    let t = build(1, 2, vec![3, 5]);
    // (3 - 1)^2 + (5 - 2)^2 = 13; 13 / 2 entries = 6
    assert_eq!(o.mean_squared_error(&t), Ok(6i128));
}

#[test]
fn mse_shape_mismatch_is_refused() {
    let a = Matrix::new(1, 2).unwrap();
    let b = Matrix::new(2, 1).unwrap();
    assert!(matches!(a.mean_squared_error(&b), Err(MatrixError::DimensionMismatch)));
}

#[test]
fn adding_the_negation_gives_the_zero_matrix() {
    let a = build(2, 2, vec![7, -3, 0, 12]);
    let neg = mnist::matrix::scale(&a, -1).unwrap();
    let z = mnist::matrix::add(&a, &neg).unwrap();
    assert_eq!(z.rows, a.rows);
    assert_eq!(z.cols, a.cols);
    for y in 0..2 {
        for x in 0..2 {
            assert_eq!(z.get(x, y), 0);
        }
    }
}

#[test]
fn zero_weights_give_zero_preactivation() {
    let w = Matrix::new(10, 5).unwrap();
    let input = build(5, 1, vec![3, 7, -2, 100, 42]);
    let r = mnist::matrix::dot(&w, &input).unwrap();
    for y in 0..10 {
        assert_eq!(r.get(0, y), 0);
    }
}

#[test]
fn matrices_with_equal_entries_are_equal() {
    let a = build(2, 2, vec![1, 2, 3, 4]);
    let b = build(2, 2, vec![1, 2, 3, 4]);
    let c = build(2, 2, vec![1, 2, 3, 5]);
    assert_eq!(a, b);
    assert_ne!(a, c);
}
