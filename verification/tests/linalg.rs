use math_lib::matrix::LUDecomposition;
use math_lib::{MathError, Matrix, Vector};

#[test]
fn vector_norms_match_expected_values() {
    let vector = Vector::new(vec![3i64, 4]);

    assert_eq!(vector.l1_norm(), 7);
    assert_eq!(vector.l2_norm(), 5);
    assert_eq!(vector.inf_norm(), 4);
}

#[test]
fn dot_product_computes_expected_result() {
    let lhs = Vector::new(vec![1i64, 2, 3]);
    let rhs = Vector::new(vec![4i64, 5, 6]);

    assert_eq!(lhs.dot(&rhs).unwrap(), 32);
}

#[test]
fn matrix_vector_multiplication_matches_expected_values() {
    let matrix = Matrix::<i64>::new(2, 2, vec![2, 1, 1, 3]).unwrap();
    let vector = Vector::new(vec![3i64, 4]);

    let result = matrix.mul_vector(&vector).unwrap();
    assert_eq!(result, Vector::new(vec![10, 15]));
}

#[test]
fn norms_of_negative_and_empty_vectors() {
    let vector = Vector::new(vec![-3i32, 0, 4, -12]);
    assert_eq!(vector.l1_norm(), 19);
    assert_eq!(vector.l2_norm(), 13);
    assert_eq!(vector.inf_norm(), 12);

    let empty: Vector<u32> = Vector::new(Vec::new());
    assert_eq!(empty.l1_norm(), 0);
    assert_eq!(empty.l2_norm(), 0);
    assert_eq!(empty.inf_norm(), 0);
    assert!(empty.is_empty());
}

#[test]
fn l2_norm_rounds_down() {
    assert_eq!(Vector::new(vec![1u64, 1]).l2_norm(), 1);
    assert_eq!(Vector::new(vec![2u32, 2]).l2_norm(), 2);
    assert_eq!(Vector::new(vec![300_000_000u64, 400_000_000]).l2_norm(), 500_000_000);
}

#[test]
fn dot_product_rejects_length_mismatch() {
    let lhs = Vector::new(vec![1i64, 2, 3]);
    let rhs = Vector::new(vec![4i64, 5]);
    assert_eq!(
        lhs.dot(&rhs),
        Err(MathError::DimensionMismatch {
            expected: "matching lengths in vector dot product".to_string(),
            found: "3 vs 2".to_string(),
        })
    );
}

#[test]
fn vector_map_zip_map_and_access() {
    let vector = Vector::new(vec![1i64, 2, 3]);
    let doubled = vector.map(|x: i64| x * 2);
    assert_eq!(doubled.as_slice(), &[2, 4, 6]);
    let sums = vector.zip_map(&doubled, |a: i64, b: i64| a + b).unwrap();
    assert_eq!(sums.into_vec(), vec![3, 6, 9]);
    assert!(vector.zip_map(&Vector::new(vec![1i64]), |a: i64, b: i64| a + b).is_err());
    assert_eq!(*vector.get(1), 2);
    let mut changed = vector.clone();
    changed.set(0, 10);
    assert_eq!(changed.as_slice(), &[10, 2, 3]);
    assert_eq!(vector.iter().copied().collect::<Vec<_>>(), vec![1, 2, 3]);
    assert_eq!(Vector::<u32>::zeros(3).into_vec(), vec![0, 0, 0]);
    assert_eq!(vector.len(), 3);
}

#[test]
fn matrix_new_rejects_wrong_payload() {
    let result = Matrix::new(2, 3, vec![1i64, 2, 3]);
    assert_eq!(
        result,
        Err(MathError::DimensionMismatch {
            expected: "2x3 matrix payload".to_string(),
            found: "3 values".to_string(),
        })
    );
}

#[test]
fn matrix_shape_rows_columns_and_transpose() {
    let matrix = Matrix::new(2, 3, vec![1i64, 2, 3, 4, 5, 6]).unwrap();
    assert_eq!(matrix.shape(), (2, 3));
    assert_eq!(matrix.rows(), 2);
    assert_eq!(matrix.cols(), 3);
    assert_eq!(matrix.row_slice(1).unwrap(), &[4, 5, 6]);
    assert_eq!(matrix.row(0).unwrap().into_vec(), vec![1, 2, 3]);
    assert_eq!(matrix.column(2).unwrap().into_vec(), vec![3, 6]);
    assert_eq!(
        matrix.column(3),
        Err(MathError::InvalidInput {
            context: "matrix column access",
            message: "index 3 out of bounds for length 3".to_string(),
        })
    );
    assert!(matrix.row_slice(2).is_err());
    let transposed = matrix.transpose();
    assert_eq!(transposed.shape(), (3, 2));
    assert_eq!(transposed.as_slice(), &[1, 4, 2, 5, 3, 6]);
    assert_eq!(*matrix.get(1, 0), 4);
}

#[test]
fn identity_zeros_and_trace() {
    let identity = Matrix::<i32>::identity(3);
    assert_eq!(identity.as_slice(), &[1, 0, 0, 0, 1, 0, 0, 0, 1]);
    assert_eq!(identity.trace().unwrap(), 3);
    assert_eq!(Matrix::<u64>::zeros(2, 2).into_vec(), vec![0, 0, 0, 0]);
    let wide = Matrix::new(1, 2, vec![1i32, 2]).unwrap();
    assert_eq!(
        wide.trace(),
        Err(MathError::DimensionMismatch {
            expected: "square matrix in matrix trace".to_string(),
            found: "1x2".to_string(),
        })
    );
}

#[test]
fn matrix_products() {
    let a = Matrix::new(2, 3, vec![1i64, 2, 3, 4, 5, 6]).unwrap();
    let b = Matrix::new(3, 2, vec![7i64, 8, 9, 10, 11, 12]).unwrap();
    let product = a.mul_matrix(&b).unwrap();
    assert_eq!(product.shape(), (2, 2));
    assert_eq!(product.as_slice(), &[58, 64, 139, 154]);
    assert_eq!(
        a.mul_matrix(&a),
        Err(MathError::DimensionMismatch {
            expected: "inner dimensions 3 == 2".to_string(),
            found: "3 vs 2".to_string(),
        })
    );
    assert_eq!(
        a.mul_vector(&Vector::new(vec![1i64])),
        Err(MathError::DimensionMismatch {
            expected: "vector of length 3".to_string(),
            found: "vector of length 1".to_string(),
        })
    );
}

#[test]
fn matrix_map_zip_map_swap_and_set() {
    let a = Matrix::new(2, 2, vec![1i64, 2, 3, 4]).unwrap();
    assert_eq!(a.map(|x: i64| x * 10).into_vec(), vec![10, 20, 30, 40]);
    let b = Matrix::new(2, 2, vec![4i64, 3, 2, 1]).unwrap();
    assert_eq!(a.zip_map(&b, |x: i64, y: i64| x - y).unwrap().into_vec(), vec![-3, -1, 1, 3]);
    let c = Matrix::new(1, 2, vec![0i64, 0]).unwrap();
    assert_eq!(
        a.zip_map(&c, |x: i64, y: i64| x + y),
        Err(MathError::DimensionMismatch {
            expected: "2x2 in matrix zip_map".to_string(),
            found: "1x2".to_string(),
        })
    );
    let mut d = a.clone();
    d.swap_rows(0, 1);
    assert_eq!(d.as_slice(), &[3, 4, 1, 2]);
    d.set(0, 1, 9);
    assert_eq!(d.as_slice(), &[3, 9, 1, 2]);
}

#[test]
fn lu_factors_split_into_lower_and_upper() {
    let lu = Matrix::new(3, 3, vec![2i64, 3, 4, 5, 6, 7, 8, 9, 10]).unwrap();
    let decomposition = LUDecomposition::from_parts(lu.clone(), vec![2, 0, 1]).unwrap();
    assert_eq!(decomposition.lower().as_slice(), &[1, 0, 0, 5, 1, 0, 8, 9, 1]);
    assert_eq!(decomposition.upper().as_slice(), &[2, 3, 4, 0, 6, 7, 0, 0, 10]);
    assert_eq!(decomposition.pivots(), &[2, 0, 1]);
    assert_eq!(decomposition.permutation_sign(), 1);
    assert_eq!(decomposition.factors().shape(), (3, 3));
    let copy = decomposition.clone();
    assert_eq!(copy.pivots(), &[2, 0, 1]);
    assert_eq!(copy.factors(), decomposition.factors());
}

#[test]
fn lu_row_order_must_be_a_permutation_and_gives_the_sign() {
    let lu = Matrix::new(3, 3, vec![2i64, 3, 4, 5, 6, 7, 8, 9, 10]).unwrap();
    assert_eq!(LUDecomposition::from_parts(lu.clone(), vec![1, 0, 2]).unwrap().permutation_sign(), -1);
    assert_eq!(LUDecomposition::from_parts(lu.clone(), vec![2, 1, 0]).unwrap().permutation_sign(), -1);
    assert_eq!(LUDecomposition::from_parts(lu.clone(), vec![0, 1, 2]).unwrap().permutation_sign(), 1);
    assert!(LUDecomposition::from_parts(lu.clone(), vec![0, 0, 1]).is_none());
    assert!(LUDecomposition::from_parts(lu.clone(), vec![0, 1, 3]).is_none());
    assert!(LUDecomposition::from_parts(lu, vec![0, 1]).is_none());
}

#[test]
fn transposing_twice_gives_back_the_matrix() {
    let matrix = Matrix::new(2, 3, vec![1i64, -2, 3, 4, 5, -6]).unwrap();
    assert_eq!(matrix.transpose().transpose(), matrix);
}

#[test]
fn identity_is_neutral_for_products() {
    let matrix = Matrix::new(2, 3, vec![1i64, -2, 3, 4, 5, -6]).unwrap();
    assert_eq!(Matrix::<i64>::identity(2).mul_matrix(&matrix).unwrap(), matrix);
    assert_eq!(matrix.mul_matrix(&Matrix::<i64>::identity(3)).unwrap(), matrix);
}

#[test]
fn dot_product_is_symmetric() {
    let lhs = Vector::new(vec![3i32, -1, 7]);
    let rhs = Vector::new(vec![-2i32, 5, 4]);
    assert_eq!(lhs.dot(&rhs).unwrap(), rhs.dot(&lhs).unwrap());
    assert_eq!(lhs.dot(&rhs).unwrap(), 17);
}
