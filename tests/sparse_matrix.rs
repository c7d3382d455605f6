use aes_grinder::sparse_matrix::CooMatrix;

#[test]
fn test_coo_matrix() {
    let matrix: Vec<Vec<usize>> = vec![vec![1, 0, 0, 0], vec![0, 0, 2, 0], vec![0, 0, 0, 3]];
    let coo_matrix = CooMatrix::from_dense(&matrix);
    assert_eq!(coo_matrix.row_indices(), vec![0, 1, 2]);
    assert_eq!(coo_matrix.col_indices(), vec![0, 2, 3]);
    assert_eq!(coo_matrix.values(), vec![1, 2, 3]);
    assert_eq!(coo_matrix.dissassemble(), matrix);
}

#[test]
fn test_coo_matrix_get_triplets() {
    let matrix: Vec<Vec<usize>> = vec![vec![1, 0, 0, 0], vec![0, 0, 2, 0], vec![0, 0, 0, 3]];
    let coo_matrix = CooMatrix::from_dense(&matrix);
    assert_eq!(coo_matrix.get_triplets(), vec![(0, 0, 1), (1, 2, 2), (2, 3, 3)]);
}

#[test]
fn coo_matrix_new_is_empty() {
    let coo_matrix = CooMatrix::new((2, 3));
    assert!(coo_matrix.get_triplets().is_empty());
    assert_eq!(coo_matrix.dissassemble(), vec![vec![0, 0, 0], vec![0, 0, 0]]);
}

#[test]
fn test_coo_matrix_mul_scalar() {
    let matrix: Vec<Vec<usize>> = vec![vec![1, 0, 0, 0], vec![0, 0, 2, 0], vec![0, 0, 0, 3]];
    let coo_matrix = CooMatrix::from_dense(&matrix);
    let result = coo_matrix.mul_scalar(2);
    assert_eq!(result.row_indices(), vec![0, 1, 2]);
    assert_eq!(result.col_indices(), vec![0, 2, 3]);
    assert_eq!(result.values(), vec![2, 4, 6]);
}

#[test]
fn test_coo_matrix_display() {
    let matrix: Vec<Vec<usize>> = vec![vec![1, 0, 0, 0], vec![0, 0, 2, 0], vec![0, 0, 0, 3]];
    let coo_matrix = CooMatrix::from_dense(&matrix);
    assert_eq!(coo_matrix.to_display_string(), "1 0 0 0 \n0 0 2 0 \n0 0 0 3 ");
}

#[test]
fn test_coo_matrix_mul1() {
    let matrix1: Vec<Vec<usize>> = vec![vec![1, 0, 0, 0], vec![0, 0, 2, 0], vec![0, 0, 0, 3]];
    let matrix2: Vec<Vec<usize>> = vec![vec![0, 0, 0], vec![0, 0, 0], vec![0, 0, 0], vec![4, 5, 6]];
    let coo_matrix1 = CooMatrix::from_dense(&matrix1);
    let coo_matrix2 = CooMatrix::from_dense(&matrix2);
    let result = coo_matrix1.mul(&coo_matrix2);
    assert_eq!(result.row_indices(), vec![2, 2, 2]);
    assert_eq!(result.col_indices(), vec![0, 1, 2]);
    assert_eq!(result.values(), vec![12, 15, 18]);
}

#[test]
fn test_coo_matrix_mul2() {
    let matrix1: Vec<Vec<usize>> = vec![vec![1, 0, 0, 0], vec![0, 0, 2, 0], vec![0, 0, 0, 3]];
    let matrix2: Vec<Vec<usize>> = vec![vec![0, 0, 0], vec![0, 0, 0], vec![0, 0, 0], vec![4, 5, 6]];
    let coo_matrix1 = CooMatrix::from_dense(&matrix1);
    let coo_matrix2 = CooMatrix::from_dense(&matrix2);
    let result = coo_matrix2.mul(&coo_matrix1);
    assert_eq!(result.row_indices(), vec![3, 3, 3]);
    assert_eq!(result.col_indices(), vec![0, 2, 3]);
    assert_eq!(result.values(), vec![4, 10, 18]);
}

#[test]
fn test_coo_matrix_add() {
    let matrix1: Vec<Vec<usize>> = vec![vec![1, 0, 0, 0], vec![0, 0, 2, 0], vec![0, 0, 0, 3]];
    let matrix2: Vec<Vec<usize>> = vec![vec![0, 0, 0, 4], vec![0, 0, 5, 0], vec![0, 0, 0, 6]];
    let coo_matrix1 = CooMatrix::from_dense(&matrix1);
    let coo_matrix2 = CooMatrix::from_dense(&matrix2);
    let result = coo_matrix1.add(&coo_matrix2);
    assert_eq!(result.row_indices(), vec![0, 1, 2, 0]);
    assert_eq!(result.col_indices(), vec![0, 2, 3, 3]);
    assert_eq!(result.values(), vec![1, 7, 9, 4]);
}
