use aes_grinder::field::Number;
use aes_grinder::matrix::{Matrix, MatrixError};

fn names(v: &[&str]) -> Vec<String> {
    v.iter().map(|s| s.to_string()).collect()
}

#[test]
fn test_index() {
    let mut matrix = Matrix::new(2, 2);
    matrix.set(0, 0, 1.into());
    assert_eq!(matrix.get(0, 0), 1.into());
}

#[test]
fn test_index2() {
    let false_matrix: Vec<Vec<u8>> = vec![vec![0; 2]; 2];
    let true_matrix = Matrix::new(2, 2);
    assert_eq!(true_matrix.get(0, 0), false_matrix[0][0].into());
}

#[test]
fn test_index3() {
    let mut false_matrix: Vec<Vec<u8>> = vec![vec![0; 2]; 2];
    let mut true_matrix = Matrix::new(2, 2);
    false_matrix[1][1] = 4;
    true_matrix.set(1, 1, 4.into());
    assert_eq!(true_matrix.get(1, 1), false_matrix[1][1].into());
}

#[test]
fn get_row() {
    let matrix = Matrix::from(vec![vec![1, 2], vec![3, 4]]);
    let row = matrix.get_row(0);
    assert_eq!(row, vec![1.into(), 2.into()]);
}

#[test]
fn get_column() {
    let matrix = Matrix::from(vec![vec![1, 2], vec![3, 4]]);
    let column = matrix.get_column(0);
    assert_eq!(column, vec![1.into(), 3.into()]);
}

#[test]
fn delete_row() {
    let mut matrix = Matrix::from(vec![vec![1, 2], vec![3, 4]]);
    matrix.delete_row(0).unwrap();
    let expected = Matrix::from(vec![vec![3, 4]]);
    assert_eq!(matrix, expected);
}

#[test]
fn delete_column() {
    let mut matrix = Matrix::from(vec![vec![1, 2], vec![3, 4]]);
    matrix.delete_column(0).unwrap();
    let mut expected = Matrix::from(vec![vec![2], vec![4]]);
    expected.set_vars_map(names(&["X_1"])).unwrap();
    assert_eq!(matrix, expected);
}

#[test]
fn delete_out_of_range_fails() {
    let mut matrix = Matrix::from(vec![vec![1, 2], vec![3, 4]]);
    assert_eq!(matrix.delete_row(2), Err(MatrixError::IndexOutOfBounds));
    assert_eq!(matrix.delete_column(2), Err(MatrixError::IndexOutOfBounds));
    assert_eq!(matrix.swap_columns(0, 2), Err(MatrixError::IndexOutOfBounds));
    assert_eq!(matrix, Matrix::from(vec![vec![1, 2], vec![3, 4]]));
}

#[test]
fn delete_empty_rows() {
    let mut matrix = Matrix::from(vec![vec![1, 2], vec![0, 0], vec![3, 4]]);
    matrix.delete_empty_rows();
    let expected = Matrix::from(vec![vec![1, 2], vec![3, 4]]);
    assert_eq!(matrix, expected);
}

#[test]
fn delete_empty_columns() {
    let mut matrix = Matrix::from(vec![vec![0, 2], vec![0, 4]]);
    matrix.delete_empty_colums();
    let mut expected = Matrix::from(vec![vec![2], vec![4]]);
    expected.set_vars_map(names(&["X_1"])).unwrap();
    assert_eq!(matrix, expected);
}

#[test]
fn test_drop_linear_variable() {
    let mut matrix = Matrix::new(2, 2);
    matrix.set(0, 0, 1.into());
    matrix.set(0, 1, 1.into());
    matrix.set_vars_map(names(&["X_0[0,0]", "S(X_0[0,0])"])).unwrap();
    let _expected = ["X_0[0,0]".to_string(), "S(X_0[0,0])".to_string()];
    assert_eq!(matrix.get_all_variables(), names(&["X_0[0,0]", "S(X_0[0,0])"]));
}

#[test]
fn test_drop_linear_variable2() {
    let mut matrix = Matrix::new(4, 4);
    matrix.set(0, 0, 1.into());
    matrix.set(0, 1, 1.into());
    matrix.set(2, 2, 4.into());
    matrix.set(3, 3, 3.into());
    let solved = matrix.solve();
    assert_eq!(solved, Err(MatrixError::Singular { column: 1 }));
    let named = matrix.set_vars_map(names(&["X_0[0,0]", "S(X_0[0,0])"]));
    assert_eq!(named, Err(MatrixError::ShapeMismatch));
}

#[test]
fn test_reduce_row() {
    let rows: Vec<Vec<u8>> = vec![
        vec![1, 2, 8, 7],
        vec![6, 7, 2, 5],
        vec![9, 5, 1, 2],
        vec![6, 4, 8, 1],
    ];
    let mut matrix = Matrix::from(rows);
    matrix.set_vars_map(names(&["x", "y", "z", "k"])).unwrap();
    let pivots = matrix.scale_on(names(&["x", "y", "z"])).unwrap();
    assert_eq!(pivots, 3);
    for j in 0..3 {
        assert_eq!(matrix.get(j, j).get_value(), 1);
        for i in j + 1..4 {
            assert_eq!(matrix.get(i, j).get_value(), 0);
        }
    }
}

#[test]
fn test_get_col_of_max_rank() {
    let mut matrix = Matrix::new(3, 3);
    matrix.set(0, 0, 1.into());
    matrix.set(1, 1, 1.into());
    matrix.set(2, 2, 1.into());
    let test = matrix.get_col_of_max_rank(0);
    assert_eq!(test, Vec::<usize>::new());
    let test = matrix.get_col_of_max_rank(1);
    assert_eq!(test, vec![0, 1, 2]);
    let test = matrix.get_col_of_max_rank(2);
    assert_eq!(test, vec![0, 1, 2]);
    let test = matrix.get_col_of_max_rank(3);
    assert_eq!(test, vec![0, 1, 2]);
}

#[test]
fn test_get_var_of_max_rank() {
    let mut matrix = Matrix::new(3, 3);
    matrix.set(0, 0, 1.into());
    matrix.set(1, 1, 1.into());
    matrix.set(2, 2, 2.into());
    matrix.set_vars_map(names(&["W_0[0,0]", "S(X_0[1,1])", "X_0[1,1]"])).unwrap();

    let mut test = matrix.get_variable_of_max_rank(0);
    test.sort();
    let mut vec: Vec<String> = vec![];
    vec.sort();
    assert_eq!(test, vec);
    let mut test = matrix.get_variable_of_max_rank(1);
    test.sort();
    let mut vec: Vec<String> = names(&["W_0[0,0]", "S(X_0[1,1])"]);
    vec.sort();
    assert_eq!(test, vec);
    let mut test = matrix.get_variable_of_max_rank(2);
    test.sort();
    let mut vec: Vec<String> = names(&["W_0[0,0]", "S(X_0[1,1])", "X_0[1,1]"]);
    vec.sort();
    assert_eq!(test, vec);
    let mut test = matrix.get_variable_of_max_rank(3);
    test.sort();
    let mut vec: Vec<String> = names(&["W_0[0,0]", "S(X_0[1,1])", "X_0[1,1]"]);
    vec.sort();
    assert_eq!(test, vec);
}

#[test]
fn test_count_no_zero_rows() {
    let mut matrix = Matrix::new(3, 3);
    matrix.set(0, 0, 1.into());
    matrix.set(1, 1, 1.into());
    matrix.set(2, 2, 2.into());
    let z = matrix.count_no_zero_rows();
    assert_eq!(z, 3);
}

#[test]
fn matrix_test_number_solutions() {
    let mut matrix = Matrix::from(vec![vec![1, 0], vec![0, 1]]);
    matrix.set_vars_map(names(&["A", "B"])).unwrap();
    let nb_sol = matrix.number_solutions(&names(&["B"])).unwrap();
    assert_eq!(1, nb_sol);
}

#[test]
fn number_solutions_of_every_variable_is_zero() {
    let mut matrix = Matrix::from(vec![vec![1, 0], vec![0, 1]]);
    matrix.set_vars_map(names(&["A", "B"])).unwrap();
    assert_eq!(matrix.number_solutions(&names(&["A", "B"])).unwrap(), 0);
}

#[test]
fn test_solve_00() {
    let mut matrix = Matrix::from(vec![vec![1, 2], vec![3, 4]]);
    matrix.solve().unwrap();
    let expected = Matrix::from(vec![vec![1, 0], vec![0, 1]]);
    assert_eq!(matrix, expected);
}

#[test]
fn solve_reduces_a_full_rank_system_to_identity() {
    let mut matrix = Matrix::from(vec![vec![4, 4, 111], vec![4, 21, 250], vec![7, 8, 9]]);
    matrix.solve().unwrap();
    assert_eq!(matrix, Matrix::from(vec![vec![1, 0, 0], vec![0, 1, 0], vec![0, 0, 1]]));
}

#[test]
fn test_solve_on_01() {
    let mut matrix = Matrix::from(vec![vec![1, 2, 3, 4], vec![4, 3, 2, 1]]);
    matrix.set_vars_map(names(&["A", "B", "C", "D"])).unwrap();
    matrix.solve_on(names(&["A", "B"])).unwrap();
    assert_eq!(matrix.get_row(0), vec![1.into(), 0.into(), 192.into(), 236.into()]);
    assert_eq!(matrix.get_row(1), vec![0.into(), 1.into(), 236.into(), 116.into()]);
}

#[test]
fn test_solve_on_02() {
    let mut matrix = Matrix::from(vec![vec![1, 2, 3, 4], vec![4, 3, 2, 1]]);
    matrix.set_vars_map(names(&["A", "B", "C", "D"])).unwrap();
    matrix.solve_on(names(&["A"])).unwrap();
    assert_eq!(matrix.get_row(0), vec![1.into(), 70.into(), 141.into(), 203.into()]);
    assert_eq!(matrix.get_row(1), vec![0.into(), 68.into(), 142.into(), 207.into()]);
}

fn row_of_three(rows: usize) -> Matrix {
    let mut matrix = Matrix::new(rows, 3);
    for i in 0..rows {
        matrix.set(i, 0, 0.into());
        matrix.set(i, 1, 1.into());
        matrix.set(i, 2, 2.into());
    }
    matrix.set_vars_map(names(&["x", "y", "z"])).unwrap();
    matrix
}

fn col(matrix: &Matrix, name: &str) -> usize {
    matrix.column_of(&name.to_string()).unwrap()
}

#[test]
fn swap_columns_00() {
    let mut matrix = row_of_three(1);
    matrix.swap_columns(0, 2).unwrap();
    assert_eq!(col(&matrix, "x"), 2);
    assert_eq!(col(&matrix, "z"), 0);
    assert_eq!(matrix.get(0, 0), 2.into());
    assert_eq!(matrix.get(0, 2), 0.into());
    matrix.swap_columns(0, 1).unwrap();
    assert_eq!(col(&matrix, "y"), 0);
    assert_eq!(col(&matrix, "z"), 1);
    assert_eq!(matrix.get(0, 0), 1.into());
    assert_eq!(matrix.get(0, 1), 2.into());
}

#[test]
fn swap_columns_01() {
    let mut matrix = row_of_three(3);
    matrix.swap_columns(0, 2).unwrap();
    assert_eq!(col(&matrix, "x"), 2);
    assert_eq!(col(&matrix, "z"), 0);
    for i in 0..3 {
        assert_eq!(matrix.get(i, 0), 2.into());
        assert_eq!(matrix.get(i, 2), 0.into());
    }
    matrix.swap_columns(0, 1).unwrap();
    assert_eq!(col(&matrix, "y"), 0);
    assert_eq!(col(&matrix, "z"), 1);
    for i in 0..3 {
        assert_eq!(matrix.get(i, 0), 1.into());
        assert_eq!(matrix.get(i, 1), 2.into());
    }
}

#[test]
fn sort_left_00() {
    let mut matrix = row_of_three(1);
    matrix.sort_left(names(&["z", "y"]));
    assert_eq!(col(&matrix, "z"), 0);
    assert_eq!(col(&matrix, "y"), 1);
    assert_eq!(col(&matrix, "x"), 2);
    assert_eq!(matrix.get(0, 0), 2.into());
    assert_eq!(matrix.get(0, 1), 1.into());
    assert_eq!(matrix.get(0, 2), 0.into());
}

#[test]
fn sort_left_01() {
    let mut matrix = row_of_three(3);
    matrix.sort_left(names(&["y", "z"]));
    assert_eq!(col(&matrix, "y"), 0);
    assert_eq!(col(&matrix, "z"), 1);
    assert_eq!(col(&matrix, "x"), 2);
    for i in 0..3 {
        assert_eq!(matrix.get(i, 0), 1.into());
        assert_eq!(matrix.get(i, 1), 2.into());
        assert_eq!(matrix.get(i, 2), 0.into());
    }
}

#[test]
fn sort_right_00() {
    let mut matrix = row_of_three(1);
    matrix.sort_right(names(&["x", "y"]));
    assert_eq!(col(&matrix, "z"), 0);
    assert_eq!(col(&matrix, "y"), 1);
    assert_eq!(col(&matrix, "x"), 2);
    assert_eq!(matrix.get(0, 0), 2.into());
    assert_eq!(matrix.get(0, 1), 1.into());
    assert_eq!(matrix.get(0, 2), 0.into());
}

#[test]
fn sort_right_01() {
    let mut matrix = row_of_three(3);
    matrix.sort_right(names(&["x", "y"]));
    assert_eq!(col(&matrix, "z"), 0);
    assert_eq!(col(&matrix, "y"), 1);
    assert_eq!(col(&matrix, "x"), 2);
    for i in 0..3 {
        assert_eq!(matrix.get(i, 0), 2.into());
        assert_eq!(matrix.get(i, 1), 1.into());
        assert_eq!(matrix.get(i, 2), 0.into());
    }
}

#[test]
fn sort_left_keeps_other_columns_in_order() {
    let mut matrix = Matrix::from(vec![vec![0, 1, 2, 3]]);
    matrix.sort_left(names(&["X_3"]));
    assert_eq!(matrix.get_all_variables(), names(&["X_3", "X_0", "X_1", "X_2"]));
    assert_eq!(matrix.get_row(0), vec![Number::from(3), 0.into(), 1.into(), 2.into()]);
}

#[test]
fn set_vars_map_refuses_repeated_names() {
    let mut matrix = Matrix::new(1, 2);
    assert_eq!(matrix.set_vars_map(names(&["a", "a"])), Err(MatrixError::ShapeMismatch));
}

#[test]
fn test_get_variable_if_sboxed() {
    let s: Vec<String> = vec!["X".to_string(), "S(X)".to_string(), "Y".to_string()];
    let sboxed = aes_grinder::names::get_variable_if_sboxed(&s);
    let expect = vec![("X".to_string(), "S(X)".to_string())];
    assert_eq!(sboxed, expect);
}

#[test]
fn image_names_are_recognised() {
    assert!(aes_grinder::names::is_image_name(&"S(X_0[1,1])".to_string()));
    assert!(!aes_grinder::names::is_image_name(&"X_0[1,1]".to_string()));
    assert_eq!(aes_grinder::names::base_of(&"S(ab)".to_string()), "ab".to_string());
}

#[test]
fn test_delete_alone_variable() {
    let mut matrix = Matrix::new(3, 3);
    matrix.set(0, 0, 1.into());
    matrix.set(1, 1, 1.into());
    matrix.set(2, 2, 2.into());
    matrix.set_vars_map(names(&["W_0[0,0]", "S(X_0[1,1])", "X_0[1,1]"])).unwrap();
    matrix.delete_alone_variables().unwrap();
    let mut m = matrix.get_all_variables();
    let mut expect = names(&["S(X_0[1,1])", "X_0[1,1]"]);
    m.sort();
    expect.sort();
    assert_eq!(m, expect);
}

#[test]
fn remove_variable_without_a_unit_pivot_fails() {
    let mut empty = Matrix::new(0, 2);
    assert_eq!(empty.remove_variable("X_0".to_string()), Err(MatrixError::ConsistencyViolation));
    let mut matrix = Matrix::from(vec![vec![0, 1]]);
    matrix.set_vars_map(names(&["A", "B"])).unwrap();
    assert_eq!(matrix.remove_variable("A".to_string()), Err(MatrixError::Singular { column: 0 }));
    let mut fine = Matrix::from(vec![vec![1, 0], vec![1, 1]]);
    fine.set_vars_map(names(&["A", "B"])).unwrap();
    assert_eq!(fine.remove_variable("A".to_string()), Ok(()));
    assert_eq!(fine.get_row_number(), 1);
}

#[test]
fn drop_linear_variables_keeps_companion_pairs() {
    let mut matrix = Matrix::new(3, 3);
    matrix.set(0, 0, 1.into());
    matrix.set(1, 1, 1.into());
    matrix.set(2, 2, 2.into());
    matrix.set_vars_map(names(&["W_0[0,0]", "S(X_0[1,1])", "X_0[1,1]"])).unwrap();
    matrix.drop_linear_variables().unwrap();
    let vars = matrix.get_all_variables();
    assert!(!vars.contains(&"W_0[0,0]".to_string()));
}

#[test]
fn submatrix_takes_the_named_columns_in_order() {
    let mut matrix = Matrix::from(vec![vec![1, 2, 3], vec![4, 5, 6]]);
    matrix.set_vars_map(names(&["a", "b", "c"])).unwrap();
    let sub = matrix.get_matrix_generated_by(&names(&["c", "a"]));
    assert_eq!(sub.get_all_variables(), names(&["c", "a"]));
    assert_eq!(sub.get_row(0), vec![Number::from(3), 1.into()]);
    assert_eq!(sub.get_row(1), vec![Number::from(6), 4.into()]);
}

#[test]
fn unit_column_check() {
    let matrix = Matrix::from(vec![vec![1, 1], vec![0, 1], vec![2, 0]]);
    assert!(matrix.is_only_one_1_on_column(0));
    assert!(!matrix.is_only_one_1_on_column(1));
}

#[test]
fn new_from_vec_checks_values_and_shape() {
    let ok = Matrix::new_from_vec(vec![vec![1, 255], vec![0, 7]], names(&["a", "b"]), 0x11b).unwrap();
    assert_eq!(ok.get(0, 1).get_value(), 255);
    assert_eq!(
        Matrix::new_from_vec(vec![vec![1, 256]], names(&["a", "b"]), 0x11b).unwrap_err(),
        MatrixError::InvalidValue
    );
    assert_eq!(
        Matrix::new_from_vec(vec![vec![1, 32]], names(&["a", "b"]), 0x13).unwrap_err(),
        MatrixError::InvalidValue
    );
    assert_eq!(
        Matrix::new_from_vec(vec![vec![1, 2], vec![3]], names(&["a", "b"]), 0x11b).unwrap_err(),
        MatrixError::ShapeMismatch
    );
}

#[test]
fn scale_counts_pivots_and_rank() {
    let mut matrix = Matrix::from(vec![vec![1, 2], vec![2, 4], vec![0, 0]]);
    let n = matrix.rank().unwrap();
    assert_eq!(n, 1);
    assert_eq!(matrix.count_no_zero_rows(), 1);
}

// The counting rule counts the bottom rows that are zero on the columns of
// `vars`; on this system none is, so both variables stay free.
#[test]
fn test_number_solutions2() {
    let mut matrix = Matrix::from(vec![vec![1, 4, 1, 1], vec![0, 1, 1, 0], vec![0, 0, 0, 1]]);
    matrix.set_vars_map(names(&["A", "B", "C", "D"])).unwrap();
    let nb_sol = matrix.number_solutions(&names(&["C", "D"])).unwrap();
    assert_eq!(2, nb_sol);
}

#[test]
fn test_number_solutions3() {
    let mut matrix = Matrix::from(vec![
        vec![1, 4, 1, 1],
        vec![0, 1, 1, 0],
        vec![0, 0, 0, 1],
        vec![0, 7, 0, 1],
    ]);
    matrix.set_vars_map(names(&["A", "B", "C", "D"])).unwrap();
    let nb_sol = matrix.number_solutions(&names(&["C", "D"])).unwrap();
    assert_eq!(2, nb_sol);
}

// Eliminating twice on the same variables changes nothing the second time;
// the values are those of a true inverse in the AES field.
#[test]
fn test_solve_on_00() {
    let mut matrix = Matrix::from(vec![vec![4, 4, 111], vec![4, 21, 250], vec![7, 8, 9]]);
    matrix.set_vars_map(names(&["A", "B", "C"])).unwrap();
    let mut expected = Matrix::from(vec![vec![1, 0, 130], vec![0, 1, 222], vec![0, 0, 4]]);
    expected.set_vars_map(names(&["A", "B", "C"])).unwrap();
    matrix.solve_on(names(&["A", "B"])).unwrap();
    matrix.solve_on(names(&["A", "B"])).unwrap();
    assert_eq!(matrix, expected);
}

#[test]
fn sort_columns_orders_names() {
    let mut matrix = Matrix::from(vec![vec![1, 2, 3]]);
    matrix.set_vars_map(names(&["c", "a", "b"])).unwrap();
    matrix.sort_columns();
    assert_eq!(matrix.get_all_variables(), names(&["a", "b", "c"]));
    assert_eq!(matrix.get_row(0), vec![Number::from(2), 3.into(), 1.into()]);
}

#[test]
fn elimination_keeps_the_row_space_of_a_full_rank_system() {
    let mut matrix = Matrix::from(vec![vec![4, 4, 111], vec![4, 21, 250], vec![7, 8, 9]]);
    matrix.set_vars_map(names(&["A", "B", "C"])).unwrap();
    matrix.solve().unwrap();
    let mut expected = Matrix::from(vec![vec![1, 0, 0], vec![0, 1, 0], vec![0, 0, 1]]);
    expected.set_vars_map(names(&["A", "B", "C"])).unwrap();
    assert_eq!(matrix, expected);
}
