use ray_core::matrix::{Matrix, MatrixError};

fn parse_f64(t: &str) -> Option<f64> {
    t.parse::<f64>().ok()
}

fn sample() -> Matrix<f64> {
    Matrix::from_vec(vec![
        vec![1.0, 2.0, 3.0, 4.0],
        vec![5.0, 6.0, 7.0, 8.0],
        vec![9.0, 8.0, 7.0, 6.0],
        vec![5.0, 4.0, 3.0, 2.0],
    ])
    .unwrap()
}

#[test]
fn matrix_test_new() {
    let m = Matrix::new(4, 4, 0.0f64);
    assert_eq!(m.rows(), 4);
    assert_eq!(m.columns(), 4);
}

#[test]
fn test_create_2x2_matrix_from_string() {
    let m = Matrix::from_string("1 2\n3 4", parse_f64).unwrap();
    assert_eq!(m.rows(), 2);
    assert_eq!(m.columns(), 2);
    assert_eq!(m.get(0, 0), Ok(1.0));
    assert_eq!(m.get(0, 1), Ok(2.0));
    assert_eq!(m.get(1, 0), Ok(3.0));
    assert_eq!(m.get(1, 1), Ok(4.0));
}

#[test]
fn test_create_3x3_matrix_from_string() {
    let m = Matrix::from_string("1 2 3\n4 5 6\n7 8 9", parse_f64).unwrap();
    assert_eq!(m.rows(), 3);
    assert_eq!(m.columns(), 3);
    assert_eq!(m.get(0, 0), Ok(1.0));
    assert_eq!(m.get(0, 1), Ok(2.0));
    assert_eq!(m.get(0, 2), Ok(3.0));
    assert_eq!(m.get(1, 0), Ok(4.0));
    assert_eq!(m.get(1, 1), Ok(5.0));
    assert_eq!(m.get(1, 2), Ok(6.0));
    assert_eq!(m.get(2, 0), Ok(7.0));
    assert_eq!(m.get(2, 1), Ok(8.0));
    assert_eq!(m.get(2, 2), Ok(9.0));
}

#[test]
fn test_create_4x4_matrix_from_string() {
    let m = Matrix::from_string("1 2 3 4\n5 6 7 8\n9 8 7 6\n5 4 3 2", parse_f64).unwrap();
    assert_eq!(m.rows(), 4);
    assert_eq!(m.columns(), 4);
    assert_eq!(m.get(0, 0), Ok(1.0));
    assert_eq!(m.get(0, 1), Ok(2.0));
    assert_eq!(m.get(0, 2), Ok(3.0));
    assert_eq!(m.get(0, 3), Ok(4.0));
    assert_eq!(m.get(1, 0), Ok(5.0));
    assert_eq!(m.get(1, 1), Ok(6.0));
    assert_eq!(m.get(1, 2), Ok(7.0));
    assert_eq!(m.get(1, 3), Ok(8.0));
    assert_eq!(m.get(2, 0), Ok(9.0));
    assert_eq!(m.get(2, 1), Ok(8.0));
    assert_eq!(m.get(2, 2), Ok(7.0));
    assert_eq!(m.get(2, 3), Ok(6.0));
    assert_eq!(m.get(3, 0), Ok(5.0));
    assert_eq!(m.get(3, 1), Ok(4.0));
    assert_eq!(m.get(3, 2), Ok(3.0));
    assert_eq!(m.get(3, 3), Ok(2.0));
}

#[test]
fn test_create_2x2_matrix_from_vec() {
    let m = Matrix::from_vec(vec![vec![1.0, 2.0], vec![3.0, 4.0]]).unwrap();
    assert_eq!(m.rows(), 2);
    assert_eq!(m.columns(), 2);
    assert_eq!(m.get(0, 0), Ok(1.0));
    assert_eq!(m.get(0, 1), Ok(2.0));
    assert_eq!(m.get(1, 0), Ok(3.0));
    assert_eq!(m.get(1, 1), Ok(4.0));
}

#[test]
fn test_create_3x3_matrix_from_vec() {
    let m = Matrix::from_vec(vec![
        vec![1.0, 2.0, 3.0],
        vec![4.0, 5.0, 6.0],
        vec![7.0, 8.0, 9.0],
    ])
    .unwrap();
    assert_eq!(m.rows(), 3);
    assert_eq!(m.columns(), 3);
    assert_eq!(m.get(0, 0), Ok(1.0));
    assert_eq!(m.get(0, 1), Ok(2.0));
    assert_eq!(m.get(0, 2), Ok(3.0));
    assert_eq!(m.get(1, 0), Ok(4.0));
    assert_eq!(m.get(1, 1), Ok(5.0));
    assert_eq!(m.get(1, 2), Ok(6.0));
    assert_eq!(m.get(2, 0), Ok(7.0));
    assert_eq!(m.get(2, 1), Ok(8.0));
    assert_eq!(m.get(2, 2), Ok(9.0));
}

#[test]
fn test_create_4x4_matrix_from_vec() {
    let m = sample();
    assert_eq!(m.rows(), 4);
    assert_eq!(m.columns(), 4);
    assert_eq!(m.get(0, 0), Ok(1.0));
    assert_eq!(m.get(0, 1), Ok(2.0));
    assert_eq!(m.get(0, 2), Ok(3.0));
    assert_eq!(m.get(0, 3), Ok(4.0));
    assert_eq!(m.get(1, 0), Ok(5.0));
    assert_eq!(m.get(1, 1), Ok(6.0));
    assert_eq!(m.get(1, 2), Ok(7.0));
    assert_eq!(m.get(1, 3), Ok(8.0));
    assert_eq!(m.get(2, 0), Ok(9.0));
    assert_eq!(m.get(2, 1), Ok(8.0));
    assert_eq!(m.get(2, 2), Ok(7.0));
    assert_eq!(m.get(2, 3), Ok(6.0));
    assert_eq!(m.get(3, 0), Ok(5.0));
    assert_eq!(m.get(3, 1), Ok(4.0));
    assert_eq!(m.get(3, 2), Ok(3.0));
    assert_eq!(m.get(3, 3), Ok(2.0));
}

#[test]
fn test_get_element_from_matrix() {
    let m = sample();
    assert_eq!(m.get(0, 0), Ok(1.0));
    assert_eq!(m.get(0, 1), Ok(2.0));
    assert_eq!(m.get(0, 2), Ok(3.0));
    assert_eq!(m.get(0, 3), Ok(4.0));
    assert_eq!(m.get(1, 0), Ok(5.0));
    assert_eq!(m.get(1, 1), Ok(6.0));
    assert_eq!(m.get(1, 2), Ok(7.0));
    assert_eq!(m.get(1, 3), Ok(8.0));
    assert_eq!(m.get(2, 0), Ok(9.0));
    assert_eq!(m.get(2, 1), Ok(8.0));
    assert_eq!(m.get(2, 2), Ok(7.0));
    assert_eq!(m.get(2, 3), Ok(6.0));
    assert_eq!(m.get(3, 0), Ok(5.0));
    assert_eq!(m.get(3, 1), Ok(4.0));
    assert_eq!(m.get(3, 2), Ok(3.0));
    assert_eq!(m.get(3, 3), Ok(2.0));
}

#[test]
fn test_get_rows_from_matrix() {
    let m = sample();
    assert_eq!(
        m.get_rows(),
        [
            [1.0, 2.0, 3.0, 4.0],
            [5.0, 6.0, 7.0, 8.0],
            [9.0, 8.0, 7.0, 6.0],
            [5.0, 4.0, 3.0, 2.0],
        ]
    );
}

#[test]
fn test_get_columns_from_matrix() {
    let m = sample();
    assert_eq!(
        m.get_columns(),
        [
            [1.0, 5.0, 9.0, 5.0],
            [2.0, 6.0, 8.0, 4.0],
            [3.0, 7.0, 7.0, 3.0],
            [4.0, 8.0, 6.0, 2.0],
        ]
    );
}

#[test]
fn test_get_a_row_from_matrix() {
    let m = sample();
    assert_eq!(m.get_row(0).unwrap(), [1.0, 2.0, 3.0, 4.0]);
    assert_eq!(m.get_row(1).unwrap(), [5.0, 6.0, 7.0, 8.0]);
    assert_eq!(m.get_row(2).unwrap(), [9.0, 8.0, 7.0, 6.0]);
    assert_eq!(m.get_row(3).unwrap(), [5.0, 4.0, 3.0, 2.0]);
}

#[test]
fn test_get_a_column_from_matrix() {
    let m = sample();
    assert_eq!(m.get_column(0).unwrap(), [1.0, 5.0, 9.0, 5.0]);
    assert_eq!(m.get_column(1).unwrap(), [2.0, 6.0, 8.0, 4.0]);
    assert_eq!(m.get_column(2).unwrap(), [3.0, 7.0, 7.0, 3.0]);
    assert_eq!(m.get_column(3).unwrap(), [4.0, 8.0, 6.0, 2.0]);
}

#[test]
fn test_get_diagonal_from_matrix() {
    let m = sample();
    assert_eq!(m.get_diagonal(), [1.0, 6.0, 7.0, 2.0]);
}

#[test]
fn test_matrix_equality() {
    let m1 = sample();
    let m2 = sample();
    let m3 = Matrix::from_vec(vec![
        vec![1.0, 2.0, 3.0, 4.0],
        vec![5.0, 6.0, 7.0, 8.0],
        vec![9.0, 8.0, 7.0, 6.0],
        vec![5.0, 4.0, 3.0, 1.0],
    ])
    .unwrap();
    assert_eq!(m1, m2);
    assert_ne!(m1, m3);
}

#[test]
fn new_fills_every_cell() {
    let m = Matrix::new(2, 3, 7i32);
    assert_eq!(m.get_rows(), vec![vec![7, 7, 7], vec![7, 7, 7]]);
    assert_eq!(m.get(1, 2), Ok(7));
}

#[test]
fn get_out_of_range() {
    let m = sample();
    assert_eq!(m.get(4, 0), Err(MatrixError::IndexOutOfRange));
    assert_eq!(m.get(0, 4), Err(MatrixError::IndexOutOfRange));
    assert_eq!(m.get_row(4), Err(MatrixError::IndexOutOfRange));
    assert_eq!(m.get_column(4), Err(MatrixError::IndexOutOfRange));
}

#[test]
fn out_of_range_column_does_not_wrap() {
    let m = Matrix::from_vec(vec![vec![1, 2], vec![3, 4]]).unwrap();
    assert_eq!(m.get(0, 2), Err(MatrixError::IndexOutOfRange));
}

#[test]
fn from_vec_rejects_ragged_rows() {
    let shorter = Matrix::from_vec(vec![vec![1, 2, 3], vec![4, 5]]);
    assert_eq!(shorter.err(), Some(MatrixError::InconsistentRowLength));
    let longer = Matrix::from_vec(vec![vec![1, 2], vec![3, 4, 5]]);
    assert_eq!(longer.err(), Some(MatrixError::InconsistentRowLength));
}

#[test]
fn from_vec_empty_is_zero_by_zero() {
    let m = Matrix::<i32>::from_vec(vec![]).unwrap();
    assert_eq!(m.rows(), 0);
    assert_eq!(m.columns(), 0);
    assert_eq!(m.get_diagonal(), Vec::<i32>::new());
}

#[test]
fn from_string_rejects_empty_text() {
    assert_eq!(Matrix::from_string("", parse_f64).err(), Some(MatrixError::ParseError));
    assert_eq!(Matrix::from_string(" \n\t\n", parse_f64).err(), Some(MatrixError::ParseError));
}

#[test]
fn from_string_rejects_bad_token() {
    let r = Matrix::from_string("1 2\n3 x", parse_f64);
    assert_eq!(r.err(), Some(MatrixError::ParseError));
}

#[test]
fn from_string_rejects_ragged_rows() {
    let r = Matrix::from_string("1 2 3\n4 5", parse_f64);
    assert_eq!(r.err(), Some(MatrixError::InconsistentRowLength));
    let blank_line = Matrix::from_string("1 2\n\n3 4", parse_f64);
    assert_eq!(blank_line.err(), Some(MatrixError::InconsistentRowLength));
}

#[test]
fn from_string_shape_is_checked_before_values() {
    let r = Matrix::from_string("1 x 3\n4 5", parse_f64);
    assert_eq!(r.err(), Some(MatrixError::InconsistentRowLength));
}

#[test]
fn from_string_accepts_trailing_newline_and_extra_spaces() {
    let m = Matrix::from_string("  1.5   -2\t\r\n3e1 4  \n", parse_f64).unwrap();
    assert_eq!(m.rows(), 2);
    assert_eq!(m.columns(), 2);
    assert_eq!(m.get_rows(), vec![vec![1.5, -2.0], vec![30.0, 4.0]]);
}

#[test]
fn from_string_accepts_non_ascii_white_space() {
    let m = Matrix::from_string("1\u{3000}2\n3\u{a0}4", parse_f64).unwrap();
    assert_eq!(m.get_rows(), vec![vec![1.0, 2.0], vec![3.0, 4.0]]);
}

#[test]
fn text_round_trip_through_accessors() {
    let text = "1 2 3\n4 5 6";
    let m = Matrix::from_string(text, parse_f64).unwrap();
    assert_eq!(m.get_row(1).unwrap(), vec![4.0, 5.0, 6.0]);
    assert_eq!(m.get_column(2).unwrap(), vec![3.0, 6.0]);
    assert_eq!(m.get(0, 1), Ok(2.0));
    assert_eq!(m.get_columns(), vec![vec![1.0, 4.0], vec![2.0, 5.0], vec![3.0, 6.0]]);
}

#[test]
fn diagonal_of_rectangular_matrix() {
    let wide = Matrix::from_vec(vec![vec![1, 2, 3], vec![4, 5, 6]]).unwrap();
    assert_eq!(wide.get_diagonal(), vec![1, 5]);
    let tall = Matrix::from_vec(vec![vec![1, 2], vec![3, 4], vec![5, 6]]).unwrap();
    assert_eq!(tall.get_diagonal(), vec![1, 4]);
}

#[test]
fn from_matrix_copies() {
    let m = sample();
    let c = Matrix::from_matrix(&m);
    assert_eq!(c, m);
    assert_eq!(c.get(3, 3), Ok(2.0));
}

#[test]
fn equality_needs_equal_dimensions() {
    let a = Matrix::new(2, 3, 0i32);
    let b = Matrix::new(3, 2, 0i32);
    let c = Matrix::new(2, 3, 0i32);
    assert_ne!(a, b);
    assert_eq!(a, c);
}
