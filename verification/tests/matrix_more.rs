use exprkit::matrix::{arrange, Matrix};

#[test]
fn matrix_new_keeps_values_and_size() {
    let m = Matrix::new(2, 3, &[1, 2, 3, 4, 5, 6]);
    assert_eq!(m.size(), (2, 3));
    assert_eq!(m.data(), &vec![1, 2, 3, 4, 5, 6]);
}

#[test]
fn matrix_new_takes_values_as_they_come() {
    // the values need not fill the matrix
    let m = Matrix::new(2, 2, &[1, 2, 3]);
    assert_eq!(m.size(), (2, 2));
    assert_eq!(m.data(), &vec![1, 2, 3]);
}

#[test]
fn matrix_new_empty_holds_nothing() {
    let m: Matrix<i32> = Matrix::new_empty(4, 5);
    assert_eq!(m.size(), (4, 5));
    assert!(m.data().is_empty());
}

#[test]
fn matrix_mut_data_changes_the_elements() {
    let mut m: Matrix<i32> = Matrix::new_empty(1, 2);
    m.mut_data().push(7);
    m.mut_data().push(8);
    assert_eq!(m.data(), &vec![7, 8]);
    m.mut_data()[0] = 9;
    assert_eq!(m, Matrix::new(1, 2, &[9, 8]));
    assert_eq!(m.size(), (1, 2));
}

#[test]
fn matrix_sum() {
    let x = Matrix::new(2, 2, &[1, 2, 3, 4]);
    let y = Matrix::new(2, 2, &[10, 20, 30, 40]);
    assert_eq!(x + y, Matrix::new(2, 2, &[11, 22, 33, 44]));
}

#[test]
fn matrix_sum_uses_the_cells_only() {
    // elements beyond the last cell do not count
    let x = Matrix::new(1, 2, &[1, 2, 3]);
    let y = Matrix::new(1, 2, &[10, 20, 30, 40]);
    assert_eq!(x + y, Matrix::new(1, 2, &[11, 22]));
}

#[test]
fn matrix_difference() {
    let x = Matrix::new(2, 2, &[1, 2, 3, 4]);
    let y = Matrix::new(2, 2, &[10, 20, 30, 40]);
    assert_eq!(x - y, Matrix::new(2, 2, &[-9, -18, -27, -36]));
}

#[test]
fn matrix_product_of_squares() {
    let x = Matrix::new(2, 2, &[1, 2, 3, 4]);
    let y = Matrix::new(2, 2, &[5, 6, 7, 8]);
    assert_eq!(x * y, Matrix::new(2, 2, &[19, 22, 43, 50]));
}

#[test]
fn matrix_product_is_not_commutative() {
    let x = Matrix::new(2, 2, &[1, 2, 3, 4]);
    let y = Matrix::new(2, 2, &[5, 6, 7, 8]);
    assert_eq!(y * x, Matrix::new(2, 2, &[23, 34, 31, 46]));
}

#[test]
fn matrix_product_of_rectangles() {
    // 2 x 3 times 3 x 2
    let x = Matrix::new(2, 3, &[1, 2, 3, 4, 5, 6]);
    let y = Matrix::new(3, 2, &[7, 8, 9, 10, 11, 12]);
    assert_eq!(x * y, Matrix::new(2, 2, &[58, 64, 139, 154]));
    // 1 x 2 times 2 x 3
    let x = Matrix::new(1, 2, &[1, 2]);
    let y = Matrix::new(2, 3, &[1, 2, 3, 4, 5, 6]);
    assert_eq!(x * y, Matrix::new(1, 3, &[9, 12, 15]));
    // 3 x 1 times 1 x 1
    let x = Matrix::new(3, 1, &[1, 2, 3]);
    let y = Matrix::new(1, 1, &[5]);
    assert_eq!(x * y, Matrix::new(3, 1, &[5, 10, 15]));
}

#[test]
fn matrix_product_with_identity() {
    let x = Matrix::new(2, 2, &[1, 2, 3, 4]);
    let one = Matrix::new(2, 2, &[1, 0, 0, 1]);
    assert_eq!(x * one, Matrix::new(2, 2, &[1, 2, 3, 4]));
}

#[test]
fn matrix_product_without_inner_dimension() {
    // 2 x 0 times 0 x 2: every cell is the default value
    let x: Matrix<i32> = Matrix::new(2, 0, &[]);
    let y: Matrix<i32> = Matrix::new(0, 2, &[]);
    assert_eq!(x * y, Matrix::new(2, 2, &[0, 0, 0, 0]));
}

#[test]
fn matrix_text() {
    assert_eq!(Matrix::new(1, 1, &[5]).to_text(), "5\n");
    assert_eq!(Matrix::new(1, 3, &[1, 2, 3]).to_text(), "1 2 3\n");
    assert_eq!(Matrix::new(3, 1, &[1, 2, 3]).to_text(), "1\n2\n3\n");
    assert_eq!(Matrix::new(2, 2, &[-1, 20, 300, -4000]).to_text(), "-1 20\n300 -4000\n");
}

#[test]
fn matrix_text_without_cells() {
    let none: Matrix<i32> = Matrix::new(0, 0, &[]);
    assert_eq!(none.to_text(), "");
    let no_rows: Matrix<i32> = Matrix::new(0, 3, &[]);
    assert_eq!(no_rows.to_text(), "");
    let no_columns: Matrix<i32> = Matrix::new(3, 0, &[]);
    assert_eq!(no_columns.to_text(), "\n");
}

#[test]
fn arrange_lays_out_texts() {
    let texts = vec!["a".to_string(), "bb".to_string(), "".to_string(), "d".to_string()];
    assert_eq!(arrange(&texts, 2, 2), "a bb\n d\n");
    assert_eq!(arrange(&texts, 1, 4), "a bb  d\n");
    assert_eq!(arrange(&texts, 4, 1), "a\nbb\n\nd\n");
    assert_eq!(arrange(&texts, 1, 2), "a bb\n");
    assert_eq!(arrange(&texts, 0, 2), "");
    assert_eq!(arrange(&texts, 2, 0), "\n");
}
