use exprkit::matrix::Matrix;

#[test]
fn test() {
    let x = Matrix::new(2,3, &[-2, -1, 0, 1,2,3]);
    let y = Matrix::new(2,3, &[0,0,0,0,0,0]);
    let z = Matrix::new(2,3, &[-2, -1, 0, 1,2,3]);
    assert_eq!(x + y, z);
    assert_eq!(z.to_text(), "-2 -1 0\n1 2 3\n");
}
