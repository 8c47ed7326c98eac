use exprkit::complex::Complex;

#[test]
fn complex_sum() {
    let x = Complex { re: 1, im: 2 } + Complex { re: 10, im: -20 };
    assert_eq!(x, Complex { re: 11, im: -18 });
}

#[test]
fn complex_difference() {
    let x = Complex { re: 1, im: 2 } - Complex { re: 10, im: -20 };
    assert_eq!(x, Complex { re: -9, im: 22 });
}

#[test]
fn complex_product() {
    // (1 + 2j)(3 + 4j) = (3 - 8) + (4 + 6)j
    let x = Complex { re: 1, im: 2 } * Complex { re: 3, im: 4 };
    assert_eq!(x, Complex { re: -5, im: 10 });
    // j * j = -1
    let y = Complex { re: 0, im: 1 } * Complex { re: 0, im: 1 };
    assert_eq!(y, Complex { re: -1, im: 0 });
}

#[test]
fn complex_difference_of_floats() {
    let x = Complex { re: 1.5, im: 2.0 } - Complex { re: 0.5, im: 4.0 };
    assert_eq!(x, Complex { re: 1.0, im: -2.0 });
}

#[test]
fn complex_text() {
    assert_eq!(Complex { re: 0, im: 0 }.to_text(), "0+0j");
    assert_eq!(Complex { re: -3, im: -4 }.to_text(), "-3-4j");
    assert_eq!(Complex { re: 12, im: 345 }.to_text(), "12+345j");
    assert_eq!(Complex { re: 1.5, im: -2.25 }.to_text(), "1.5-2.25j");
}

#[test]
fn complex_text_is_not_the_real_part_alone() {
    let text = Complex { re: 7, im: 8 }.to_text();
    assert_ne!(text, "7");
    assert!(text.starts_with("7"));
    assert!(text.ends_with("j"));
    assert_eq!(text, "7+8j");
}
