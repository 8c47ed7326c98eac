use exprkit::postfix::{eval, Operator, Token};

fn num(x: isize) -> Token {
    Token::Operand(x)
}

fn op(o: Operator) -> Token {
    Token::Operator(o)
}

#[test]
fn eval_empty_has_no_value() {
    let tokens: [Token; 0] = [];
    assert_eq!(eval(&tokens), None);
}

#[test]
fn eval_single_operand() {
    assert_eq!(eval(&[num(7)]), Some(7));
    assert_eq!(eval(&[num(-7)]), Some(-7));
}

#[test]
fn eval_each_operator() {
    assert_eq!(eval(&[num(7), num(3), op(Operator::Add)]), Some(10));
    assert_eq!(eval(&[num(7), num(3), op(Operator::Sub)]), Some(4));
    assert_eq!(eval(&[num(3), num(7), op(Operator::Sub)]), Some(-4));
    assert_eq!(eval(&[num(7), num(3), op(Operator::Mul)]), Some(21));
}

#[test]
fn eval_nested_expression() {
    // ( 5 + 3 ) - 6 * 2
    let tokens = [
        num(5),
        num(3),
        op(Operator::Add),
        num(6),
        num(2),
        op(Operator::Mul),
        op(Operator::Sub),
    ];
    assert_eq!(eval(&tokens), Some(-4));
}

#[test]
fn eval_operator_without_operands() {
    assert_eq!(eval(&[op(Operator::Add)]), None);
    assert_eq!(eval(&[num(1), op(Operator::Add)]), None);
    assert_eq!(eval(&[num(1), op(Operator::Mul), num(2)]), None);
    // the operator that comes too early spoils what follows
    assert_eq!(eval(&[num(1), op(Operator::Sub), num(2), num(3), op(Operator::Add)]), None);
}

#[test]
fn eval_operands_left_over() {
    assert_eq!(eval(&[num(1), num(2)]), None);
    assert_eq!(eval(&[num(1), num(2), num(3), op(Operator::Add)]), None);
}

#[test]
fn eval_result_out_of_range_is_no_value() {
    assert_eq!(eval(&[num(isize::MAX), num(1), op(Operator::Add)]), None);
    assert_eq!(eval(&[num(isize::MIN), num(1), op(Operator::Sub)]), None);
    assert_eq!(eval(&[num(isize::MAX), num(2), op(Operator::Mul)]), None);
    // an intermediate result out of range, though the end would fit
    let tokens = [num(isize::MAX), num(1), op(Operator::Add), num(1), op(Operator::Sub)];
    assert_eq!(eval(&tokens), None);
}

#[test]
fn eval_results_at_the_edge_of_the_range() {
    assert_eq!(eval(&[num(isize::MAX - 1), num(1), op(Operator::Add)]), Some(isize::MAX));
    assert_eq!(eval(&[num(isize::MIN + 1), num(1), op(Operator::Sub)]), Some(isize::MIN));
    assert_eq!(eval(&[num(isize::MIN), num(1), op(Operator::Mul)]), Some(isize::MIN));
}
