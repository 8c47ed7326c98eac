use exprkit::postfix::{eval, Operator, Token};

#[test]
fn it_works() {

    let optr1 = Token::Operator(Operator::Add);
    let optr2 = Token::Operator(Operator::Mul);
    let v1 = Token::Operand(-1);
    let v2 = Token::Operand(2);
    let v3 = Token::Operand(3);
    // tokens 
    let tokens:[Token;5] = [v1, v2, v3, optr1, optr2 ]; 

    // calling eval to eval the 
    assert_eq!(Some(-5),eval(&tokens));
}
