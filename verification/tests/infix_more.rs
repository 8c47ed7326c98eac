use exprkit::infix::{infix_to_postfix, InfixToken, Operator, PostfixToken};

fn num(x: isize) -> InfixToken {
    InfixToken::Operand(x)
}

fn op(o: Operator) -> InfixToken {
    InfixToken::Operator(o)
}

fn out_num(x: isize) -> PostfixToken {
    PostfixToken::Operand(x)
}

fn out_op(o: Operator) -> PostfixToken {
    PostfixToken::Operator(o)
}

fn operands_in(tokens: &[InfixToken]) -> Vec<isize> {
    let mut found = Vec::new();
    for t in tokens {
        if let InfixToken::Operand(x) = t {
            found.push(*x);
        }
    }
    found
}

fn operands_out(tokens: &[PostfixToken]) -> Vec<isize> {
    let mut found = Vec::new();
    for t in tokens {
        if let PostfixToken::Operand(x) = t {
            found.push(*x);
        }
    }
    found
}

fn count_in(tokens: &[InfixToken], which: Operator) -> usize {
    tokens.iter().filter(|t| **t == InfixToken::Operator(which)).count()
}

fn count_out(tokens: &[PostfixToken], which: Operator) -> usize {
    tokens.iter().filter(|t| **t == PostfixToken::Operator(which)).count()
}

#[test]
fn precedence_of_each_token() {
    assert_eq!(op(Operator::Add).precedence(), 1);
    assert_eq!(op(Operator::Sub).precedence(), 1);
    assert_eq!(op(Operator::Mul).precedence(), 2);
    assert_eq!(op(Operator::Div).precedence(), 2);
    assert_eq!(num(7).precedence(), 0);
    assert_eq!(InfixToken::LeftParen.precedence(), 0);
    assert_eq!(InfixToken::RightParen.precedence(), 0);
}

#[test]
fn operands_and_operators_are_kept() {
    // 8 / ( 2 - 9 ) * 4 + 8 - 7 * ( 1 + 3 )
    let tokens = [
        num(8),
        op(Operator::Div),
        InfixToken::LeftParen,
        num(2),
        op(Operator::Sub),
        num(9),
        InfixToken::RightParen,
        op(Operator::Mul),
        num(4),
        op(Operator::Add),
        num(8),
        op(Operator::Sub),
        num(7),
        op(Operator::Mul),
        InfixToken::LeftParen,
        num(1),
        op(Operator::Add),
        num(3),
        InfixToken::RightParen,
    ];
    let out = infix_to_postfix(&tokens).unwrap();
    assert_eq!(operands_out(&out), operands_in(&tokens));
    assert_eq!(operands_out(&out), vec![8, 2, 9, 4, 8, 7, 1, 3]);
    for which in [Operator::Add, Operator::Sub, Operator::Mul, Operator::Div] {
        assert_eq!(count_out(&out, which), count_in(&tokens, which));
    }
    assert_eq!(out.len(), 15);
    assert_eq!(
        out,
        vec![
            out_num(8),
            out_num(2),
            out_num(9),
            out_op(Operator::Sub),
            out_op(Operator::Div),
            out_num(4),
            out_op(Operator::Mul),
            out_num(8),
            out_op(Operator::Add),
            out_num(7),
            out_num(1),
            out_num(3),
            out_op(Operator::Add),
            out_op(Operator::Mul),
            out_op(Operator::Sub),
        ]
    );
}

#[test]
fn empty_input_is_invalid() {
    let tokens: [InfixToken; 0] = [];
    assert_eq!(infix_to_postfix(&tokens), None);
}

#[test]
fn single_operand_is_its_own_postfix() {
    assert_eq!(infix_to_postfix(&[num(42)]), Some(vec![out_num(42)]));
    assert_eq!(infix_to_postfix(&[num(-1)]), Some(vec![out_num(-1)]));
    assert_eq!(infix_to_postfix(&[num(isize::MIN)]), Some(vec![out_num(isize::MIN)]));
}

#[test]
fn single_non_operand_is_invalid() {
    assert_eq!(infix_to_postfix(&[op(Operator::Add)]), None);
    assert_eq!(infix_to_postfix(&[InfixToken::LeftParen]), None);
    assert_eq!(infix_to_postfix(&[InfixToken::RightParen]), None);
}

#[test]
fn bad_first_token_is_invalid() {
    for first in [
        op(Operator::Add),
        op(Operator::Sub),
        op(Operator::Mul),
        op(Operator::Div),
        InfixToken::RightParen,
    ] {
        assert_eq!(infix_to_postfix(&[first, num(3)]), None);
        assert_eq!(infix_to_postfix(&[first, num(3), op(Operator::Add), num(4)]), None);
    }
}

#[test]
fn bad_last_token_is_invalid() {
    for last in [
        op(Operator::Add),
        op(Operator::Sub),
        op(Operator::Mul),
        op(Operator::Div),
        InfixToken::LeftParen,
    ] {
        assert_eq!(infix_to_postfix(&[num(3), last]), None);
        assert_eq!(infix_to_postfix(&[num(3), op(Operator::Add), num(4), last]), None);
    }
}

#[test]
fn fully_parenthesized_expression() {
    // ( 5 + 3 ) - 6
    let tokens = [
        InfixToken::LeftParen,
        num(5),
        op(Operator::Add),
        num(3),
        InfixToken::RightParen,
        op(Operator::Sub),
        num(6),
    ];
    assert_eq!(
        infix_to_postfix(&tokens),
        Some(vec![out_num(5), out_num(3), out_op(Operator::Add), out_num(6), out_op(Operator::Sub)])
    );
}

#[test]
fn precedence_without_parentheses() {
    // 3 * 4 + 6 + 4 * 2
    let tokens = [
        num(3),
        op(Operator::Mul),
        num(4),
        op(Operator::Add),
        num(6),
        op(Operator::Add),
        num(4),
        op(Operator::Mul),
        num(2),
    ];
    assert_eq!(
        infix_to_postfix(&tokens),
        Some(vec![
            out_num(3),
            out_num(4),
            out_op(Operator::Mul),
            out_num(6),
            out_op(Operator::Add),
            out_num(4),
            out_num(2),
            out_op(Operator::Mul),
            out_op(Operator::Add),
        ])
    );
}

#[test]
fn equal_precedence_groups_from_the_left() {
    // 3 - 4 + 6 - 4 + 6 * 10
    let tokens = [
        num(3),
        op(Operator::Sub),
        num(4),
        op(Operator::Add),
        num(6),
        op(Operator::Sub),
        num(4),
        op(Operator::Add),
        num(6),
        op(Operator::Mul),
        num(10),
    ];
    assert_eq!(
        infix_to_postfix(&tokens),
        Some(vec![
            out_num(3),
            out_num(4),
            out_op(Operator::Sub),
            out_num(6),
            out_op(Operator::Add),
            out_num(4),
            out_op(Operator::Sub),
            out_num(6),
            out_num(10),
            out_op(Operator::Mul),
            out_op(Operator::Add),
        ])
    );
}

#[test]
fn division_and_multiplication_group_from_the_left() {
    // 8 / 4 * 2
    let tokens = [num(8), op(Operator::Div), num(4), op(Operator::Mul), num(2)];
    assert_eq!(
        infix_to_postfix(&tokens),
        Some(vec![out_num(8), out_num(4), out_op(Operator::Div), out_num(2), out_op(Operator::Mul)])
    );
}

#[test]
fn lower_precedence_waits_on_the_stack() {
    // 1 + 2 * 3
    let tokens = [num(1), op(Operator::Add), num(2), op(Operator::Mul), num(3)];
    assert_eq!(
        infix_to_postfix(&tokens),
        Some(vec![out_num(1), out_num(2), out_num(3), out_op(Operator::Mul), out_op(Operator::Add)])
    );
}

#[test]
fn parenthesis_stops_the_flush() {
    // 2 * ( 3 + 4 )
    let tokens = [
        num(2),
        op(Operator::Mul),
        InfixToken::LeftParen,
        num(3),
        op(Operator::Add),
        num(4),
        InfixToken::RightParen,
    ];
    assert_eq!(
        infix_to_postfix(&tokens),
        Some(vec![out_num(2), out_num(3), out_num(4), out_op(Operator::Add), out_op(Operator::Mul)])
    );
}

#[test]
fn nested_parentheses_collapse() {
    // ( ( 3 + 5 ) )
    let tokens = [
        InfixToken::LeftParen,
        InfixToken::LeftParen,
        num(3),
        op(Operator::Add),
        num(5),
        InfixToken::RightParen,
        InfixToken::RightParen,
    ];
    assert_eq!(
        infix_to_postfix(&tokens),
        Some(vec![out_num(3), out_num(5), out_op(Operator::Add)])
    );
    // ( ( ( 7 ) ) )
    let tokens = [
        InfixToken::LeftParen,
        InfixToken::LeftParen,
        InfixToken::LeftParen,
        num(7),
        InfixToken::RightParen,
        InfixToken::RightParen,
        InfixToken::RightParen,
    ];
    assert_eq!(infix_to_postfix(&tokens), Some(vec![out_num(7)]));
}

#[test]
fn empty_group_is_invalid() {
    assert_eq!(infix_to_postfix(&[InfixToken::LeftParen, InfixToken::RightParen]), None);
    // 3 + ( )
    let tokens = [num(3), op(Operator::Add), InfixToken::LeftParen, InfixToken::RightParen];
    assert_eq!(infix_to_postfix(&tokens), None);
}

#[test]
fn unmatched_parentheses_are_invalid() {
    // ( 3 + 5
    let open = [InfixToken::LeftParen, num(3), op(Operator::Add), num(5)];
    assert_eq!(infix_to_postfix(&open), None);
    // 3 + 5 )
    let close = [num(3), op(Operator::Add), num(5), InfixToken::RightParen];
    assert_eq!(infix_to_postfix(&close), None);
    // ) 3 + 5 (
    let both = [
        InfixToken::RightParen,
        num(3),
        op(Operator::Add),
        num(5),
        InfixToken::LeftParen,
    ];
    assert_eq!(infix_to_postfix(&both), None);
    // ( ( 3 + 5 )
    let deeper = [
        InfixToken::LeftParen,
        InfixToken::LeftParen,
        num(3),
        op(Operator::Add),
        num(5),
        InfixToken::RightParen,
    ];
    assert_eq!(infix_to_postfix(&deeper), None);
    // ( 3 + 5 ) )
    let shallower = [
        InfixToken::LeftParen,
        num(3),
        op(Operator::Add),
        num(5),
        InfixToken::RightParen,
        InfixToken::RightParen,
    ];
    assert_eq!(infix_to_postfix(&shallower), None);
    // 3 ) + ( 5 : every pair of neighbours is allowed, and the parentheses do not match
    let crossed = [
        num(3),
        InfixToken::RightParen,
        op(Operator::Add),
        InfixToken::LeftParen,
        num(5),
    ];
    assert_eq!(infix_to_postfix(&crossed), None);
}

#[test]
fn bad_neighbours_are_invalid() {
    // 3 + + 4
    assert_eq!(
        infix_to_postfix(&[num(3), op(Operator::Add), op(Operator::Add), num(4)]),
        None
    );
    // 3 + * 4
    assert_eq!(
        infix_to_postfix(&[num(3), op(Operator::Add), op(Operator::Mul), num(4)]),
        None
    );
    // 3 5 6
    assert_eq!(infix_to_postfix(&[num(3), num(5), num(6)]), None);
    // 5 ( 5 + 3 ) - 6
    let tokens = [
        num(5),
        InfixToken::LeftParen,
        num(5),
        op(Operator::Add),
        num(3),
        InfixToken::RightParen,
        op(Operator::Sub),
        num(6),
    ];
    assert_eq!(infix_to_postfix(&tokens), None);
    // ( 3 + 5 ) 6
    let tokens = [
        InfixToken::LeftParen,
        num(3),
        op(Operator::Add),
        num(5),
        InfixToken::RightParen,
        num(6),
    ];
    assert_eq!(infix_to_postfix(&tokens), None);
    // ( + 3 )
    let tokens = [InfixToken::LeftParen, op(Operator::Add), num(3), InfixToken::RightParen];
    assert_eq!(infix_to_postfix(&tokens), None);
    // ( 3 + )
    let tokens = [InfixToken::LeftParen, num(3), op(Operator::Add), InfixToken::RightParen];
    assert_eq!(infix_to_postfix(&tokens), None);
}

#[test]
fn two_groups_need_an_operator() {
    // ( 3 + 5 ) ( 3 + 5 )
    let tokens = [
        InfixToken::LeftParen,
        num(3),
        op(Operator::Add),
        num(5),
        InfixToken::RightParen,
        InfixToken::LeftParen,
        num(3),
        op(Operator::Add),
        num(5),
        InfixToken::RightParen,
    ];
    assert_eq!(infix_to_postfix(&tokens), None);
    // ( 3 + 5 ) * ( 3 + 5 )
    let tokens = [
        InfixToken::LeftParen,
        num(3),
        op(Operator::Add),
        num(5),
        InfixToken::RightParen,
        op(Operator::Mul),
        InfixToken::LeftParen,
        num(3),
        op(Operator::Add),
        num(5),
        InfixToken::RightParen,
    ];
    assert_eq!(
        infix_to_postfix(&tokens),
        Some(vec![
            out_num(3),
            out_num(5),
            out_op(Operator::Add),
            out_num(3),
            out_num(5),
            out_op(Operator::Add),
            out_op(Operator::Mul),
        ])
    );
}

#[test]
fn dangling_operator_is_invalid() {
    // 3 + 4 -
    let tokens = [num(3), op(Operator::Add), num(4), op(Operator::Sub)];
    assert_eq!(infix_to_postfix(&tokens), None);
}

#[test]
fn same_input_gives_same_output() {
    let tokens = [num(1), op(Operator::Add), num(2), op(Operator::Mul), num(3)];
    assert_eq!(infix_to_postfix(&tokens), infix_to_postfix(&tokens));
}

#[test]
fn output_has_one_more_operand_than_operators() {
    // ( 1 + 2 ) * ( 3 - 4 ) / 5
    let tokens = [
        InfixToken::LeftParen,
        num(1),
        op(Operator::Add),
        num(2),
        InfixToken::RightParen,
        op(Operator::Mul),
        InfixToken::LeftParen,
        num(3),
        op(Operator::Sub),
        num(4),
        InfixToken::RightParen,
        op(Operator::Div),
        num(5),
    ];
    let out = infix_to_postfix(&tokens).unwrap();
    let mut height: isize = 0;
    for t in &out {
        match t {
            PostfixToken::Operand(_) => height += 1,
            PostfixToken::Operator(_) => {
                assert!(height >= 2);
                height -= 1;
            },
        }
    }
    assert_eq!(height, 1);
}
