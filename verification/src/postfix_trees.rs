//! What the evaluation means: the tokens of a postfix expression are the
//! postorder of a tree, and their value is the value of that tree.

use crate::postfix::{
    lemma_run_counts, lemma_run_fails_for_good, lemma_value_iff_well_formed, outcome, run,
    stays_in_range, top_fits, value_of, well_formed, Operator, Token,
};
use vstd::prelude::*;

verus! {

/// An arithmetic expression: a number, or an operator applied to two
/// expressions.
pub enum Expr {
    Num(isize),
    Bin(Operator, Box<Expr>, Box<Expr>),
}

impl Expr {
    /// The postfix form of the expression: its left operand, its right
    /// operand, its operator.
    pub open spec fn tokens(self) -> Seq<Token>
        decreases self,
    {
        match self {
            Expr::Num(x) => seq![Token::Operand(x)],
            Expr::Bin(op, left, right) => left.tokens() + right.tokens() + seq![Token::Operator(op)],
        }
    }

    /// The value of the expression and of each expression inside it fits
    /// the operand type.
    pub open spec fn in_range(self) -> bool
        decreases self,
    {
        match self {
            Expr::Num(_) => true,
            Expr::Bin(_, left, right) => {
                &&& left.in_range()
                &&& right.in_range()
                &&& isize::MIN <= self.value() <= isize::MAX
            },
        }
    }

    /// The value of the expression, in the integers.
    pub open spec fn value(self) -> int
        decreases self,
    {
        match self {
            Expr::Num(x) => x as int,
            Expr::Bin(op, left, right) => op.apply(left.value(), right.value()),
        }
    }
}

/// The tokens of `exprs`, one expression after the other.
pub open spec fn all_tokens(exprs: Seq<Expr>) -> Seq<Token>
    decreases exprs.len(),
{
    if exprs.len() == 0 {
        Seq::empty()
    } else {
        all_tokens(exprs.drop_last()) + exprs.last().tokens()
    }
}

/// The values of `exprs`.
pub open spec fn all_values(exprs: Seq<Expr>) -> Seq<int> {
    exprs.map_values(|e: Expr| e.value())
}

/// The evaluator's stack after `tokens`, where `stack` lay before them.
pub open spec fn run_from(stack: Seq<int>, tokens: Seq<Token>) -> Option<Seq<int>>
    decreases tokens.len(),
{
    if tokens.len() == 0 {
        Some(stack)
    } else {
        match run_from(stack, tokens.drop_last()) {
            Some(before) => match tokens.last() {
                Token::Operand(x) => Some(before.push(x as int)),
                Token::Operator(op) => if before.len() < 2 {
                    None
                } else {
                    Some(
                        before.drop_last().drop_last().push(
                            op.apply(before[before.len() - 2], before[before.len() - 1]),
                        ),
                    )
                },
            },
            None => None,
        }
    }
}

proof fn lemma_run_from_empty(tokens: Seq<Token>)
    ensures
        run_from(Seq::empty(), tokens) == run(tokens),
    decreases tokens.len(),
{
    if tokens.len() > 0 {
        lemma_run_from_empty(tokens.drop_last());
    }
}

proof fn lemma_run_from_concat(stack: Seq<int>, a: Seq<Token>, b: Seq<Token>)
    ensures
        run_from(stack, a + b) == match run_from(stack, a) {
            Some(middle) => run_from(middle, b),
            None => None,
        },
    decreases b.len(),
{
    if b.len() == 0 {
        assert(a + b =~= a);
    } else {
        assert((a + b).drop_last() =~= a + b.drop_last());
        lemma_run_from_concat(stack, a, b.drop_last());
    }
}

/// Evaluating the tokens of an expression puts its value on the stack and
/// leaves what lay there.
pub proof fn lemma_run_expr(e: Expr, stack: Seq<int>)
    ensures
        run_from(stack, e.tokens()) == Some(stack.push(e.value())),
    decreases e,
{
    match e {
        Expr::Num(x) => {
            assert(e.tokens().drop_last() =~= Seq::<Token>::empty());
            assert(run_from(stack, Seq::<Token>::empty()) == Some(stack));
        },
        Expr::Bin(op, left, right) => {
            let last = seq![Token::Operator(op)];
            lemma_run_expr(*left, stack);
            lemma_run_expr(*right, stack.push(left.value()));
            lemma_run_from_concat(stack, left.tokens(), right.tokens());
            lemma_run_from_concat(stack, left.tokens() + right.tokens(), last);
            let before = stack.push(left.value()).push(right.value());
            assert(last.drop_last() =~= Seq::<Token>::empty());
            assert(run_from(before, Seq::<Token>::empty()) == Some(before));
            assert(before.drop_last().drop_last() =~= stack);
        },
    }
}

/// The tokens of an expression have the value of the expression.
pub proof fn lemma_value_of_expr(e: Expr)
    ensures
        value_of(e.tokens()) == Some(e.value()),
{
    lemma_run_expr(e, Seq::empty());
    lemma_run_from_empty(e.tokens());
}

/// Where the evaluation goes through, the tokens are those of a sequence of
/// expressions, one for each value on the stack, and the values on the
/// stack are theirs.
pub proof fn lemma_run_is_exprs(tokens: Seq<Token>) -> (exprs: Seq<Expr>)
    requires
        run(tokens).is_some(),
    ensures
        all_tokens(exprs) == tokens,
        all_values(exprs) == run(tokens).unwrap(),
    decreases tokens.len(),
{
    if tokens.len() == 0 {
        let exprs = Seq::<Expr>::empty();
        assert(all_values(exprs) =~= run(tokens).unwrap());
        exprs
    } else {
        let front = lemma_run_is_exprs(tokens.drop_last());
        let before = run(tokens.drop_last()).unwrap();
        match tokens.last() {
            Token::Operand(x) => {
                let exprs = front.push(Expr::Num(x));
                assert(exprs.drop_last() =~= front);
                assert(all_tokens(exprs) =~= tokens);
                assert(all_values(exprs) =~= run(tokens).unwrap());
                exprs
            },
            Token::Operator(op) => {
                let n = front.len() as int;
                let left = front[n - 2];
                let right = front[n - 1];
                let rest = front.drop_last().drop_last();
                let e = Expr::Bin(op, Box::new(left), Box::new(right));
                let exprs = rest.push(e);
                assert(exprs.drop_last() =~= rest);
                assert(front.drop_last().drop_last() =~= rest);
                assert(front.len() == before.len());
                assert(front.last() == right);
                assert(front.drop_last().last() == left);
                assert(all_tokens(front) == all_tokens(front.drop_last()) + right.tokens());
                assert(all_tokens(front.drop_last()) == all_tokens(rest) + left.tokens());
                assert(left.value() == before[n - 2] && right.value() == before[n - 1]);
                assert(exprs.last() == e);
                assert(all_tokens(exprs) == all_tokens(rest) + e.tokens());
                assert(tokens =~= tokens.drop_last() + seq![Token::Operator(op)]);
                assert(all_tokens(exprs) =~= tokens);
                assert(all_values(exprs) =~= run(tokens).unwrap());
                exprs
            },
        }
    }
}

/// What the evaluation means. A token sequence has a value exactly if it is
/// the postfix form of an expression, and then its value is that of the
/// expression.
pub proof fn lemma_evaluation_means(tokens: Seq<Token>)
    ensures
        value_of(tokens).is_some() <==> exists|e: Expr| #[trigger] e.tokens() == tokens,
        well_formed(tokens) <==> exists|e: Expr| #[trigger] e.tokens() == tokens,
        forall|e: Expr| #[trigger] e.tokens() == tokens ==> value_of(tokens) == Some(e.value()),
{
    lemma_value_iff_well_formed(tokens);
    assert forall|e: Expr| #[trigger] e.tokens() == tokens implies value_of(tokens) == Some(
        e.value(),
    ) by {
        lemma_value_of_expr(e);
    }
    if value_of(tokens).is_some() {
        let exprs = lemma_run_is_exprs(tokens);
        assert(exprs.len() == 1);
        let e = exprs[0];
        assert(exprs.drop_last() =~= Seq::<Expr>::empty());
        assert(all_tokens(Seq::<Expr>::empty()) =~= Seq::<Token>::empty());
        assert(all_tokens(exprs) =~= e.tokens());
        assert(e.tokens() == tokens);
    }
}

proof fn lemma_run_from_above(stack: Seq<int>, tokens: Seq<Token>)
    requires
        run(tokens).is_some(),
    ensures
        run_from(stack, tokens) == Some(stack + run(tokens).unwrap()),
    decreases tokens.len(),
{
    if tokens.len() == 0 {
        assert(stack + run(tokens).unwrap() =~= stack);
    } else {
        lemma_run_from_above(stack, tokens.drop_last());
        let above = run(tokens.drop_last()).unwrap();
        let before = stack + above;
        match tokens.last() {
            Token::Operand(x) => {
                assert(before.push(x as int) =~= stack + above.push(x as int));
            },
            Token::Operator(op) => {
                assert(before[before.len() - 1] == above[above.len() - 1]);
                assert(before[before.len() - 2] == above[above.len() - 2]);
                assert(before.drop_last().drop_last() =~= stack + above.drop_last().drop_last());
                assert(run_from(stack, tokens).unwrap() =~= stack + run(tokens).unwrap());
            },
        }
    }
}

proof fn lemma_top_after(a: Seq<Token>, b: Seq<Token>, j: int)
    requires
        run(a).is_some(),
        run(b).is_some(),
        1 <= j <= b.len(),
    ensures
        top_fits((a + b).take(a.len() + j)) <==> top_fits(b.take(j)),
{
    let part = b.take(j);
    if run(part) is None {
        lemma_run_fails_for_good(b, j);
    }
    lemma_run_counts(part);
    assert(part.take(j) =~= part);
    assert(run(part).unwrap().len() >= 1);
    assert((a + b).take(a.len() + j) =~= a + part);
    lemma_run_from_empty(a + part);
    lemma_run_from_empty(a);
    lemma_run_from_concat(Seq::empty(), a, part);
    lemma_run_from_above(run(a).unwrap(), part);
    let whole = run(a).unwrap() + run(part).unwrap();
    assert(whole.last() == run(part).unwrap().last());
}

proof fn lemma_range_concat(a: Seq<Token>, b: Seq<Token>)
    requires
        run(a).is_some(),
        run(b).is_some(),
    ensures
        stays_in_range(a + b) <==> stays_in_range(a) && stays_in_range(b),
{
    let all = a + b;
    if stays_in_range(all) {
        assert forall|k: int| 0 <= k <= a.len() implies top_fits(#[trigger] a.take(k)) by {
            assert(all.take(k) =~= a.take(k));
        }
        assert forall|j: int| 0 <= j <= b.len() implies top_fits(#[trigger] b.take(j)) by {
            if j >= 1 {
                lemma_top_after(a, b, j);
                assert(top_fits(all.take(a.len() + j)));
            }
        }
    }
    if stays_in_range(a) && stays_in_range(b) {
        assert forall|k: int| 0 <= k <= all.len() implies top_fits(#[trigger] all.take(k)) by {
            if k <= a.len() {
                assert(all.take(k) =~= a.take(k));
            } else {
                let j = k - a.len();
                lemma_top_after(a, b, j);
                assert(top_fits(b.take(j)));
            }
        }
    }
}

proof fn lemma_range_unfold(tokens: Seq<Token>)
    requires
        tokens.len() > 0,
    ensures
        stays_in_range(tokens) <==> stays_in_range(tokens.drop_last()) && top_fits(tokens),
{
    let front = tokens.drop_last();
    assert(tokens.take(tokens.len() as int) =~= tokens);
    if stays_in_range(tokens) {
        assert forall|k: int| 0 <= k <= front.len() implies top_fits(#[trigger] front.take(k)) by {
            assert(front.take(k) =~= tokens.take(k));
        }
    }
    if stays_in_range(front) && top_fits(tokens) {
        assert forall|k: int| 0 <= k <= tokens.len() implies top_fits(#[trigger] tokens.take(k)) by {
            if k < tokens.len() {
                assert(front.take(k) =~= tokens.take(k));
            }
        }
    }
}

/// The evaluation of an expression's tokens stays in range exactly if the
/// value of the expression does, and that of each expression inside it.
pub proof fn lemma_range_of_expr(e: Expr)
    ensures
        stays_in_range(e.tokens()) <==> e.in_range(),
    decreases e,
{
    let tokens = e.tokens();
    lemma_value_of_expr(e);
    match e {
        Expr::Num(x) => {
            lemma_range_unfold(tokens);
            assert(tokens.drop_last() =~= Seq::<Token>::empty());
            assert forall|k: int| 0 <= k <= 0 implies top_fits(
                #[trigger] Seq::<Token>::empty().take(k),
            ) by {
                assert(Seq::<Token>::empty().take(k) =~= Seq::<Token>::empty());
            }
        },
        Expr::Bin(op, left, right) => {
            lemma_range_of_expr(*left);
            lemma_range_of_expr(*right);
            lemma_value_of_expr(*left);
            lemma_value_of_expr(*right);
            lemma_range_concat(left.tokens(), right.tokens());
            lemma_range_unfold(tokens);
            assert(tokens.drop_last() =~= left.tokens() + right.tokens());
        },
    }
}

/// What the evaluator returns. The tokens of an expression give the value
/// of the expression if it stays in range, and nothing if it does not.
/// Tokens that are not those of an expression give nothing.
pub proof fn lemma_outcome_means(tokens: Seq<Token>)
    ensures
        outcome(tokens).is_some() ==> exists|e: Expr| #[trigger] e.tokens() == tokens,
        forall|e: Expr| #[trigger]
            e.tokens() == tokens ==> outcome(tokens) == if e.in_range() {
                Some(e.value())
            } else {
                None
            },
{
    lemma_evaluation_means(tokens);
    assert forall|e: Expr| #[trigger] e.tokens() == tokens implies outcome(tokens) == if e.in_range() {
        Some(e.value())
    } else {
        None::<int>
    } by {
        lemma_range_of_expr(e);
    }
}

} // verus!
