//! Evaluation of postfix (Reverse Polish) expressions over machine integers.
//!
//! The evaluator keeps a stack of values. A result that does not fit the
//! operand type counts as no value: the evaluator neither wraps nor stops
//! the program.

use crate::postfix_trees::{lemma_outcome_means, Expr};
use vstd::prelude::*;

verus! {

/// A binary arithmetic operator.
#[derive(Clone, Copy, Debug, PartialEq, Eq)]
pub enum Operator {
    /// `+`
    Add,
    /// `-`
    Sub,
    /// `*`
    Mul,
}

/// One token of a postfix expression.
#[derive(Clone, Copy, Debug, PartialEq, Eq)]
pub enum Token {
    Operator(Operator),
    Operand(isize),
}

impl Operator {
    /// The operator applied to `left` and `right`, where `left` was written
    /// first.
    pub open spec fn apply(self, left: int, right: int) -> int {
        match self {
            Operator::Add => left + right,
            Operator::Sub => left - right,
            Operator::Mul => left * right,
        }
    }
}

/// The evaluator's stack after `tokens`, its top being the last element, or
/// `None` if an operator did not find two values on the stack.
pub open spec fn run(tokens: Seq<Token>) -> Option<Seq<int>>
    decreases tokens.len(),
{
    if tokens.len() == 0 {
        Some(Seq::empty())
    } else {
        match run(tokens.drop_last()) {
            Some(stack) => match tokens.last() {
                Token::Operand(x) => Some(stack.push(x as int)),
                Token::Operator(op) => if stack.len() < 2 {
                    None
                } else {
                    let right = stack[stack.len() - 1];
                    let left = stack[stack.len() - 2];
                    Some(stack.drop_last().drop_last().push(op.apply(left, right)))
                },
            },
            None => None,
        }
    }
}

/// The value of a postfix expression: what is left on the stack, if every
/// operator found its two operands and exactly one value is left.
pub open spec fn value_of(tokens: Seq<Token>) -> Option<int> {
    match run(tokens) {
        Some(stack) => if stack.len() == 1 {
            Some(stack[0])
        } else {
            None
        },
        None => None,
    }
}

/// The value that the evaluation of `tokens` has put on top of the stack,
/// if any, fits the operand type.
pub open spec fn top_fits(tokens: Seq<Token>) -> bool {
    match run(tokens) {
        Some(stack) => stack.len() > 0 ==> isize::MIN <= stack.last() <= isize::MAX,
        None => true,
    }
}

/// Every value that the evaluation of `tokens` puts on the stack fits the
/// operand type.
pub open spec fn stays_in_range(tokens: Seq<Token>) -> bool {
    forall|k: int| 0 <= k <= tokens.len() ==> top_fits(#[trigger] tokens.take(k))
}

/// What the evaluator returns for `tokens`: their value, if they have one
/// and every value on the way to it fits the operand type.
pub open spec fn outcome(tokens: Seq<Token>) -> Option<int> {
    if stays_in_range(tokens) {
        value_of(tokens)
    } else {
        None
    }
}

/// An evaluation that has failed on a prefix has failed on the whole
/// sequence.
pub proof fn lemma_run_fails_for_good(tokens: Seq<Token>, k: int)
    requires
        0 <= k <= tokens.len(),
        run(tokens.take(k)) is None,
    ensures
        run(tokens) is None,
    decreases tokens.len(),
{
    if k == tokens.len() {
        assert(tokens.take(k) =~= tokens);
    } else {
        assert(tokens.drop_last().take(k) =~= tokens.take(k));
        lemma_run_fails_for_good(tokens.drop_last(), k);
    }
}

/// The number of values on the stack after `tokens`, if every operator
/// found its operands: the operands of `tokens` less its operators.
pub open spec fn height(tokens: Seq<Token>) -> int
    decreases tokens.len(),
{
    if tokens.len() == 0 {
        0
    } else {
        height(tokens.drop_last()) + match tokens.last() {
            Token::Operand(_) => 1int,
            Token::Operator(_) => -1int,
        }
    }
}

/// Every operator of `tokens` finds its two operands: after each token at
/// least one value lies on the stack.
pub open spec fn never_starved(tokens: Seq<Token>) -> bool {
    forall|k: int| 1 <= k <= tokens.len() ==> height(#[trigger] tokens.take(k)) >= 1
}

/// The postfix expressions that have a value: every operator finds its two
/// operands, and one value is left at the end.
pub open spec fn well_formed(tokens: Seq<Token>) -> bool {
    never_starved(tokens) && height(tokens) == 1
}

proof fn lemma_never_starved_unfold(tokens: Seq<Token>)
    requires
        tokens.len() > 0,
    ensures
        never_starved(tokens) <==> never_starved(tokens.drop_last()) && height(tokens) >= 1,
{
    let front = tokens.drop_last();
    assert(tokens.take(tokens.len() as int) =~= tokens);
    if never_starved(tokens) {
        assert forall|k: int| 1 <= k <= front.len() implies height(#[trigger] front.take(k))
            >= 1 by {
            assert(front.take(k) =~= tokens.take(k));
        }
    }
    if never_starved(front) && height(tokens) >= 1 {
        assert forall|k: int| 1 <= k <= tokens.len() implies height(#[trigger] tokens.take(k))
            >= 1 by {
            if k < tokens.len() {
                assert(front.take(k) =~= tokens.take(k));
            }
        }
    }
}

/// The evaluation goes through exactly where every operator finds its two
/// operands, and then the stack holds one value for each operand that no
/// operator has taken.
pub proof fn lemma_run_counts(tokens: Seq<Token>)
    ensures
        run(tokens).is_some() <==> never_starved(tokens),
        run(tokens).is_some() ==> run(tokens).unwrap().len() == height(tokens),
    decreases tokens.len(),
{
    if tokens.len() > 0 {
        lemma_run_counts(tokens.drop_last());
        lemma_never_starved_unfold(tokens);
    }
}

/// A postfix expression has a value exactly if every operator finds its two
/// operands and one value is left at the end.
pub proof fn lemma_value_iff_well_formed(tokens: Seq<Token>)
    ensures
        value_of(tokens).is_some() <==> well_formed(tokens),
{
    lemma_run_counts(tokens);
}

/// The stack of machine integers `stack` holds the values of `model`.
pub open spec fn mirrors(stack: Seq<isize>, model: Seq<int>) -> bool {
    &&& stack.len() == model.len()
    &&& forall|j: int| 0 <= j < stack.len() ==> stack[j] as int == model[j]
}

/// Evaluates a postfix expression.
///
/// Returns the value if every operator finds two operands and one value is
/// left at the end. Returns `None` otherwise, and also where a result does
/// not fit `isize`: such a result counts as no value. So the tokens of an
/// expression give its value, if that and the value of every expression
/// inside it fit `isize`, and all other tokens give `None`.
pub fn eval(tokens: &[Token]) -> (r: Option<isize>)
    ensures
        r.is_some() <==> well_formed(tokens@) && stays_in_range(tokens@),
        match r {
            Some(v) => outcome(tokens@) == Some(v as int),
            None => outcome(tokens@) is None,
        },
        r.is_some() ==> exists|e: Expr| #[trigger] e.tokens() == tokens@,
        forall|e: Expr| #[trigger]
            e.tokens() == tokens@ ==> match r {
                Some(v) => e.in_range() && v == e.value(),
                None => !e.in_range(),
            },
{
    proof {
        lemma_value_iff_well_formed(tokens@);
        lemma_outcome_means(tokens@);
    }
    let mut stack: Vec<isize> = Vec::new();
    let mut i: usize = 0;
    while i < tokens.len()
        invariant
            i <= tokens.len(),
            run(tokens@.take(i as int)).is_some(),
            mirrors(stack@, run(tokens@.take(i as int)).unwrap()),
            forall|k: int| 0 <= k <= i ==> top_fits(#[trigger] tokens@.take(k)),
        decreases tokens.len() - i,
    {
        proof {
            assert(tokens@.take(i + 1).drop_last() =~= tokens@.take(i as int));
        }
        match tokens[i] {
            Token::Operand(x) => {
                stack.push(x);
            },
            Token::Operator(op) => {
                let n: usize = stack.len();
                if n < 2 {
                    proof {
                        lemma_run_fails_for_good(tokens@, i + 1);
                        lemma_value_iff_well_formed(tokens@);
                        lemma_outcome_means(tokens@);
                    }
                    return None;
                }
                let right: isize = stack[n - 1];
                let left: isize = stack[n - 2];
                stack.pop();
                stack.pop();
                proof {
                    let after = run(tokens@.take(i + 1)).unwrap();
                    assert(after.last() == op.apply(left as int, right as int));
                }
                let result: Option<isize> = match op {
                    Operator::Add => left.checked_add(right),
                    Operator::Sub => left.checked_sub(right),
                    Operator::Mul => left.checked_mul(right),
                };
                match result {
                    Some(value) => {
                        stack.push(value);
                    },
                    None => {
                        proof {
                            assert(!top_fits(tokens@.take(i + 1)));
                            lemma_outcome_means(tokens@);
                        }
                        return None;
                    },
                }
            },
        }
        i += 1;
    }
    proof {
        assert(tokens@.take(i as int) =~= tokens@);
    }
    if stack.len() == 1 {
        Some(stack[0])
    } else {
        None
    }
}

} // verus!
