//! Conversion of infix token sequences to postfix (Reverse Polish) form.
//!
//! The converter first checks the shape of the input (what may start it,
//! what may end it, which tokens may stand next to each other) and then
//! runs a single left-to-right pass with one stack of pending operators and
//! open parentheses.

use crate::infix_laws::{
    lemma_conversion_keeps_tokens, lemma_conversion_well_formed, lemma_convertible_iff_valid,
};
use crate::infix_trees::{lemma_conversion_means, reads_as, Written};
use vstd::multiset::Multiset;
use vstd::prelude::*;

verus! {

/// A binary arithmetic operator.
#[derive(Clone, Copy, Debug, PartialEq, Eq)]
pub enum Operator {
    /// `+`
    Add,
    /// `-`
    Sub,
    /// `*`
    Mul,
    /// `/`
    Div,
}

/// One token of an infix expression.
#[derive(Clone, Copy, Debug, PartialEq, Eq)]
pub enum InfixToken {
    Operator(Operator),
    Operand(isize),
    LeftParen,
    RightParen,
}

/// One token of a postfix expression.
#[derive(Clone, Copy, Debug, PartialEq, Eq)]
pub enum PostfixToken {
    Operator(Operator),
    Operand(isize),
}

/// An entry of the converter's stack: an operator that still waits for its
/// right operand, or a parenthesis that has not been closed yet.
#[derive(Clone, Copy, Debug, PartialEq, Eq)]
pub enum Pending {
    Operator(Operator),
    LeftParen,
}

impl Operator {
    /// How tightly the operator binds: 1 for `+` and `-`, 2 for `*` and `/`.
    pub open spec fn rank(self) -> int {
        match self {
            Operator::Add | Operator::Sub => 1,
            Operator::Mul | Operator::Div => 2,
        }
    }
}

impl InfixToken {
    /// The rank of an operator token, and 0 for every other token.
    pub open spec fn spec_precedence(self) -> int {
        match self {
            InfixToken::Operator(op) => op.rank(),
            _ => 0,
        }
    }

    /// The precedence of the token: 1 for `+` and `-`, 2 for `*` and `/`,
    /// 0 for operands and parentheses.
    pub fn precedence(&self) -> (p: i32)
        ensures
            p == self.spec_precedence(),
    {
        match *self {
            InfixToken::Operator(Operator::Add) | InfixToken::Operator(Operator::Sub) => 1,
            InfixToken::Operator(Operator::Mul) | InfixToken::Operator(Operator::Div) => 2,
            _ => 0,
        }
    }
}

/// True for the tokens after which a value is complete: an operand or a
/// closing parenthesis.
pub open spec fn ends_value(t: InfixToken) -> bool {
    t is Operand || t is RightParen
}

/// True for the tokens with which a value may begin: an operand or an
/// opening parenthesis.
pub open spec fn starts_value(t: InfixToken) -> bool {
    t is Operand || t is LeftParen
}

/// The pairs of neighbouring tokens that an expression may contain. Every
/// pair that is not listed here makes the expression invalid.
pub open spec fn pairing_allowed(a: InfixToken, b: InfixToken) -> bool {
    ||| (a is Operand && b is Operator)
    ||| (a is Operand && b is RightParen)
    ||| (a is Operator && b is Operand)
    ||| (a is Operator && b is LeftParen)
    ||| (a is LeftParen && b is Operand)
    ||| (a is LeftParen && b is LeftParen)
    ||| (a is RightParen && b is Operator)
    ||| (a is RightParen && b is RightParen)
}

/// The shape rules: the sequence is not empty, it does not begin with an
/// operator or a closing parenthesis, it does not end with an operator or an
/// opening parenthesis, and every two neighbours form an allowed pair.
pub open spec fn shape_ok(tokens: Seq<InfixToken>) -> bool {
    &&& tokens.len() > 0
    &&& starts_value(tokens.first())
    &&& ends_value(tokens.last())
    &&& forall|i: int| 0 <= i < tokens.len() - 1 ==> pairing_allowed(#[trigger] tokens[i], tokens[i + 1])
}

/// Parentheses opened and not yet closed after `tokens`: the number of
/// opening parentheses minus the number of closing ones.
pub open spec fn depth(tokens: Seq<InfixToken>) -> int
    decreases tokens.len(),
{
    if tokens.len() == 0 {
        0
    } else {
        depth(tokens.drop_last()) + match tokens.last() {
            InfixToken::LeftParen => 1int,
            InfixToken::RightParen => -1int,
            _ => 0int,
        }
    }
}

/// The parentheses match: no prefix closes more than it has opened, and the
/// whole sequence closes all that it has opened.
pub open spec fn balanced(tokens: Seq<InfixToken>) -> bool {
    &&& forall|k: int| 0 <= k <= tokens.len() ==> depth(#[trigger] tokens.take(k)) >= 0
    &&& depth(tokens) == 0
}

/// The valid infix expressions: those that meet the shape rules and whose
/// parentheses match.
pub open spec fn valid_infix(tokens: Seq<InfixToken>) -> bool {
    shape_ok(tokens) && balanced(tokens)
}

/// The operands of an infix expression, from left to right.
pub open spec fn infix_operands(tokens: Seq<InfixToken>) -> Seq<isize>
    decreases tokens.len(),
{
    if tokens.len() == 0 {
        Seq::empty()
    } else {
        match tokens.last() {
            InfixToken::Operand(x) => infix_operands(tokens.drop_last()).push(x),
            _ => infix_operands(tokens.drop_last()),
        }
    }
}

/// The operators of an infix expression, each as often as it occurs.
pub open spec fn infix_operators(tokens: Seq<InfixToken>) -> Multiset<Operator>
    decreases tokens.len(),
{
    if tokens.len() == 0 {
        Multiset::empty()
    } else {
        match tokens.last() {
            InfixToken::Operator(op) => infix_operators(tokens.drop_last()).insert(op),
            _ => infix_operators(tokens.drop_last()),
        }
    }
}

/// The operands of a postfix expression, from left to right.
pub open spec fn postfix_operands(tokens: Seq<PostfixToken>) -> Seq<isize>
    decreases tokens.len(),
{
    if tokens.len() == 0 {
        Seq::empty()
    } else {
        match tokens.last() {
            PostfixToken::Operand(x) => postfix_operands(tokens.drop_last()).push(x),
            PostfixToken::Operator(_) => postfix_operands(tokens.drop_last()),
        }
    }
}

/// The operators of a postfix expression, each as often as it occurs.
pub open spec fn postfix_operators(tokens: Seq<PostfixToken>) -> Multiset<Operator>
    decreases tokens.len(),
{
    if tokens.len() == 0 {
        Multiset::empty()
    } else {
        match tokens.last() {
            PostfixToken::Operator(op) => postfix_operators(tokens.drop_last()).insert(op),
            PostfixToken::Operand(_) => postfix_operators(tokens.drop_last()),
        }
    }
}

/// The number of values that lie on an evaluator's stack after `tokens`:
/// each operand adds one, each operator takes two and gives one back.
pub open spec fn height(tokens: Seq<PostfixToken>) -> int
    decreases tokens.len(),
{
    if tokens.len() == 0 {
        0
    } else {
        height(tokens.drop_last()) + match tokens.last() {
            PostfixToken::Operand(_) => 1int,
            PostfixToken::Operator(_) => -1int,
        }
    }
}

/// Every operator of `tokens` finds its two operands: after each token at
/// least one value lies on the evaluator's stack.
pub open spec fn never_starved(tokens: Seq<PostfixToken>) -> bool {
    forall|k: int| 1 <= k <= tokens.len() ==> height(#[trigger] tokens.take(k)) >= 1
}

/// The postfix expressions that can be evaluated: every operator finds its
/// two operands, and one value is left at the end.
pub open spec fn well_formed_postfix(tokens: Seq<PostfixToken>) -> bool {
    never_starved(tokens) && height(tokens) == 1
}

/// The state of the conversion pass: the stack of pending entries, its top
/// being the last element, and the postfix tokens written so far.
pub struct Yard {
    pub stack: Seq<Pending>,
    pub output: Seq<PostfixToken>,
}

impl Yard {
    /// The state before the first token.
    pub open spec fn empty() -> Yard {
        Yard { stack: Seq::empty(), output: Seq::empty() }
    }

    /// The state after the top of the stack, an operator `op`, has been moved
    /// to the output.
    pub open spec fn emit_top(self, op: Operator) -> Yard {
        Yard { stack: self.stack.drop_last(), output: self.output.push(PostfixToken::Operator(op)) }
    }

    /// Moves operators from the top of the stack to the output for as long as
    /// the top is an operator of rank `rank` or more. Stops at an empty stack,
    /// at an opening parenthesis and at an operator of a lower rank.
    pub open spec fn flush(self, rank: int) -> Yard
        decreases self.stack.len(),
    {
        if self.stack.len() == 0 {
            self
        } else {
            match self.stack.last() {
                Pending::Operator(top) => if top.rank() >= rank {
                    self.emit_top(top).flush(rank)
                } else {
                    self
                },
                Pending::LeftParen => self,
            }
        }
    }

    /// Moves operators from the top of the stack to the output down to the
    /// nearest opening parenthesis, and removes that parenthesis. There is no
    /// result where the stack holds no opening parenthesis.
    pub open spec fn close_group(self) -> Option<Yard>
        decreases self.stack.len(),
    {
        if self.stack.len() == 0 {
            None
        } else {
            match self.stack.last() {
                Pending::Operator(top) => self.emit_top(top).close_group(),
                Pending::LeftParen => Some(Yard { stack: self.stack.drop_last(), output: self.output }),
            }
        }
    }

    /// The state after one more token: an operand goes to the output, an
    /// opening parenthesis goes on the stack, a closing parenthesis closes
    /// the innermost group, and an operator first flushes the operators that
    /// bind at least as tightly as itself and then goes on the stack.
    pub open spec fn step(self, t: InfixToken) -> Option<Yard> {
        match t {
            InfixToken::Operand(x) => Some(
                Yard { stack: self.stack, output: self.output.push(PostfixToken::Operand(x)) },
            ),
            InfixToken::LeftParen => Some(
                Yard { stack: self.stack.push(Pending::LeftParen), output: self.output },
            ),
            InfixToken::RightParen => self.close_group(),
            InfixToken::Operator(op) => {
                let flushed = self.flush(op.rank());
                Some(Yard { stack: flushed.stack.push(Pending::Operator(op)), output: flushed.output })
            },
        }
    }

    /// Moves every operator that is left on the stack to the output, top
    /// first, and gives the output. There is no result where an opening
    /// parenthesis is left.
    pub open spec fn drain(self) -> Option<Seq<PostfixToken>>
        decreases self.stack.len(),
    {
        if self.stack.len() == 0 {
            Some(self.output)
        } else {
            match self.stack.last() {
                Pending::Operator(top) => self.emit_top(top).drain(),
                Pending::LeftParen => None,
            }
        }
    }
}

/// The state after all of `tokens`, taken from left to right, or `None` if
/// one of them was a closing parenthesis with no opening one to match.
pub open spec fn scan(tokens: Seq<InfixToken>) -> Option<Yard>
    decreases tokens.len(),
{
    if tokens.len() == 0 {
        Some(Yard::empty())
    } else {
        match scan(tokens.drop_last()) {
            Some(y) => y.step(tokens.last()),
            None => None,
        }
    }
}

/// The postfix form of `tokens`, or `None` if `tokens` is no valid infix
/// expression.
pub open spec fn postfix_of(tokens: Seq<InfixToken>) -> Option<Seq<PostfixToken>> {
    if shape_ok(tokens) {
        match scan(tokens) {
            Some(y) => y.drain(),
            None => None,
        }
    } else {
        None
    }
}

/// A scan that has failed on a prefix has failed on the whole sequence.
pub proof fn lemma_scan_fails_for_good(tokens: Seq<InfixToken>, k: int)
    requires
        0 <= k <= tokens.len(),
        scan(tokens.take(k)) is None,
    ensures
        scan(tokens) is None,
    decreases tokens.len(),
{
    if k == tokens.len() {
        assert(tokens.take(k) =~= tokens);
    } else {
        assert(tokens.drop_last().take(k) =~= tokens.take(k));
        lemma_scan_fails_for_good(tokens.drop_last(), k);
    }
}

/// Tells whether `b` may follow `a`.
fn pair_allowed(a: &InfixToken, b: &InfixToken) -> (ok: bool)
    ensures
        ok == pairing_allowed(*a, *b),
{
    match (a, b) {
        (InfixToken::RightParen, InfixToken::Operand(_)) => false,
        (InfixToken::RightParen, InfixToken::LeftParen) => false,
        (InfixToken::LeftParen, InfixToken::RightParen) => false,
        (InfixToken::Operator(_), InfixToken::RightParen) => false,
        (InfixToken::Operator(_), InfixToken::Operator(_)) => false,
        (InfixToken::Operand(_), InfixToken::Operand(_)) => false,
        (InfixToken::Operand(_), InfixToken::LeftParen) => false,
        (InfixToken::LeftParen, InfixToken::Operator(_)) => false,
        _ => true,
    }
}

/// Tells whether `tokens` meet the shape rules.
fn check_shape(tokens: &[InfixToken]) -> (ok: bool)
    ensures
        ok == shape_ok(tokens@),
{
    let size: usize = tokens.len();
    if size == 0 {
        return false;
    }
    match tokens[0] {
        InfixToken::RightParen => return false,
        InfixToken::Operator(_) => return false,
        _ => {},
    }
    let mut i: usize = 0;
    while i < size - 1
        invariant
            size == tokens.len(),
            size > 0,
            i <= size - 1,
            forall|j: int| 0 <= j < i ==> pairing_allowed(#[trigger] tokens@[j], tokens@[j + 1]),
        decreases size - i,
    {
        if !pair_allowed(&tokens[i], &tokens[i + 1]) {
            return false;
        }
        i += 1;
    }
    match tokens[size - 1] {
        InfixToken::Operator(_) => false,
        InfixToken::LeftParen => false,
        _ => true,
    }
}

/// Moves the operators of rank `rank` or more from the top of the stack to
/// the output.
fn flush(stack: &mut Vec<Pending>, output: &mut Vec<PostfixToken>, rank: i32)
    ensures
        (Yard { stack: final(stack)@, output: final(output)@ }) == (Yard {
            stack: old(stack)@,
            output: old(output)@,
        }).flush(rank as int),
{
    let ghost start = Yard { stack: stack@, output: output@ };
    loop
        invariant
            start == (Yard { stack: old(stack)@, output: old(output)@ }),
            (Yard { stack: stack@, output: output@ }).flush(rank as int) == start.flush(rank as int),
        ensures
            (Yard { stack: stack@, output: output@ }) == start.flush(rank as int),
        decreases stack.len(),
    {
        let n: usize = stack.len();
        if n == 0 {
            break;
        }
        match stack[n - 1] {
            Pending::LeftParen => {
                break;
            },
            Pending::Operator(top) => {
                let top_rank: i32 = InfixToken::Operator(top).precedence();
                if top_rank >= rank {
                    stack.pop();
                    output.push(PostfixToken::Operator(top));
                } else {
                    break;
                }
            },
        }
    }
}

/// Moves the operators above the nearest opening parenthesis to the output
/// and removes that parenthesis. Returns `false` if there is none.
fn close_group(stack: &mut Vec<Pending>, output: &mut Vec<PostfixToken>) -> (closed: bool)
    ensures
        closed == (Yard { stack: old(stack)@, output: old(output)@ }).close_group().is_some(),
        closed ==> (Yard { stack: old(stack)@, output: old(output)@ }).close_group() == Some(
            Yard { stack: final(stack)@, output: final(output)@ },
        ),
{
    let ghost start = Yard { stack: stack@, output: output@ };
    loop
        invariant
            start == (Yard { stack: old(stack)@, output: old(output)@ }),
            (Yard { stack: stack@, output: output@ }).close_group() == start.close_group(),
        decreases stack.len(),
    {
        match stack.pop() {
            None => {
                return false;
            },
            Some(Pending::LeftParen) => {
                return true;
            },
            Some(Pending::Operator(top)) => {
                output.push(PostfixToken::Operator(top));
            },
        }
    }
}

/// Moves what is left on the stack to the output. Returns `false` if an
/// opening parenthesis is left.
fn drain(stack: &mut Vec<Pending>, output: &mut Vec<PostfixToken>) -> (done: bool)
    ensures
        done == (Yard { stack: old(stack)@, output: old(output)@ }).drain().is_some(),
        done ==> (Yard { stack: old(stack)@, output: old(output)@ }).drain() == Some(final(output)@),
{
    let ghost start = Yard { stack: stack@, output: output@ };
    loop
        invariant
            start == (Yard { stack: old(stack)@, output: old(output)@ }),
            (Yard { stack: stack@, output: output@ }).drain() == start.drain(),
        decreases stack.len(),
    {
        match stack.pop() {
            None => {
                return true;
            },
            Some(Pending::LeftParen) => {
                return false;
            },
            Some(Pending::Operator(top)) => {
                output.push(PostfixToken::Operator(top));
            },
        }
    }
}

/// Transforms an infix expression into its postfix form.
///
/// Returns the postfix tokens if `tokens` is a valid infix expression, and
/// `None` otherwise, whatever rule the input breaks. The valid expressions
/// are those that can be read as a tree of numbers, groups and operations,
/// and the postfix tokens are then those of the tree.
pub fn infix_to_postfix(tokens: &[InfixToken]) -> (r: Option<Vec<PostfixToken>>)
    ensures
        r.is_some() <==> valid_infix(tokens@),
        r.is_some() <==> exists|w: Written| reads_as(tokens@, w),
        forall|w: Written| #[trigger]
            reads_as(tokens@, w) ==> r.is_some() && r.unwrap()@ == w.expr().postfix(),
        match r {
            Some(v) => {
                &&& postfix_of(tokens@) == Some(v@)
                &&& postfix_operands(v@) == infix_operands(tokens@)
                &&& postfix_operators(v@) == infix_operators(tokens@)
                &&& well_formed_postfix(v@)
            },
            None => postfix_of(tokens@) is None,
        },
{
    proof {
        lemma_convertible_iff_valid(tokens@);
        lemma_conversion_means(tokens@);
        if postfix_of(tokens@).is_some() {
            lemma_conversion_keeps_tokens(tokens@);
            lemma_conversion_well_formed(tokens@);
        }
    }
    if !check_shape(tokens) {
        return None;
    }
    let mut output: Vec<PostfixToken> = Vec::new();
    let mut stack: Vec<Pending> = Vec::new();
    let mut i: usize = 0;
    while i < tokens.len()
        invariant
            i <= tokens.len(),
            scan(tokens@.take(i as int)) == Some(Yard { stack: stack@, output: output@ }),
        decreases tokens.len() - i,
    {
        proof {
            assert(tokens@.take(i + 1).drop_last() =~= tokens@.take(i as int));
        }
        match tokens[i] {
            InfixToken::Operand(x) => {
                output.push(PostfixToken::Operand(x));
            },
            InfixToken::LeftParen => {
                stack.push(Pending::LeftParen);
            },
            InfixToken::RightParen => {
                if !close_group(&mut stack, &mut output) {
                    proof {
                        lemma_scan_fails_for_good(tokens@, i + 1);
                        lemma_convertible_iff_valid(tokens@);
                        lemma_conversion_means(tokens@);
                    }
                    return None;
                }
            },
            InfixToken::Operator(op) => {
                let rank: i32 = InfixToken::Operator(op).precedence();
                flush(&mut stack, &mut output, rank);
                stack.push(Pending::Operator(op));
            },
        }
        i += 1;
    }
    proof {
        assert(tokens@.take(i as int) =~= tokens@);
    }
    if drain(&mut stack, &mut output) {
        Some(output)
    } else {
        None
    }
}

} // verus!
