//! What holds of the conversion: which inputs have a postfix form, and how
//! the postfix form relates to the input.

use crate::infix::{
    balanced, depth, ends_value, height, infix_operands, infix_operators, never_starved, pairing_allowed,
    postfix_of, postfix_operands, postfix_operators, scan, starts_value, valid_infix,
    well_formed_postfix, InfixToken, Operator, Pending, PostfixToken, Yard,
};
use vstd::multiset::Multiset;
use vstd::prelude::*;

verus! {

/// The number of opening parentheses on a stack.
pub open spec fn open_parens(stack: Seq<Pending>) -> int
    decreases stack.len(),
{
    if stack.len() == 0 {
        0
    } else {
        open_parens(stack.drop_last()) + if stack.last() is LeftParen {
            1int
        } else {
            0int
        }
    }
}

/// No prefix of `tokens` closes more parentheses than it has opened.
pub open spec fn never_overclosed(tokens: Seq<InfixToken>) -> bool {
    forall|k: int| 0 <= k <= tokens.len() ==> depth(#[trigger] tokens.take(k)) >= 0
}

proof fn lemma_open_parens_nonnegative(stack: Seq<Pending>)
    ensures
        open_parens(stack) >= 0,
    decreases stack.len(),
{
    if stack.len() > 0 {
        lemma_open_parens_nonnegative(stack.drop_last());
    }
}

proof fn lemma_flush_keeps_parens(y: Yard, rank: int)
    ensures
        open_parens(y.flush(rank).stack) == open_parens(y.stack),
    decreases y.stack.len(),
{
    if y.stack.len() > 0 {
        if let Pending::Operator(top) = y.stack.last() {
            if top.rank() >= rank {
                lemma_flush_keeps_parens(y.emit_top(top), rank);
            }
        }
    }
}

proof fn lemma_close_group_parens(y: Yard)
    ensures
        y.close_group().is_some() <==> open_parens(y.stack) > 0,
        y.close_group().is_some() ==> open_parens(y.close_group().unwrap().stack) == open_parens(
            y.stack,
        ) - 1,
    decreases y.stack.len(),
{
    if y.stack.len() > 0 {
        lemma_open_parens_nonnegative(y.stack.drop_last());
        if let Pending::Operator(top) = y.stack.last() {
            lemma_close_group_parens(y.emit_top(top));
        }
    }
}

proof fn lemma_drain_parens(y: Yard)
    ensures
        y.drain().is_some() <==> open_parens(y.stack) == 0,
    decreases y.stack.len(),
{
    if y.stack.len() > 0 {
        lemma_open_parens_nonnegative(y.stack.drop_last());
        if let Pending::Operator(top) = y.stack.last() {
            lemma_drain_parens(y.emit_top(top));
        }
    }
}

proof fn lemma_never_overclosed_unfold(tokens: Seq<InfixToken>)
    requires
        tokens.len() > 0,
    ensures
        never_overclosed(tokens) <==> never_overclosed(tokens.drop_last()) && depth(tokens) >= 0,
{
    let front = tokens.drop_last();
    assert(tokens.take(tokens.len() as int) =~= tokens);
    assert forall|k: int| 0 <= k <= front.len() implies front.take(k) =~= tokens.take(k) by {}
    if never_overclosed(tokens) {
        assert forall|k: int| 0 <= k <= front.len() implies depth(#[trigger] front.take(k))
            >= 0 by {
            assert(front.take(k) =~= tokens.take(k));
        }
    }
    if never_overclosed(front) && depth(tokens) >= 0 {
        assert forall|k: int| 0 <= k <= tokens.len() implies depth(#[trigger] tokens.take(k))
            >= 0 by {
            if k < tokens.len() {
                assert(front.take(k) =~= tokens.take(k));
            }
        }
    }
}

/// The scan goes through exactly where no prefix closes more parentheses
/// than it has opened, and then the stack holds one opening parenthesis for
/// each that is still open.
pub proof fn lemma_scan_counts_parens(tokens: Seq<InfixToken>)
    ensures
        scan(tokens).is_some() <==> never_overclosed(tokens),
        scan(tokens).is_some() ==> open_parens(scan(tokens).unwrap().stack) == depth(tokens),
    decreases tokens.len(),
{
    if tokens.len() == 0 {
        assert forall|k: int| 0 <= k <= tokens.len() implies depth(#[trigger] tokens.take(k))
            >= 0 by {
            assert(tokens.take(k) =~= tokens);
        }
    } else {
        let front = tokens.drop_last();
        lemma_scan_counts_parens(front);
        lemma_never_overclosed_unfold(tokens);
        if let Some(y) = scan(front) {
            lemma_open_parens_nonnegative(y.stack);
            match tokens.last() {
                InfixToken::Operand(_) => {},
                InfixToken::LeftParen => {
                    assert(y.stack.push(Pending::LeftParen).drop_last() =~= y.stack);
                },
                InfixToken::RightParen => {
                    lemma_close_group_parens(y);
                },
                InfixToken::Operator(op) => {
                    lemma_flush_keeps_parens(y, op.rank());
                    let flushed = y.flush(op.rank());
                    assert(flushed.stack.push(Pending::Operator(op)).drop_last()
                        =~= flushed.stack);
                },
            }
        }
    }
}

/// A token sequence has a postfix form exactly if it is a valid infix
/// expression: it meets the shape rules and its parentheses match.
pub proof fn lemma_convertible_iff_valid(tokens: Seq<InfixToken>)
    ensures
        postfix_of(tokens).is_some() <==> valid_infix(tokens),
{
    lemma_scan_counts_parens(tokens);
    if let Some(y) = scan(tokens) {
        lemma_drain_parens(y);
    }
}


/// The operators on a stack, each as often as it occurs.
pub open spec fn pending_operators(stack: Seq<Pending>) -> Multiset<Operator>
    decreases stack.len(),
{
    if stack.len() == 0 {
        Multiset::empty()
    } else {
        match stack.last() {
            Pending::Operator(op) => pending_operators(stack.drop_last()).insert(op),
            Pending::LeftParen => pending_operators(stack.drop_last()),
        }
    }
}

/// The operators that a state holds, on its stack or in its output.
pub open spec fn held_operators(y: Yard) -> Multiset<Operator> {
    postfix_operators(y.output).add(pending_operators(y.stack))
}

proof fn lemma_emit_top_keeps(y: Yard, top: Operator)
    requires
        y.stack.len() > 0,
        y.stack.last() == Pending::Operator(top),
    ensures
        postfix_operands(y.emit_top(top).output) == postfix_operands(y.output),
        held_operators(y.emit_top(top)) == held_operators(y),
{
    let out = y.output.push(PostfixToken::Operator(top));
    assert(out.drop_last() =~= y.output);
    assert(held_operators(y.emit_top(top)) =~= held_operators(y));
}

proof fn lemma_flush_keeps(y: Yard, rank: int)
    ensures
        postfix_operands(y.flush(rank).output) == postfix_operands(y.output),
        held_operators(y.flush(rank)) == held_operators(y),
    decreases y.stack.len(),
{
    if y.stack.len() > 0 {
        if let Pending::Operator(top) = y.stack.last() {
            if top.rank() >= rank {
                lemma_emit_top_keeps(y, top);
                lemma_flush_keeps(y.emit_top(top), rank);
            }
        }
    }
}

proof fn lemma_close_group_keeps(y: Yard)
    requires
        y.close_group().is_some(),
    ensures
        postfix_operands(y.close_group().unwrap().output) == postfix_operands(y.output),
        held_operators(y.close_group().unwrap()) == held_operators(y),
    decreases y.stack.len(),
{
    if let Pending::Operator(top) = y.stack.last() {
        lemma_emit_top_keeps(y, top);
        lemma_close_group_keeps(y.emit_top(top));
    }
}

proof fn lemma_drain_keeps(y: Yard)
    requires
        y.drain().is_some(),
    ensures
        postfix_operands(y.drain().unwrap()) == postfix_operands(y.output),
        postfix_operators(y.drain().unwrap()) == held_operators(y),
    decreases y.stack.len(),
{
    if y.stack.len() == 0 {
        assert(postfix_operators(y.output) =~= held_operators(y));
    } else if let Pending::Operator(top) = y.stack.last() {
        lemma_emit_top_keeps(y, top);
        lemma_drain_keeps(y.emit_top(top));
    }
}

/// While the scan goes on, the output holds the operands read so far in
/// their order, and stack and output together hold the operators read so
/// far.
pub proof fn lemma_scan_keeps(tokens: Seq<InfixToken>)
    requires
        scan(tokens).is_some(),
    ensures
        postfix_operands(scan(tokens).unwrap().output) == infix_operands(tokens),
        held_operators(scan(tokens).unwrap()) == infix_operators(tokens),
    decreases tokens.len(),
{
    if tokens.len() == 0 {
        assert(held_operators(Yard::empty()) =~= infix_operators(tokens));
    } else {
        let front = tokens.drop_last();
        lemma_scan_keeps(front);
        let y = scan(front).unwrap();
        let z = scan(tokens).unwrap();
        match tokens.last() {
            InfixToken::Operand(x) => {
                assert(z.output.drop_last() =~= y.output);
                assert(held_operators(z) =~= held_operators(y));
            },
            InfixToken::LeftParen => {
                assert(z.stack.drop_last() =~= y.stack);
                assert(held_operators(z) =~= held_operators(y));
            },
            InfixToken::RightParen => {
                lemma_close_group_keeps(y);
            },
            InfixToken::Operator(op) => {
                lemma_flush_keeps(y, op.rank());
                let flushed = y.flush(op.rank());
                assert(z.stack.drop_last() =~= flushed.stack);
                assert(held_operators(z) =~= held_operators(flushed).insert(op));
            },
        }
    }
}

/// The postfix form holds the operands of the input in their order, and the
/// operators of the input, each as often as the input holds it. So the two
/// have as many operands, and as many operators.
pub proof fn lemma_conversion_keeps_tokens(tokens: Seq<InfixToken>)
    requires
        postfix_of(tokens).is_some(),
    ensures
        postfix_operands(postfix_of(tokens).unwrap()) == infix_operands(tokens),
        postfix_operators(postfix_of(tokens).unwrap()) == infix_operators(tokens),
        postfix_operands(postfix_of(tokens).unwrap()).len() == infix_operands(tokens).len(),
        postfix_operators(postfix_of(tokens).unwrap()).len() == infix_operators(tokens).len(),
{
    lemma_scan_keeps(tokens);
    lemma_drain_keeps(scan(tokens).unwrap());
}


/// The number of operators on a stack.
pub open spec fn pending_count(stack: Seq<Pending>) -> int
    decreases stack.len(),
{
    if stack.len() == 0 {
        0
    } else {
        pending_count(stack.drop_last()) + if stack.last() is Operator {
            1int
        } else {
            0int
        }
    }
}

/// The shape rules that every prefix of a well-shaped sequence meets: what
/// may begin it, and which tokens may stand next to each other.
pub open spec fn shape_so_far(tokens: Seq<InfixToken>) -> bool {
    &&& tokens.len() > 0 ==> starts_value(tokens.first())
    &&& forall|i: int| 0 <= i < tokens.len() - 1 ==> pairing_allowed(#[trigger] tokens[i], tokens[i + 1])
}

/// The sequence ends where a value is complete, so that an operator or a
/// closing parenthesis may follow.
pub open spec fn value_complete(tokens: Seq<InfixToken>) -> bool {
    tokens.len() > 0 && ends_value(tokens.last())
}

/// The output can be evaluated as far as it goes, and leaves one value for
/// each pending operator, and one more where a value is complete.
pub open spec fn poised(y: Yard, complete: bool) -> bool {
    &&& never_starved(y.output)
    &&& height(y.output) == pending_count(y.stack) + if complete {
        1int
    } else {
        0int
    }
}

proof fn lemma_pending_count_nonnegative(stack: Seq<Pending>)
    ensures
        pending_count(stack) >= 0,
    decreases stack.len(),
{
    if stack.len() > 0 {
        lemma_pending_count_nonnegative(stack.drop_last());
    }
}

proof fn lemma_never_starved_push(out: Seq<PostfixToken>, t: PostfixToken)
    requires
        never_starved(out),
        height(out.push(t)) >= 1,
    ensures
        never_starved(out.push(t)),
{
    let longer = out.push(t);
    assert forall|k: int| 1 <= k <= longer.len() implies height(#[trigger] longer.take(k))
        >= 1 by {
        if k < longer.len() {
            assert(longer.take(k) =~= out.take(k));
        } else {
            assert(longer.take(k) =~= longer);
        }
    }
}

proof fn lemma_emit_top_poised(y: Yard, top: Operator)
    requires
        y.stack.len() > 0,
        y.stack.last() == Pending::Operator(top),
        poised(y, true),
    ensures
        poised(y.emit_top(top), true),
{
    let t = PostfixToken::Operator(top);
    lemma_pending_count_nonnegative(y.stack.drop_last());
    assert(y.output.push(t).drop_last() =~= y.output);
    lemma_never_starved_push(y.output, t);
}

proof fn lemma_flush_poised(y: Yard, rank: int)
    requires
        poised(y, true),
    ensures
        poised(y.flush(rank), true),
    decreases y.stack.len(),
{
    if y.stack.len() > 0 {
        if let Pending::Operator(top) = y.stack.last() {
            if top.rank() >= rank {
                lemma_emit_top_poised(y, top);
                lemma_flush_poised(y.emit_top(top), rank);
            }
        }
    }
}

proof fn lemma_close_group_poised(y: Yard)
    requires
        poised(y, true),
        y.close_group().is_some(),
    ensures
        poised(y.close_group().unwrap(), true),
    decreases y.stack.len(),
{
    if let Pending::Operator(top) = y.stack.last() {
        lemma_emit_top_poised(y, top);
        lemma_close_group_poised(y.emit_top(top));
    }
}

proof fn lemma_drain_poised(y: Yard)
    requires
        poised(y, true),
        y.drain().is_some(),
    ensures
        well_formed_postfix(y.drain().unwrap()),
    decreases y.stack.len(),
{
    if y.stack.len() > 0 {
        if let Pending::Operator(top) = y.stack.last() {
            lemma_emit_top_poised(y, top);
            lemma_drain_poised(y.emit_top(top));
        }
    }
}

/// While the scan goes on over a well-shaped sequence, the output can be
/// evaluated as far as it goes.
pub proof fn lemma_scan_poised(tokens: Seq<InfixToken>)
    requires
        shape_so_far(tokens),
        scan(tokens).is_some(),
    ensures
        poised(scan(tokens).unwrap(), value_complete(tokens)),
    decreases tokens.len(),
{
    if tokens.len() == 0 {
        assert forall|k: int| 1 <= k <= 0 implies height(
            #[trigger] Seq::<PostfixToken>::empty().take(k),
        ) >= 1 by {}
    } else {
        let front = tokens.drop_last();
        assert forall|i: int| 0 <= i < front.len() - 1 implies pairing_allowed(
            #[trigger] front[i],
            front[i + 1],
        ) by {
            assert(pairing_allowed(tokens[i], tokens[i + 1]));
        }
        if front.len() > 0 {
            assert(front.first() == tokens.first());
            assert(pairing_allowed(tokens[front.len() - 1], tokens[front.len() - 1 + 1]));
            assert(front.last() == tokens[front.len() - 1]);
        }
        lemma_scan_poised(front);
        let y = scan(front).unwrap();
        let z = scan(tokens).unwrap();
        lemma_pending_count_nonnegative(y.stack);
        match tokens.last() {
            InfixToken::Operand(x) => {
                let t = PostfixToken::Operand(x);
                assert(y.output.push(t).drop_last() =~= y.output);
                lemma_never_starved_push(y.output, t);
            },
            InfixToken::LeftParen => {
                assert(z.stack.drop_last() =~= y.stack);
            },
            InfixToken::RightParen => {
                lemma_close_group_poised(y);
            },
            InfixToken::Operator(op) => {
                lemma_flush_poised(y, op.rank());
                let flushed = y.flush(op.rank());
                assert(z.stack.drop_last() =~= flushed.stack);
            },
        }
    }
}

/// The postfix form of a valid infix expression can be evaluated: each of
/// its operators finds two operands, and one value is left at the end.
pub proof fn lemma_conversion_well_formed(tokens: Seq<InfixToken>)
    requires
        postfix_of(tokens).is_some(),
    ensures
        well_formed_postfix(postfix_of(tokens).unwrap()),
{
    lemma_scan_poised(tokens);
    lemma_drain_poised(scan(tokens).unwrap());
}


/// The empty sequence is no expression.
pub proof fn lemma_empty_is_invalid()
    ensures
        postfix_of(Seq::empty()) is None,
{
}

/// A single operand is an expression, and is its own postfix form.
pub proof fn lemma_single_operand(x: isize)
    ensures
        postfix_of(seq![InfixToken::Operand(x)]) == Some(seq![PostfixToken::Operand(x)]),
{
    let tokens = seq![InfixToken::Operand(x)];
    assert(tokens.drop_last() =~= Seq::empty());
    assert(scan(tokens.drop_last()) == Some(Yard::empty()));
    assert(Seq::<PostfixToken>::empty().push(PostfixToken::Operand(x))
        =~= seq![PostfixToken::Operand(x)]);
}

/// No expression begins with an operator or with a closing parenthesis.
pub proof fn lemma_bad_start_is_invalid(tokens: Seq<InfixToken>)
    requires
        tokens.len() > 0,
        tokens.first() is Operator || tokens.first() is RightParen,
    ensures
        postfix_of(tokens) is None,
{
}

/// No expression ends with an operator or with an opening parenthesis.
pub proof fn lemma_bad_end_is_invalid(tokens: Seq<InfixToken>)
    requires
        tokens.len() > 0,
        tokens.last() is Operator || tokens.last() is LeftParen,
    ensures
        postfix_of(tokens) is None,
{
}

/// No expression holds two neighbours that do not form an allowed pair: two
/// operators, two operands, an operand before an opening parenthesis, an
/// empty pair of parentheses, and so on.
pub proof fn lemma_bad_pair_is_invalid(tokens: Seq<InfixToken>, i: int)
    requires
        0 <= i < tokens.len() - 1,
        !pairing_allowed(tokens[i], tokens[i + 1]),
    ensures
        postfix_of(tokens) is None,
{
}

/// No expression has a parenthesis without its partner.
pub proof fn lemma_unbalanced_is_invalid(tokens: Seq<InfixToken>)
    requires
        !balanced(tokens),
    ensures
        postfix_of(tokens) is None,
{
    lemma_convertible_iff_valid(tokens);
}

} // verus!
