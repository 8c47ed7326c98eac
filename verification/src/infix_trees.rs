//! What the conversion means: an expression written in infix the usual way
//! is converted to the postorder of its tree.

use crate::infix::{
    balanced, depth, pairing_allowed, postfix_of, scan, shape_ok, valid_infix, InfixToken, Operator,
    Pending, PostfixToken, Yard,
};
use crate::infix_laws::lemma_convertible_iff_valid;
use vstd::prelude::*;

verus! {

/// An arithmetic expression: a number, or an operator applied to two
/// expressions.
pub enum Expr {
    Num(isize),
    Bin(Operator, Box<Expr>, Box<Expr>),
}

/// An expression as it is written down in infix: a number, a group in
/// parentheses, or an operator between two written expressions.
pub enum Written {
    Num(isize),
    Group(Box<Written>),
    Bin(Operator, Box<Written>, Box<Written>),
}

impl Expr {
    /// The postfix form of the expression: its left operand, its right
    /// operand, its operator.
    pub open spec fn postfix(self) -> Seq<PostfixToken>
        decreases self,
    {
        match self {
            Expr::Num(x) => seq![PostfixToken::Operand(x)],
            Expr::Bin(op, left, right) => left.postfix() + right.postfix()
                + seq![PostfixToken::Operator(op)],
        }
    }
}

impl Written {
    /// The tokens of the written expression, from left to right.
    pub open spec fn tokens(self) -> Seq<InfixToken>
        decreases self,
    {
        match self {
            Written::Num(x) => seq![InfixToken::Operand(x)],
            Written::Group(inner) => seq![InfixToken::LeftParen] + inner.tokens()
                + seq![InfixToken::RightParen],
            Written::Bin(op, left, right) => left.tokens() + seq![InfixToken::Operator(op)]
                + right.tokens(),
        }
    }

    /// The expression that is written: the same tree without its groups.
    pub open spec fn expr(self) -> Expr
        decreases self,
    {
        match self {
            Written::Num(x) => Expr::Num(x),
            Written::Group(inner) => inner.expr(),
            Written::Bin(op, left, right) => Expr::Bin(
                op,
                Box::new(left.expr()),
                Box::new(right.expr()),
            ),
        }
    }

    /// The rank of the operator that is applied last and stands outside
    /// every group; 3, above every operator's rank, where there is none.
    pub open spec fn outer_rank(self) -> int {
        match self {
            Written::Bin(op, _, _) => op.rank(),
            _ => 3,
        }
    }

    /// The expression is written as precedence and grouping from the left
    /// ask: an operand that is itself an operation outside parentheses binds
    /// at least as tightly as the operator if it stands to its left, and
    /// more tightly if it stands to its right.
    pub open spec fn conventional(self) -> bool
        decreases self,
    {
        match self {
            Written::Num(_) => true,
            Written::Group(inner) => inner.conventional(),
            Written::Bin(op, left, right) => {
                &&& left.conventional()
                &&& right.conventional()
                &&& left.outer_rank() >= op.rank()
                &&& right.outer_rank() > op.rank()
            },
        }
    }

    /// The operators that wait on the stack when the expression has been
    /// read: the last operator outside every group, and those that wait
    /// after its right operand.
    pub open spec fn waiting(self) -> Seq<Pending>
        decreases self,
    {
        match self {
            Written::Bin(op, _, right) => seq![Pending::Operator(op)] + right.waiting(),
            _ => Seq::empty(),
        }
    }

    /// The postfix tokens that have been written when the expression has
    /// been read.
    pub open spec fn settled(self) -> Seq<PostfixToken>
        decreases self,
    {
        match self {
            Written::Num(x) => seq![PostfixToken::Operand(x)],
            Written::Group(inner) => inner.expr().postfix(),
            Written::Bin(_, left, right) => left.expr().postfix() + right.settled(),
        }
    }
}

/// The state after `tokens`, read from left to right in the state `y`.
pub open spec fn scan_from(y: Yard, tokens: Seq<InfixToken>) -> Option<Yard>
    decreases tokens.len(),
{
    if tokens.len() == 0 {
        Some(y)
    } else {
        match scan_from(y, tokens.drop_last()) {
            Some(z) => z.step(tokens.last()),
            None => None,
        }
    }
}

/// The operators of `waiting` as they go to the output: the top first.
pub open spec fn emitted(waiting: Seq<Pending>) -> Seq<PostfixToken>
    decreases waiting.len(),
{
    if waiting.len() == 0 {
        Seq::empty()
    } else {
        match waiting.last() {
            Pending::Operator(op) => seq![PostfixToken::Operator(op)] + emitted(
                waiting.drop_last(),
            ),
            Pending::LeftParen => emitted(waiting.drop_last()),
        }
    }
}

/// Every entry of `waiting` is an operator of rank `rank` or more.
pub open spec fn all_at_least(waiting: Seq<Pending>, rank: int) -> bool {
    forall|i: int|
        0 <= i < waiting.len() ==> match #[trigger] waiting[i] {
            Pending::Operator(op) => op.rank() >= rank,
            Pending::LeftParen => false,
        }
}

/// An operator of rank `rank` leaves the stack as it is: the stack is
/// empty, or its top is an opening parenthesis or an operator of a lower
/// rank.
pub open spec fn guarded(stack: Seq<Pending>, rank: int) -> bool {
    stack.len() > 0 ==> match stack.last() {
        Pending::Operator(op) => op.rank() < rank,
        Pending::LeftParen => true,
    }
}

/// Reading from the empty state is the scan.
pub proof fn lemma_scan_from_empty(tokens: Seq<InfixToken>)
    ensures
        scan_from(Yard::empty(), tokens) == scan(tokens),
    decreases tokens.len(),
{
    if tokens.len() > 0 {
        lemma_scan_from_empty(tokens.drop_last());
    }
}

/// Reading two sequences one after the other is reading the first and then,
/// in the state that it leaves, the second.
pub proof fn lemma_scan_from_concat(y: Yard, a: Seq<InfixToken>, b: Seq<InfixToken>)
    ensures
        scan_from(y, a + b) == match scan_from(y, a) {
            Some(z) => scan_from(z, b),
            None => None,
        },
    decreases b.len(),
{
    if b.len() == 0 {
        assert(a + b =~= a);
    } else {
        assert((a + b).drop_last() =~= a + b.drop_last());
        lemma_scan_from_concat(y, a, b.drop_last());
    }
}

/// Reading one token is one step.
pub proof fn lemma_scan_from_one(y: Yard, t: InfixToken)
    ensures
        scan_from(y, seq![t]) == y.step(t),
{
    assert(seq![t].drop_last() =~= Seq::<InfixToken>::empty());
    assert(scan_from(y, seq![t].drop_last()) == Some(y));
}


proof fn lemma_waiting_ranks(w: Written)
    requires
        w.conventional(),
    ensures
        all_at_least(w.waiting(), w.outer_rank()),
    decreases w,
{
    match w {
        Written::Bin(op, left, right) => {
            lemma_waiting_ranks(*right);
        },
        _ => {},
    }
}

proof fn lemma_emitted_front(first: Pending, rest: Seq<Pending>)
    ensures
        emitted(seq![first] + rest) == emitted(rest) + emitted(seq![first]),
    decreases rest.len(),
{
    let all = seq![first] + rest;
    if rest.len() == 0 {
        assert(all =~= seq![first]);
        assert(emitted(rest) + emitted(seq![first]) =~= emitted(seq![first]));
    } else {
        assert(all.drop_last() =~= seq![first] + rest.drop_last());
        lemma_emitted_front(first, rest.drop_last());
        match rest.last() {
            Pending::Operator(op) => {
                assert(emitted(all) =~= emitted(rest) + emitted(seq![first]));
            },
            Pending::LeftParen => {},
        }
    }
}

proof fn lemma_settled_then_emitted(w: Written)
    ensures
        w.settled() + emitted(w.waiting()) == w.expr().postfix(),
    decreases w,
{
    match w {
        Written::Num(x) => {
            assert(w.settled() + emitted(w.waiting()) =~= w.expr().postfix());
        },
        Written::Group(inner) => {
            assert(w.settled() + emitted(w.waiting()) =~= w.expr().postfix());
        },
        Written::Bin(op, left, right) => {
            lemma_settled_then_emitted(*right);
            let first = Pending::Operator(op);
            lemma_emitted_front(first, right.waiting());
            assert(seq![first].drop_last() =~= Seq::<Pending>::empty());
            assert(seq![first].last() == first);
            assert(emitted(Seq::<Pending>::empty()) =~= Seq::<PostfixToken>::empty());
            assert(emitted(seq![first]) =~= seq![PostfixToken::Operator(op)]);
            assert(w.settled() + emitted(w.waiting()) =~= left.expr().postfix() + (right.settled()
                + emitted(right.waiting())) + seq![PostfixToken::Operator(op)]);
        },
    }
}

proof fn lemma_flush_waiting(
    base: Seq<Pending>,
    waiting: Seq<Pending>,
    out: Seq<PostfixToken>,
    rank: int,
)
    requires
        all_at_least(waiting, rank),
        guarded(base, rank),
    ensures
        (Yard { stack: base + waiting, output: out }).flush(rank) == (Yard {
            stack: base,
            output: out + emitted(waiting),
        }),
    decreases waiting.len(),
{
    let y = Yard { stack: base + waiting, output: out };
    if waiting.len() == 0 {
        assert(base + waiting =~= base);
        assert(out + emitted(waiting) =~= out);
    } else {
        let top = waiting.last();
        assert(waiting[waiting.len() - 1] == top);
        assert(y.stack.last() == top);
        match top {
            Pending::Operator(op) => {
                let next_out = out.push(PostfixToken::Operator(op));
                assert(y.stack.drop_last() =~= base + waiting.drop_last());
                lemma_flush_waiting(base, waiting.drop_last(), next_out, rank);
                assert(next_out + emitted(waiting.drop_last()) =~= out + emitted(waiting));
            },
            Pending::LeftParen => {},
        }
    }
}

proof fn lemma_close_waiting(base: Seq<Pending>, waiting: Seq<Pending>, out: Seq<PostfixToken>)
    requires
        all_at_least(waiting, 0),
    ensures
        (Yard { stack: base.push(Pending::LeftParen) + waiting, output: out }).close_group()
            == Some(Yard { stack: base, output: out + emitted(waiting) }),
    decreases waiting.len(),
{
    let opened = base.push(Pending::LeftParen);
    let y = Yard { stack: opened + waiting, output: out };
    if waiting.len() == 0 {
        assert(opened + waiting =~= opened);
        assert(opened.drop_last() =~= base);
        assert(out + emitted(waiting) =~= out);
    } else {
        let top = waiting.last();
        assert(waiting[waiting.len() - 1] == top);
        assert(y.stack.last() == top);
        match top {
            Pending::Operator(op) => {
                let next_out = out.push(PostfixToken::Operator(op));
                assert(y.stack.drop_last() =~= opened + waiting.drop_last());
                lemma_close_waiting(base, waiting.drop_last(), next_out);
                assert(next_out + emitted(waiting.drop_last()) =~= out + emitted(waiting));
            },
            Pending::LeftParen => {},
        }
    }
}

proof fn lemma_drain_waiting(waiting: Seq<Pending>, out: Seq<PostfixToken>)
    requires
        all_at_least(waiting, 0),
    ensures
        (Yard { stack: waiting, output: out }).drain() == Some(out + emitted(waiting)),
    decreases waiting.len(),
{
    if waiting.len() == 0 {
        assert(out + emitted(waiting) =~= out);
    } else {
        let top = waiting.last();
        assert(waiting[waiting.len() - 1] == top);
        match top {
            Pending::Operator(op) => {
                let next_out = out.push(PostfixToken::Operator(op));
                lemma_drain_waiting(waiting.drop_last(), next_out);
                assert(next_out + emitted(waiting.drop_last()) =~= out + emitted(waiting));
            },
            Pending::LeftParen => {},
        }
    }
}

proof fn lemma_all_at_least_lower(waiting: Seq<Pending>, rank: int, lower: int)
    requires
        all_at_least(waiting, rank),
        lower <= rank,
    ensures
        all_at_least(waiting, lower),
{
}

/// Reading a written expression, in a state whose stack its operators leave
/// alone, writes what is settled of it and leaves its waiting operators on
/// top of the stack.
pub proof fn lemma_scan_written(w: Written, y: Yard)
    requires
        w.conventional(),
        guarded(y.stack, w.outer_rank()),
    ensures
        scan_from(y, w.tokens()) == Some(
            Yard { stack: y.stack + w.waiting(), output: y.output + w.settled() },
        ),
    decreases w,
{
    match w {
        Written::Num(x) => {
            lemma_scan_from_one(y, InfixToken::Operand(x));
            assert(y.stack + w.waiting() =~= y.stack);
            assert(y.output + w.settled() =~= y.output.push(PostfixToken::Operand(x)));
        },
        Written::Group(inner) => {
            let open = seq![InfixToken::LeftParen];
            let close = seq![InfixToken::RightParen];
            let y1 = Yard { stack: y.stack.push(Pending::LeftParen), output: y.output };
            lemma_scan_from_one(y, InfixToken::LeftParen);
            lemma_scan_from_concat(y, open, inner.tokens());
            lemma_scan_written(*inner, y1);
            let z = Yard { stack: y1.stack + inner.waiting(), output: y.output + inner.settled() };
            assert(scan_from(y, open + inner.tokens()) == Some(z));
            lemma_scan_from_concat(y, open + inner.tokens(), close);
            lemma_scan_from_one(z, InfixToken::RightParen);
            lemma_waiting_ranks(*inner);
            lemma_all_at_least_lower(inner.waiting(), inner.outer_rank(), 0);
            lemma_close_waiting(y.stack, inner.waiting(), z.output);
            lemma_settled_then_emitted(*inner);
            assert(z.output + emitted(inner.waiting()) =~= y.output + w.settled());
            assert(y.stack + w.waiting() =~= y.stack);
        },
        Written::Bin(op, left, right) => {
            let middle = seq![InfixToken::Operator(op)];
            // the left operand
            lemma_scan_written(*left, y);
            let z1 = Yard { stack: y.stack + left.waiting(), output: y.output + left.settled() };
            // the operator
            lemma_scan_from_concat(y, left.tokens(), middle);
            lemma_scan_from_one(z1, InfixToken::Operator(op));
            lemma_waiting_ranks(*left);
            lemma_all_at_least_lower(left.waiting(), left.outer_rank(), op.rank());
            lemma_flush_waiting(y.stack, left.waiting(), z1.output, op.rank());
            lemma_settled_then_emitted(*left);
            let z2 = Yard {
                stack: y.stack.push(Pending::Operator(op)),
                output: y.output + left.expr().postfix(),
            };
            assert(z1.output + emitted(left.waiting()) =~= z2.output);
            assert(scan_from(y, left.tokens() + middle) == Some(z2));
            // the right operand
            lemma_scan_from_concat(y, left.tokens() + middle, right.tokens());
            lemma_scan_written(*right, z2);
            assert(z2.stack + right.waiting() =~= y.stack + w.waiting());
            assert(z2.output + right.settled() =~= y.output + w.settled());
        },
    }
}

proof fn lemma_written_shape(w: Written)
    ensures
        shape_ok(w.tokens()),
    decreases w,
{
    let all = w.tokens();
    match w {
        Written::Num(x) => {},
        Written::Group(inner) => {
            lemma_written_shape(*inner);
            let t = inner.tokens();
            assert forall|i: int| 0 <= i < all.len() - 1 implies pairing_allowed(
                #[trigger] all[i],
                all[i + 1],
            ) by {
                if i == 0 {
                    assert(all[1] == t[0]);
                } else if i < t.len() {
                    assert(all[i] == t[i - 1] && all[i + 1] == t[i - 1 + 1]);
                    assert(pairing_allowed(t[i - 1], t[i - 1 + 1]));
                } else {
                    assert(all[i] == t[t.len() - 1]);
                }
            }
        },
        Written::Bin(op, left, right) => {
            lemma_written_shape(*left);
            lemma_written_shape(*right);
            let l = left.tokens();
            let r = right.tokens();
            assert(all.first() == l[0]);
            assert(all.last() == r[r.len() - 1]);
            assert forall|i: int| 0 <= i < all.len() - 1 implies pairing_allowed(
                #[trigger] all[i],
                all[i + 1],
            ) by {
                if i < l.len() - 1 {
                    assert(all[i] == l[i] && all[i + 1] == l[i + 1]);
                    assert(pairing_allowed(l[i], l[i + 1]));
                } else if i == l.len() - 1 {
                    assert(all[i] == l[l.len() - 1]);
                } else if i == l.len() {
                    assert(all[i + 1] == r[0]);
                } else {
                    let j = i - l.len() - 1;
                    assert(all[i] == r[j] && all[i + 1] == r[j + 1]);
                    assert(pairing_allowed(r[j], r[j + 1]));
                }
            }
        },
    }
}

/// An expression written in infix, with parentheses wherever precedence and
/// grouping from the left would read it otherwise and with any others
/// besides, is converted to the postfix form of the expression.
pub proof fn lemma_conversion_of_written(w: Written)
    requires
        w.conventional(),
    ensures
        postfix_of(w.tokens()) == Some(w.expr().postfix()),
{
    lemma_written_shape(w);
    lemma_scan_from_empty(w.tokens());
    lemma_scan_written(w, Yard::empty());
    lemma_waiting_ranks(w);
    lemma_all_at_least_lower(w.waiting(), w.outer_rank(), 0);
    let z = Yard {
        stack: Seq::<Pending>::empty() + w.waiting(),
        output: Seq::<PostfixToken>::empty() + w.settled(),
    };
    assert(z.stack =~= w.waiting());
    assert(z.output =~= w.settled());
    lemma_drain_waiting(w.waiting(), w.settled());
    lemma_settled_then_emitted(w);
}

/// What token `t` adds to the depth: one for an opening parenthesis, minus
/// one for a closing one.
pub open spec fn depth_step(t: InfixToken) -> int {
    match t {
        InfixToken::LeftParen => 1,
        InfixToken::RightParen => -1,
        _ => 0,
    }
}

/// Token `i` of `tokens` is an operator outside every pair of parentheses.
pub open spec fn open_operator(tokens: Seq<InfixToken>, i: int) -> bool {
    &&& 0 <= i < tokens.len()
    &&& tokens[i] is Operator
    &&& depth(tokens.take(i)) == 0
}

/// The rank of token `t` if it is an operator, and 0 otherwise.
pub open spec fn rank_of(t: InfixToken) -> int {
    match t {
        InfixToken::Operator(op) => op.rank(),
        _ => 0,
    }
}

/// The last operator before token `n` that stands outside every pair of
/// parentheses and has rank `rank` or less; -1 if there is none.
pub open spec fn last_open_operator(tokens: Seq<InfixToken>, rank: int, n: int) -> int
    decreases n,
{
    if n <= 0 {
        -1
    } else if open_operator(tokens, n - 1) && rank_of(tokens[n - 1]) <= rank {
        n - 1
    } else {
        last_open_operator(tokens, rank, n - 1)
    }
}

proof fn lemma_last_open_operator(tokens: Seq<InfixToken>, rank: int, n: int)
    requires
        0 <= n <= tokens.len(),
    ensures
        -1 <= last_open_operator(tokens, rank, n) < n,
        last_open_operator(tokens, rank, n) >= 0 ==> {
            &&& open_operator(tokens, last_open_operator(tokens, rank, n))
            &&& rank_of(tokens[last_open_operator(tokens, rank, n)]) <= rank
        },
        forall|j: int|
            last_open_operator(tokens, rank, n) < j < n ==> !(#[trigger] open_operator(tokens, j)
                && rank_of(tokens[j]) <= rank),
    decreases n,
{
    if n > 0 {
        lemma_last_open_operator(tokens, rank, n - 1);
    }
}

proof fn lemma_depth_next(tokens: Seq<InfixToken>, k: int)
    requires
        0 <= k < tokens.len(),
    ensures
        depth(tokens.take(k + 1)) == depth(tokens.take(k)) + depth_step(tokens[k]),
{
    assert(tokens.take(k + 1).drop_last() =~= tokens.take(k));
}

proof fn lemma_depth_concat(a: Seq<InfixToken>, b: Seq<InfixToken>)
    ensures
        depth(a + b) == depth(a) + depth(b),
    decreases b.len(),
{
    if b.len() == 0 {
        assert(a + b =~= a);
    } else {
        assert((a + b).drop_last() =~= a + b.drop_last());
        lemma_depth_concat(a, b.drop_last());
    }
}

proof fn lemma_left_of_operator(tokens: Seq<InfixToken>, i: int)
    requires
        valid_infix(tokens),
        open_operator(tokens, i),
    ensures
        valid_infix(tokens.take(i)),
        forall|j: int| #[trigger]
            open_operator(tokens.take(i), j) ==> open_operator(tokens, j) && tokens.take(i)[j]
                == tokens[j],
{
    let left = tokens.take(i);
    assert(i > 0);
    assert(pairing_allowed(tokens[i - 1], tokens[i - 1 + 1]));
    assert(left.last() == tokens[i - 1]);
    assert forall|j: int| 0 <= j < left.len() - 1 implies pairing_allowed(
        #[trigger] left[j],
        left[j + 1],
    ) by {
        assert(pairing_allowed(tokens[j], tokens[j + 1]));
    }
    assert forall|k: int| 0 <= k <= left.len() implies depth(#[trigger] left.take(k)) >= 0 by {
        assert(left.take(k) =~= tokens.take(k));
    }
    assert forall|j: int| #[trigger] open_operator(left, j) implies open_operator(tokens, j)
        && left[j] == tokens[j] by {
        assert(left.take(j) =~= tokens.take(j));
    }
}

proof fn lemma_depth_after(tokens: Seq<InfixToken>, m: int, k: int)
    requires
        0 <= m,
        0 <= k,
        m + k <= tokens.len(),
    ensures
        depth(tokens.take(m + k)) == depth(tokens.take(m)) + depth(tokens.skip(m).take(k)),
{
    assert(tokens.take(m + k) =~= tokens.take(m) + tokens.skip(m).take(k));
    lemma_depth_concat(tokens.take(m), tokens.skip(m).take(k));
}

proof fn lemma_right_shape(tokens: Seq<InfixToken>, i: int)
    requires
        shape_ok(tokens),
        0 <= i < tokens.len(),
        tokens[i] is Operator,
    ensures
        i + 1 < tokens.len(),
        shape_ok(tokens.skip(i + 1)),
{
    let right = tokens.skip(i + 1);
    assert(i + 1 < tokens.len());
    assert(pairing_allowed(tokens[i], tokens[i + 1]));
    assert(right.first() == tokens[i + 1]);
    assert(right.last() == tokens.last());
    assert forall|j: int| 0 <= j < right.len() - 1 implies pairing_allowed(
        #[trigger] right[j],
        right[j + 1],
    ) by {
        assert(right[j] == tokens[i + 1 + j] && right[j + 1] == tokens[i + 1 + j + 1]);
        assert(pairing_allowed(tokens[i + 1 + j], tokens[i + 1 + j + 1]));
    }
}

proof fn lemma_right_depth(tokens: Seq<InfixToken>, i: int, k: int)
    requires
        open_operator(tokens, i),
        0 <= k,
        i + 1 + k <= tokens.len(),
    ensures
        depth(tokens.skip(i + 1).take(k)) == depth(tokens.take(i + 1 + k)),
{
    lemma_depth_next(tokens, i);
    lemma_depth_after(tokens, i + 1, k);
}

proof fn lemma_right_of_operator(tokens: Seq<InfixToken>, i: int)
    requires
        valid_infix(tokens),
        open_operator(tokens, i),
    ensures
        i + 1 < tokens.len(),
        valid_infix(tokens.skip(i + 1)),
        forall|j: int| #[trigger]
            open_operator(tokens.skip(i + 1), j) ==> open_operator(tokens, i + 1 + j)
                && tokens.skip(i + 1)[j] == tokens[i + 1 + j],
{
    let right = tokens.skip(i + 1);
    lemma_right_shape(tokens, i);
    assert forall|k: int| 0 <= k <= right.len() implies depth(#[trigger] right.take(k)) >= 0 by {
        lemma_right_depth(tokens, i, k);
    }
    assert(depth(right) == 0) by {
        lemma_right_depth(tokens, i, right.len() as int);
        assert(right.take(right.len() as int) =~= right);
        assert(tokens.take(i + 1 + right.len()) =~= tokens);
    }
    assert forall|j: int| #[trigger] open_operator(right, j) implies open_operator(
        tokens,
        i + 1 + j,
    ) && right[j] == tokens[i + 1 + j] by {
        lemma_right_depth(tokens, i, j);
    }
}

/// No operator of `tokens` stands outside every pair of parentheses.
pub open spec fn no_open_operator(tokens: Seq<InfixToken>) -> bool {
    forall|j: int| !#[trigger] open_operator(tokens, j)
}

proof fn lemma_lone_operand(tokens: Seq<InfixToken>)
    requires
        valid_infix(tokens),
        tokens[0] is Operand,
        no_open_operator(tokens),
    ensures
        tokens.len() == 1,
{
    if tokens.len() > 1 {
        lemma_depth_next(tokens, 0);
        lemma_depth_next(tokens, 1);
        assert(depth(tokens.take(0)) == 0);
        assert(pairing_allowed(tokens[0int], tokens[0int + 1]));
        assert(!open_operator(tokens, 1));
        assert(depth(tokens.take(2)) >= 0);
    }
}

proof fn lemma_inside_group(tokens: Seq<InfixToken>, k: int)
    requires
        valid_infix(tokens),
        tokens[0] is LeftParen,
        no_open_operator(tokens),
        1 <= k <= tokens.len() - 1,
    ensures
        depth(tokens.take(k)) >= 1,
    decreases k,
{
    lemma_depth_next(tokens, k - 1);
    if k == 1 {
        assert(depth(tokens.take(0)) == 0);
    } else {
        lemma_inside_group(tokens, k - 1);
        if depth(tokens.take(k)) < 1 {
            // token k - 1 closes the group, and nothing may follow it
            assert(tokens[k - 1] is RightParen);
            assert(pairing_allowed(tokens[k - 1], tokens[k - 1 + 1]));
            assert(!open_operator(tokens, k));
            lemma_depth_next(tokens, k);
            assert(depth(tokens.take(k + 1)) >= 0);
        }
    }
}

proof fn lemma_group_inner(tokens: Seq<InfixToken>)
    requires
        valid_infix(tokens),
        tokens[0] is LeftParen,
        no_open_operator(tokens),
    ensures
        tokens.len() >= 3,
        tokens.last() is RightParen,
        valid_infix(tokens.subrange(1, tokens.len() - 1)),
{
    let n = tokens.len() as int;
    assert(n >= 2);
    assert(tokens.take(n) =~= tokens);
    lemma_inside_group(tokens, n - 1);
    lemma_depth_next(tokens, n - 1);
    assert(tokens.last() is RightParen);
    assert(pairing_allowed(tokens[0int], tokens[0int + 1]));
    assert(n >= 3);
    let inner = tokens.subrange(1, n - 1);
    assert(pairing_allowed(tokens[n - 2], tokens[n - 2 + 1]));
    assert(inner.first() == tokens[1]);
    assert(inner.last() == tokens[n - 2]);
    assert forall|j: int| 0 <= j < inner.len() - 1 implies pairing_allowed(
        #[trigger] inner[j],
        inner[j + 1],
    ) by {
        assert(inner[j] == tokens[j + 1] && inner[j + 1] == tokens[j + 1 + 1]);
        assert(pairing_allowed(tokens[j + 1], tokens[j + 1 + 1]));
    }
    let open = seq![InfixToken::LeftParen];
    assert(open.drop_last() =~= Seq::<InfixToken>::empty());
    assert(open.last() == InfixToken::LeftParen);
    assert(depth(Seq::<InfixToken>::empty()) == 0);
    assert(depth(open) == 1);
    assert forall|k: int| 0 <= k <= inner.len() implies depth(#[trigger] inner.take(k)) == depth(
        tokens.take(k + 1),
    ) - 1 by {
        assert(tokens.take(k + 1) =~= open + inner.take(k));
        lemma_depth_concat(open, inner.take(k));
    }
    assert forall|k: int| 0 <= k <= inner.len() implies depth(#[trigger] inner.take(k)) >= 0 by {
        assert(depth(inner.take(k)) == depth(tokens.take(k + 1)) - 1);
        if k + 1 <= n - 1 {
            lemma_inside_group(tokens, k + 1);
        }
    }
    assert(inner.take(inner.len() as int) =~= inner);
    assert(depth(inner.take(inner.len() as int)) == depth(tokens.take(inner.len() as int + 1)) - 1);
    assert(depth(tokens.take(n - 1)) == 1);
}

/// The operator at which a valid expression splits into its two operands:
/// the last operator of the lowest rank outside every pair of parentheses,
/// or -1 if no operator stands outside every pair.
pub open spec fn splitting_operator(tokens: Seq<InfixToken>) -> int {
    if last_open_operator(tokens, 1, tokens.len() as int) >= 0 {
        last_open_operator(tokens, 1, tokens.len() as int)
    } else {
        last_open_operator(tokens, 2, tokens.len() as int)
    }
}

proof fn lemma_splitting_operator(tokens: Seq<InfixToken>)
    requires
        valid_infix(tokens),
    ensures
        splitting_operator(tokens) < 0 ==> no_open_operator(tokens),
        splitting_operator(tokens) >= 0 ==> {
            let i = splitting_operator(tokens);
            &&& open_operator(tokens, i)
            &&& forall|j: int| #[trigger]
                open_operator(tokens.take(i), j) ==> rank_of(tokens.take(i)[j]) >= rank_of(
                    tokens[i],
                )
            &&& forall|j: int| #[trigger]
                open_operator(tokens.skip(i + 1), j) ==> rank_of(tokens.skip(i + 1)[j])
                    >= rank_of(tokens[i]) + 1
        },
{
    let n = tokens.len() as int;
    lemma_last_open_operator(tokens, 1, n);
    lemma_last_open_operator(tokens, 2, n);
    let i = splitting_operator(tokens);
    if i >= 0 {
        lemma_left_of_operator(tokens, i);
        lemma_right_of_operator(tokens, i);
        let left = tokens.take(i);
        let right = tokens.skip(i + 1);
        assert forall|j: int| #[trigger] open_operator(left, j) implies rank_of(left[j])
            >= rank_of(tokens[i]) by {
            assert(open_operator(tokens, j));
        }
        assert forall|j: int| #[trigger] open_operator(right, j) implies rank_of(right[j])
            >= rank_of(tokens[i]) + 1 by {
            assert(open_operator(tokens, i + 1 + j));
        }
    } else {
        assert forall|j: int| !#[trigger] open_operator(tokens, j) by {
            if open_operator(tokens, j) {
                assert(rank_of(tokens[j]) <= 2);
            }
        }
    }
}

/// Every valid infix expression is an expression written down: a tree of
/// numbers, groups and operations that is written as precedence and
/// grouping from the left ask, and whose tokens are those of the
/// expression. The tree's last operation outside every group is of rank
/// `bound` or more if every such operator of the expression is.
pub proof fn lemma_valid_is_written(tokens: Seq<InfixToken>, bound: int) -> (w: Written)
    requires
        valid_infix(tokens),
        bound <= 3,
        forall|j: int| #[trigger] open_operator(tokens, j) ==> rank_of(tokens[j]) >= bound,
    ensures
        w.conventional(),
        w.tokens() == tokens,
        w.outer_rank() >= bound,
    decreases tokens.len(),
{
    let n = tokens.len() as int;
    let i = splitting_operator(tokens);
    lemma_splitting_operator(tokens);
    if i >= 0 {
        let op = tokens[i]->Operator_0;
        let left = tokens.take(i);
        let right = tokens.skip(i + 1);
        lemma_left_of_operator(tokens, i);
        lemma_right_of_operator(tokens, i);
        let wl = lemma_valid_is_written(left, op.rank());
        let wr = lemma_valid_is_written(right, op.rank() + 1);
        let w = Written::Bin(op, Box::new(wl), Box::new(wr));
        assert(w.tokens() =~= tokens);
        w
    } else {
        match tokens[0] {
            InfixToken::Operand(x) => {
                lemma_lone_operand(tokens);
                let w = Written::Num(x);
                assert(w.tokens() =~= tokens);
                w
            },
            InfixToken::LeftParen => {
                lemma_group_inner(tokens);
                let inner = tokens.subrange(1, n - 1);
                let wi = lemma_valid_is_written(inner, 0);
                let w = Written::Group(Box::new(wi));
                assert(w.tokens() =~= tokens);
                w
            },
            _ => {
                assert(false);
                Written::Num(0)
            },
        }
    }
}

/// `tokens` can be read as `w`: they are the tokens of `w`, and `w` is
/// written as precedence and grouping from the left ask.
pub open spec fn reads_as(tokens: Seq<InfixToken>, w: Written) -> bool {
    w.conventional() && w.tokens() == tokens
}

/// What the conversion means. A token sequence has a postfix form exactly
/// if it can be read as a written expression, and then its postfix form is
/// that of the expression, however it is read.
pub proof fn lemma_conversion_means(tokens: Seq<InfixToken>)
    ensures
        postfix_of(tokens).is_some() <==> exists|w: Written| reads_as(tokens, w),
        forall|w: Written| #[trigger]
            reads_as(tokens, w) ==> postfix_of(tokens) == Some(w.expr().postfix()),
{
    assert forall|w: Written| #[trigger] reads_as(tokens, w) implies postfix_of(tokens) == Some(
        w.expr().postfix(),
    ) by {
        lemma_conversion_of_written(w);
    }
    if postfix_of(tokens).is_some() {
        lemma_convertible_iff_valid(tokens);
        let w = lemma_valid_is_written(tokens, 0);
        assert(reads_as(tokens, w));
    }
}

} // verus!
