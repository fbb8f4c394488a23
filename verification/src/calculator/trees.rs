//! Expressions as trees.
//!
//! An expression written as its tree demands, with brackets wherever an
//! operand binds no more tightly than its place asks, is reordered into the
//! postorder of the tree, and so evaluates to the value of the tree.

use vstd::prelude::*;
use crate::binary32::Binary32;
use crate::calculator::{
    above_bracket, eval_stack, eval_step, pop_operators, pop_to_bracket, postfix, value_of, yard,
    yard_step, yields_to, Operator, Token,
};

verus! {

/// An arithmetic expression.
pub enum Expr {
    /// A number.
    Number(Binary32),
    /// An operator between a left and a right operand.
    Binary(Operator, Box<Expr>, Box<Expr>),
    /// An expression in brackets.
    Group(Box<Expr>),
}

impl Expr {
    /// The tokens of the expression as it is written, operators between
    /// their operands.
    pub open spec fn infix(self) -> Seq<Token>
        decreases self,
    {
        match self {
            Expr::Number(x) => seq![Token::Number(x)],
            Expr::Binary(op, left, right) => left.infix().push(Token::Operator(op)) + right.infix(),
            Expr::Group(inner) => (seq![Token::Bracket('(')] + inner.infix()).push(
                Token::Bracket(')'),
            ),
        }
    }

    /// The tokens of the expression with each operator after its operands,
    /// and no brackets.
    pub open spec fn postorder(self) -> Seq<Token>
        decreases self,
    {
        match self {
            Expr::Number(x) => seq![Token::Number(x)],
            Expr::Binary(op, left, right) => (left.postorder() + right.postorder()).push(
                Token::Operator(op),
            ),
            Expr::Group(inner) => inner.postorder(),
        }
    }

    /// The value of the expression.
    pub open spec fn value(self) -> Binary32
        decreases self,
    {
        match self {
            Expr::Number(x) => x,
            Expr::Binary(op, left, right) => op.applied(left.value(), right.value()),
            Expr::Group(inner) => inner.value(),
        }
    }

    /// Whether the expression, if an operator stands at its root, binds at
    /// least as tightly as the weight `w`.
    pub open spec fn binds_at_least(self, w: int) -> bool {
        match self {
            Expr::Binary(op, _, _) => op.weight() >= w,
            _ => true,
        }
    }

    /// Whether the expression, if an operator stands at its root, binds
    /// more tightly than the weight `w`.
    pub open spec fn binds_more_than(self, w: int) -> bool {
        match self {
            Expr::Binary(op, _, _) => op.weight() > w,
            _ => true,
        }
    }

    /// Whether the expression is written as its tree demands: a left
    /// operand binds at least as tightly as its operator, a right operand
    /// more tightly, and what does not stands in brackets.
    pub open spec fn well_grouped(self) -> bool
        decreases self,
    {
        match self {
            Expr::Number(_) => true,
            Expr::Binary(op, left, right) => {
                &&& left.well_grouped()
                &&& right.well_grouped()
                &&& left.binds_at_least(op.weight())
                &&& right.binds_more_than(op.weight())
            },
            Expr::Group(inner) => inner.well_grouped(),
        }
    }

    /// The operators that still wait on the stack when the expression has
    /// been read: that at the root, then those down its right operands.
    pub open spec fn spine(self) -> Seq<Token>
        decreases self,
    {
        match self {
            Expr::Binary(op, _, right) => seq![Token::Operator(op)] + right.spine(),
            _ => Seq::empty(),
        }
    }

    /// The tokens that are in the queue when the expression has been read:
    /// the postorder without the operators that wait.
    pub open spec fn emitted(self) -> Seq<Token>
        decreases self,
    {
        match self {
            Expr::Number(x) => seq![Token::Number(x)],
            Expr::Binary(_, left, right) => left.postorder() + right.emitted(),
            Expr::Group(inner) => inner.postorder(),
        }
    }

    /// Whether reading the expression leaves the stack `stack` as it is: no
    /// operator at its top gives way to the operator at the root.
    pub open spec fn leaves_alone(self, stack: Seq<Token>) -> bool {
        match self {
            Expr::Binary(op, _, _) => !yields_to(stack, op.weight()),
            _ => true,
        }
    }
}

/// The output queue and the operator stack after `tokens`, from a given
/// queue and stack.
pub open spec fn yard_from(queue: Seq<Token>, stack: Seq<Token>, tokens: Seq<Token>) -> (
    Seq<Token>,
    Seq<Token>,
)
    decreases tokens.len(),
{
    if tokens.len() == 0 {
        (queue, stack)
    } else {
        let before = yard_from(queue, stack, tokens.drop_last());
        yard_step(before.0, before.1, tokens.last())
    }
}

/// The evaluator's stack after `tokens`, from a given stack.
pub open spec fn eval_from(stack: Option<Seq<Binary32>>, tokens: Seq<Token>) -> Option<
    Seq<Binary32>,
>
    decreases tokens.len(),
{
    if tokens.len() == 0 {
        stack
    } else {
        eval_step(eval_from(stack, tokens.drop_last()), tokens.last())
    }
}

/// Whether `ops` are operators of weight `w` or more, all of them.
pub open spec fn operators_at_least(ops: Seq<Token>, w: int) -> bool {
    forall|i: int|
        0 <= i < ops.len() ==> (#[trigger] ops[i] matches Token::Operator(o) && o.weight() >= w)
}

/// The reordering starts from an empty queue and an empty stack.
pub proof fn lemma_yard_from_empty(tokens: Seq<Token>)
    ensures
        yard(tokens) == yard_from(Seq::empty(), Seq::empty(), tokens),
    decreases tokens.len(),
{
    if tokens.len() > 0 {
        lemma_yard_from_empty(tokens.drop_last());
    }
}

/// The evaluation starts from an empty stack.
pub proof fn lemma_eval_from_empty(tokens: Seq<Token>)
    ensures
        eval_stack(tokens) == eval_from(Some(Seq::empty()), tokens),
    decreases tokens.len(),
{
    if tokens.len() > 0 {
        lemma_eval_from_empty(tokens.drop_last());
    }
}

/// Reading two runs of tokens one after the other is reading them as one.
pub proof fn lemma_yard_from_concat(
    queue: Seq<Token>,
    stack: Seq<Token>,
    a: Seq<Token>,
    b: Seq<Token>,
)
    ensures
        yard_from(queue, stack, a + b) == yard_from(
            yard_from(queue, stack, a).0,
            yard_from(queue, stack, a).1,
            b,
        ),
    decreases b.len(),
{
    if b.len() == 0 {
        assert(a + b =~= a);
    } else {
        assert((a + b).drop_last() =~= a + b.drop_last());
        assert((a + b).last() == b.last());
        lemma_yard_from_concat(queue, stack, a, b.drop_last());
    }
}

/// Evaluating two runs of tokens one after the other is evaluating them
/// as one.
pub proof fn lemma_eval_from_concat(stack: Option<Seq<Binary32>>, a: Seq<Token>, b: Seq<Token>)
    ensures
        eval_from(stack, a + b) == eval_from(eval_from(stack, a), b),
    decreases b.len(),
{
    if b.len() == 0 {
        assert(a + b =~= a);
    } else {
        assert((a + b).drop_last() =~= a + b.drop_last());
        assert((a + b).last() == b.last());
        lemma_eval_from_concat(stack, a, b.drop_last());
    }
}

/// An incoming operator sends to the queue, top first, all the operators
/// above a stack that does not give way, if none of them binds less
/// tightly than it does.
pub proof fn lemma_operators_give_way(
    queue: Seq<Token>,
    stack: Seq<Token>,
    ops: Seq<Token>,
    w: int,
)
    requires
        operators_at_least(ops, w),
        !yields_to(stack, w),
    ensures
        pop_operators(queue, stack + ops, w) == (queue + ops.reverse(), stack),
    decreases ops.len(),
{
    if ops.len() == 0 {
        assert(stack + ops =~= stack);
        assert(queue + ops.reverse() =~= queue);
    } else {
        let all = stack + ops;
        let rest = ops.drop_last();
        assert(all.last() == ops[ops.len() - 1]);
        assert(yields_to(all, w));
        assert(all.drop_last() =~= stack + rest);
        assert(operators_at_least(rest, w)) by {
            assert forall|i: int| 0 <= i < rest.len() implies (#[trigger] rest[i] matches Token::Operator(
                o,
            ) && o.weight() >= w) by {
                assert(rest[i] == ops[i]);
            }
        }
        lemma_operators_give_way(queue.push(all.last()), stack, rest, w);
        assert(queue.push(ops.last()) + rest.reverse() =~= queue + ops.reverse());
    }
}

/// A closing bracket sends to the queue, top first, all the operators
/// above the innermost opening bracket.
pub proof fn lemma_bracket_closes(queue: Seq<Token>, stack: Seq<Token>, ops: Seq<Token>)
    requires
        operators_at_least(ops, 0),
    ensures
        pop_to_bracket(queue, stack.push(Token::Bracket('(')) + ops) == (
            queue + ops.reverse(),
            stack.push(Token::Bracket('(')),
        ),
    decreases ops.len(),
{
    let base = stack.push(Token::Bracket('('));
    if ops.len() == 0 {
        assert(base + ops =~= base);
        assert(queue + ops.reverse() =~= queue);
        assert(!above_bracket(base));
    } else {
        let all = base + ops;
        let rest = ops.drop_last();
        assert(all.last() == ops[ops.len() - 1]);
        assert(above_bracket(all));
        assert(all.drop_last() =~= base + rest);
        assert(operators_at_least(rest, 0)) by {
            assert forall|i: int| 0 <= i < rest.len() implies (#[trigger] rest[i] matches Token::Operator(
                o,
            ) && o.weight() >= 0) by {
                assert(rest[i] == ops[i]);
            }
        }
        lemma_bracket_closes(queue.push(all.last()), stack, rest);
        assert(queue.push(ops.last()) + rest.reverse() =~= queue + ops.reverse());
    }
}

/// The postorder is what is in the queue, then what waits, top first.
pub proof fn lemma_postorder_splits(e: Expr)
    ensures
        e.postorder() =~= e.emitted() + e.spine().reverse(),
    decreases e,
{
    match e {
        Expr::Binary(op, left, right) => {
            lemma_postorder_splits(*right);
            let head = seq![Token::Operator(op)];
            assert((head + right.spine()).reverse() =~= right.spine().reverse() + head);
        },
        _ => {
            assert(e.spine().reverse() =~= Seq::<Token>::empty());
        },
    }
}

/// The operators that wait bind at least as tightly as the root does.
pub proof fn lemma_spine_weights(e: Expr, w: int)
    requires
        e.well_grouped(),
        e.binds_at_least(w),
    ensures
        operators_at_least(e.spine(), w),
    decreases e,
{
    match e {
        Expr::Binary(op, left, right) => {
            lemma_spine_weights(*right, w);
            let head = seq![Token::Operator(op)];
            let tail = right.spine();
            assert forall|i: int| 0 <= i < (head + tail).len() implies (#[trigger] (head + tail)[i] matches Token::Operator(
                o,
            ) && o.weight() >= w) by {
                if i > 0 {
                    assert((head + tail)[i] == tail[i - 1]);
                }
            }
        },
        _ => {},
    }
}

/// Reading a well-grouped expression adds to the queue all of its
/// postorder but the operators that wait, and those to the stack.
pub proof fn lemma_tree_yard(e: Expr, queue: Seq<Token>, stack: Seq<Token>)
    requires
        e.well_grouped(),
        e.leaves_alone(stack),
    ensures
        yard_from(queue, stack, e.infix()) == (queue + e.emitted(), stack + e.spine()),
    decreases e,
{
    let empty = Seq::<Token>::empty();
    match e {
        Expr::Number(x) => {
            let one = seq![Token::Number(x)];
            assert(one.drop_last() =~= empty);
            assert(yard_from(queue, stack, one.drop_last()) == (queue, stack));
            assert(queue.push(Token::Number(x)) =~= queue + one);
            assert(stack + empty =~= stack);
        },
        Expr::Binary(op, left, right) => {
            let w = op.weight();
            let sign = Token::Operator(op);
            let written = left.infix().push(sign);
            assert(written.drop_last() =~= left.infix());
            lemma_tree_yard(*left, queue, stack);
            lemma_spine_weights(*left, w);
            lemma_operators_give_way(queue + left.emitted(), stack, left.spine(), w);
            lemma_postorder_splits(*left);
            let read = queue + left.postorder();
            assert(queue + left.emitted() + left.spine().reverse() =~= read);
            let held = stack.push(sign);
            assert(yard_from(queue, stack, written) == (read, held));
            lemma_yard_from_concat(queue, stack, written, right.infix());
            assert(right.leaves_alone(held)) by {
                assert(held.last() == sign);
            }
            lemma_tree_yard(*right, read, held);
            assert(read + right.emitted() =~= queue + e.emitted());
            assert(held + right.spine() =~= stack + e.spine());
        },
        Expr::Group(inner) => {
            let open = Token::Bracket('(');
            let close = Token::Bracket(')');
            let start = seq![open];
            let written = start + inner.infix();
            assert(start.drop_last() =~= empty);
            assert(yard_from(queue, stack, start.drop_last()) == (queue, stack));
            let held = stack.push(open);
            assert(yard_from(queue, stack, start) == (queue, held));
            lemma_yard_from_concat(queue, stack, start, inner.infix());
            assert(inner.leaves_alone(held)) by {
                assert(held.last() == open);
            }
            lemma_tree_yard(*inner, queue, held);
            assert(written.push(close).drop_last() =~= written);
            lemma_spine_weights(*inner, 0);
            lemma_bracket_closes(queue + inner.emitted(), stack, inner.spine());
            lemma_postorder_splits(*inner);
            assert(queue + inner.emitted() + inner.spine().reverse() =~= queue + e.emitted());
            assert(held.drop_last() =~= stack);
            assert(stack + e.spine() =~= stack);
        },
    }
}

/// Evaluating the postorder of an expression puts its value on the stack.
pub proof fn lemma_tree_value(e: Expr, stack: Seq<Binary32>)
    ensures
        eval_from(Some(stack), e.postorder()) == Some(stack.push(e.value())),
    decreases e,
{
    match e {
        Expr::Number(x) => {
            let one = seq![Token::Number(x)];
            assert(one.drop_last() =~= Seq::<Token>::empty());
            assert(eval_from(Some(stack), one.drop_last()) == Some(stack));
        },
        Expr::Binary(op, left, right) => {
            let operands = left.postorder() + right.postorder();
            lemma_tree_value(*left, stack);
            lemma_tree_value(*right, stack.push(left.value()));
            lemma_eval_from_concat(Some(stack), left.postorder(), right.postorder());
            assert(operands.push(Token::Operator(op)).drop_last() =~= operands);
            let s = stack.push(left.value()).push(right.value());
            assert(s.take(s.len() - 2) =~= stack);
        },
        Expr::Group(inner) => {
            lemma_tree_value(*inner, stack);
        },
    }
}

/// The reordering is right. A well-grouped expression is reordered into
/// its postorder, and the evaluation of that gives the value of the
/// expression: operators of higher weight are applied first, operators of
/// one weight from left to right, and brackets before either.
pub proof fn lemma_reordering_follows_the_tree(e: Expr)
    requires
        e.well_grouped(),
    ensures
        postfix(e.infix()) == e.postorder(),
        value_of(postfix(e.infix())) == Some(e.value()),
{
    let empty = Seq::<Token>::empty();
    lemma_yard_from_empty(e.infix());
    assert(e.leaves_alone(empty));
    lemma_tree_yard(e, empty, empty);
    lemma_postorder_splits(e);
    assert(empty + e.emitted() =~= e.emitted());
    assert(empty + e.spine() =~= e.spine());
    lemma_eval_from_empty(e.postorder());
    lemma_tree_value(e, Seq::empty());
    assert(Seq::<Binary32>::empty().push(e.value()) =~= seq![e.value()]);
}

} // verus!
