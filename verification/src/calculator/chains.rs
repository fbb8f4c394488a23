//! Chains of operators without brackets are evaluated from left to right.

use vstd::prelude::*;
use crate::binary32::Binary32;
use crate::calculator::{
    eval_stack, pop_operators, postfix, value_of, yard, yard_step, yields_to, Operator,
    Token,
};

verus! {

/// The infix tokens of a chain: a first operand, then pairs of an operator
/// and a further operand.
pub open spec fn chain(first: Binary32, rest: Seq<(Operator, Binary32)>) -> Seq<Token>
    decreases rest.len(),
{
    if rest.len() == 0 {
        seq![Token::Number(first)]
    } else {
        chain(first, rest.drop_last()).push(Token::Operator(rest.last().0)).push(
            Token::Number(rest.last().1),
        )
    }
}

/// The same chain with each operator after its right operand.
pub open spec fn chain_postfix(first: Binary32, rest: Seq<(Operator, Binary32)>) -> Seq<Token>
    decreases rest.len(),
{
    if rest.len() == 0 {
        seq![Token::Number(first)]
    } else {
        chain_postfix(first, rest.drop_last()).push(Token::Number(rest.last().1)).push(
            Token::Operator(rest.last().0),
        )
    }
}

/// The value of the chain taken from left to right: each operator is
/// applied to all that stands before it and to its own right operand.
pub open spec fn left_to_right(first: Binary32, rest: Seq<(Operator, Binary32)>) -> Binary32
    decreases rest.len(),
{
    if rest.len() == 0 {
        first
    } else {
        rest.last().0.applied(left_to_right(first, rest.drop_last()), rest.last().1)
    }
}

/// Whether no operator of the chain binds more tightly than the one before
/// it, as in a chain of operators of one precedence.
pub open spec fn never_rising(rest: Seq<(Operator, Binary32)>) -> bool {
    forall|i: int| 0 < i < rest.len() ==> (#[trigger] rest[i]).0.weight() <= rest[i - 1].0.weight()
}

/// The reordering's queue and stack at the end of a chain: all is in the
/// queue but the last operator.
proof fn lemma_chain_yard(first: Binary32, rest: Seq<(Operator, Binary32)>)
    requires
        never_rising(rest),
    ensures
        rest.len() == 0 ==> yard(chain(first, rest)) == (
            seq![Token::Number(first)],
            Seq::<Token>::empty(),
        ),
        rest.len() > 0 ==> yard(chain(first, rest)) == (
            chain_postfix(first, rest.drop_last()).push(Token::Number(rest.last().1)),
            seq![Token::Operator(rest.last().0)],
        ),
    decreases rest.len(),
{
    let empty = Seq::<Token>::empty();
    if rest.len() == 0 {
        let one = seq![Token::Number(first)];
        assert(one.drop_last() =~= empty);
        assert(yard(one.drop_last()) == (empty, empty));
        assert(empty.push(Token::Number(first)) =~= one);
    } else {
        let front = rest.drop_last();
        let op = rest.last().0;
        let x = rest.last().1;
        let head = chain(first, front);
        let with_op = head.push(Token::Operator(op));
        let all = with_op.push(Token::Number(x));
        assert(all.drop_last() =~= with_op);
        assert(with_op.drop_last() =~= head);
        assert(never_rising(front)) by {
            assert forall|i: int| 0 < i < front.len() implies (#[trigger] front[i]).0.weight()
                <= front[i - 1].0.weight() by {
                assert(front[i] == rest[i]);
                assert(front[i - 1] == rest[i - 1]);
            }
        }
        lemma_chain_yard(first, front);
        let before = yard(head);
        let w = op.weight();
        let mid = yard_step(before.0, before.1, Token::Operator(op));
        assert(yard(with_op) == mid);
        assert(yard(all) == yard_step(mid.0, mid.1, Token::Number(x)));
        if front.len() == 0 {
            assert(before.1 =~= empty);
            assert(!yields_to(before.1, w));
            assert(pop_operators(before.0, before.1, w) == (before.0, before.1));
            assert(mid.1 =~= seq![Token::Operator(op)]);
            assert(mid.0 =~= chain_postfix(first, front));
        } else {
            let top = front.last().0;
            assert(rest[rest.len() - 1].0.weight() <= rest[rest.len() - 2].0.weight());
            assert(front.last() == rest[rest.len() - 2]);
            assert(before.1 =~= seq![Token::Operator(top)]);
            assert(before.1.last() == Token::Operator(top));
            assert(yields_to(before.1, w));
            assert(before.1.drop_last() =~= empty);
            let moved = before.0.push(before.1.last());
            assert(!yields_to(empty, w));
            assert(pop_operators(moved, empty, w) == (moved, empty));
            assert(pop_operators(before.0, before.1, w) == pop_operators(
                moved,
                before.1.drop_last(),
                w,
            ));
            assert(moved =~= chain_postfix(first, front));
            assert(mid.0 =~= chain_postfix(first, front));
            assert(mid.1 =~= seq![Token::Operator(op)]);
        }
    }
}

/// The evaluator's stack at the end of a reordered chain holds the value
/// taken from left to right, and nothing else.
proof fn lemma_chain_value(first: Binary32, rest: Seq<(Operator, Binary32)>)
    ensures
        eval_stack(chain_postfix(first, rest)) == Some(seq![left_to_right(first, rest)]),
    decreases rest.len(),
{
    if rest.len() == 0 {
        let one = seq![Token::Number(first)];
        assert(one.drop_last() =~= Seq::<Token>::empty());
        assert(eval_stack(one.drop_last()) == Some(Seq::<Binary32>::empty()));
        assert(Seq::<Binary32>::empty().push(first) =~= seq![first]);
    } else {
        let front = rest.drop_last();
        let op = rest.last().0;
        let x = rest.last().1;
        let head = chain_postfix(first, front);
        let with_x = head.push(Token::Number(x));
        let all = with_x.push(Token::Operator(op));
        assert(all.drop_last() =~= with_x);
        assert(with_x.drop_last() =~= head);
        lemma_chain_value(first, front);
        let v = left_to_right(first, front);
        let s = seq![v].push(x);
        assert(eval_stack(with_x) == Some(s));
        assert(s.take(s.len() - 2).push(op.applied(s[s.len() - 2], s[s.len() - 1])) =~= seq![
            op.applied(v, x),
        ]);
    }
}

/// Chains associate to the left. The tokens of a chain in which no
/// operator binds more tightly than the one before it, as where all have
/// one precedence, are reordered so that each operator follows its right
/// operand, and their value is the chain's value taken from left to right.
pub proof fn lemma_chains_go_left_to_right(first: Binary32, rest: Seq<(Operator, Binary32)>)
    requires
        never_rising(rest),
    ensures
        postfix(chain(first, rest)) == chain_postfix(first, rest),
        value_of(postfix(chain(first, rest))) == Some(left_to_right(first, rest)),
{
    lemma_chain_yard(first, rest);
    lemma_chain_value(first, rest);
    let end = yard(chain(first, rest));
    if rest.len() == 0 {
        assert(end.1.reverse() =~= Seq::<Token>::empty());
        assert(end.0 + end.1.reverse() =~= chain_postfix(first, rest));
    } else {
        assert(end.1.reverse() =~= seq![Token::Operator(rest.last().0)]);
        assert(end.0 + end.1.reverse() =~= chain_postfix(first, rest));
    }
}

} // verus!
