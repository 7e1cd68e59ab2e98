use vstd::prelude::*;

use crate::error::ExprError;
use crate::token::Token;

verus! {

/// An expression tree: a number, or an operator applied to a left and a right operand.
#[derive(Debug, PartialEq, Eq)]
pub enum Term {
    Number(u64),
    Binary(Token, Box<Term>, Box<Term>),
}

/// The postfix sequence of a tree: left operand, right operand, then the operator.
pub open spec fn term_postfix(t: Term) -> Seq<Token>
    decreases t,
{
    match t {
        Term::Number(v) => seq![Token::Number(v)],
        Term::Binary(op, l, r) => term_postfix(*l) + term_postfix(*r) + seq![op],
    }
}

/// The postfix sequences of a stack of trees, bottom first.
pub open spec fn stack_postfix(s: Seq<Term>) -> Seq<Token>
    decreases s.len(),
{
    if s.len() == 0 {
        Seq::empty()
    } else {
        stack_postfix(s.drop_last()) + term_postfix(s.last())
    }
}

/// How many values a postfix evaluation of `ts` leaves on its stack; `None` when a
/// token other than a number finds fewer than two.
pub open spec fn stack_depth(ts: Seq<Token>) -> Option<nat>
    decreases ts.len(),
{
    if ts.len() == 0 {
        Some(0)
    } else {
        match stack_depth(ts.drop_last()) {
            None => None,
            Some(d) => match ts.last() {
                Token::Number(_) => Some(d + 1),
                _ => if d >= 2 {
                    Some((d - 1) as nat)
                } else {
                    None
                },
            },
        }
    }
}

/// Once an evaluation runs short of operands, it stays failed.
proof fn lemma_underflow_stays(ts: Seq<Token>, k: int)
    requires
        0 <= k <= ts.len(),
        stack_depth(ts.take(k)) is None,
    ensures
        stack_depth(ts) is None,
    decreases ts.len() - k,
{
    if k < ts.len() {
        assert(ts.take(k + 1).drop_last() =~= ts.take(k));
        lemma_underflow_stays(ts, k + 1);
    } else {
        assert(ts.take(k) =~= ts);
    }
}

/// Builds the tree of a postfix sequence with a stack of subtrees.
///
/// Each operator takes the top of the stack as its right operand and the value below it as
/// its left one.
pub fn build_term(ts: &Vec<Token>) -> (r: Result<Term, ExprError>)
    ensures
        match r {
            Ok(t) => stack_depth(ts@) == Some(1nat) && term_postfix(t) == ts@,
            Err(e) => (e == ExprError::StackUnderflow && stack_depth(ts@) is None) || (
            e == ExprError::EmptyExpression && stack_depth(ts@) is Some && stack_depth(ts@)
                != Some(1nat)),
        },
{
    let mut stack: Vec<Term> = Vec::new();
    for i in 0..ts.len()
        invariant
            stack_depth(ts@.take(i as int)) == Some(stack@.len()),
            stack_postfix(stack@) == ts@.take(i as int),
    {
        let t = ts[i];
        let ghost before = stack@;
        proof {
            assert(ts@.take(i + 1).drop_last() =~= ts@.take(i as int));
            assert(ts@.take(i + 1) =~= ts@.take(i as int).push(t));
        }
        match t {
            Token::Number(v) => {
                stack.push(Term::Number(v));
                proof {
                    assert(stack@.drop_last() =~= before);
                }
            },
            _ => {
                if stack.len() < 2 {
                    proof {
                        lemma_underflow_stays(ts@, i + 1);
                    }
                    return Err(ExprError::StackUnderflow);
                }
                let a = stack.pop().unwrap();
                let b = stack.pop().unwrap();
                let ghost rest = stack@;
                stack.push(Term::Binary(t, Box::new(b), Box::new(a)));
                proof {
                    let n = Term::Binary(t, Box::new(b), Box::new(a));
                    assert(before.drop_last() =~= rest.push(b));
                    assert(rest.push(b).drop_last() =~= rest);
                    assert(stack@.drop_last() =~= rest);
                    assert(stack_postfix(rest.push(b)) == stack_postfix(rest) + term_postfix(b));
                    assert(stack_postfix(before) == stack_postfix(rest.push(b)) + term_postfix(a));
                    assert(term_postfix(n) == term_postfix(b) + term_postfix(a) + seq![t]);
                    assert(stack_postfix(stack@) == stack_postfix(rest) + term_postfix(n));
                    assert(stack_postfix(stack@) =~= stack_postfix(before).push(t));
                }
            },
        }
    }
    proof {
        assert(ts@.take(ts@.len() as int) =~= ts@);
    }
    if stack.len() == 1 {
        let ghost last = stack@;
        let t = stack.pop().unwrap();
        proof {
            assert(last.drop_last() =~= Seq::<Term>::empty());
            assert(stack_postfix(last) == stack_postfix(Seq::<Term>::empty()) + term_postfix(t));
            assert(stack_postfix(last) =~= term_postfix(t));
        }
        Ok(t)
    } else {
        Err(ExprError::EmptyExpression)
    }
}

} // verus!
