use vstd::prelude::*;

use crate::token::{precedence_of, Token};

verus! {

/// Output sequence and operator stack of the conversion.
pub type Shunt = (Seq<Token>, Seq<Token>);

/// Whether an operator `top` waiting on the stack is emitted before `op` is pushed:
/// it binds at least as tightly, which makes equal ranks group from the left.
/// Never true for a bracket.
pub open spec fn yields_to(top: Token, op: Token) -> bool {
    match (precedence_of(top), precedence_of(op)) {
        (Some(p), Some(q)) => p >= q,
        _ => false,
    }
}

/// Moves operators from the top of `ops` to `out` while they yield to `op`.
pub open spec fn pop_tighter(out: Seq<Token>, ops: Seq<Token>, op: Token) -> Shunt
    decreases ops.len(),
{
    if ops.len() > 0 && yields_to(ops.last(), op) {
        pop_tighter(out.push(ops.last()), ops.drop_last(), op)
    } else {
        (out, ops)
    }
}

/// Moves operators from the top of `ops` to `out` up to the nearest `LeftParen`, which is
/// dropped; `None` when the stack holds no `LeftParen`.
pub open spec fn pop_to_open(out: Seq<Token>, ops: Seq<Token>) -> Option<Shunt>
    decreases ops.len(),
{
    if ops.len() == 0 {
        None
    } else if ops.last() == Token::LeftParen {
        Some((out, ops.drop_last()))
    } else {
        pop_to_open(out.push(ops.last()), ops.drop_last())
    }
}

/// One token of input handled.
pub open spec fn shunt_step(st: Option<Shunt>, t: Token) -> Option<Shunt> {
    match st {
        None => None,
        Some((out, ops)) => match t {
            Token::Number(_) => Some((out.push(t), ops)),
            Token::LeftParen => Some((out, ops.push(t))),
            Token::RightParen => pop_to_open(out, ops),
            _ => {
                let (o, s) = pop_tighter(out, ops, t);
                Some((o, s.push(t)))
            },
        },
    }
}

/// The state after reading `ts` from `st` on, left to right.
pub open spec fn shunt_run(st: Option<Shunt>, ts: Seq<Token>) -> Option<Shunt>
    decreases ts.len(),
{
    if ts.len() == 0 {
        st
    } else {
        shunt_run(shunt_step(st, ts[0]), ts.drop_first())
    }
}

/// Empty output, empty stack.
pub open spec fn shunt_start() -> Option<Shunt> {
    Some((Seq::empty(), Seq::empty()))
}

/// Empties the stack onto `out`; `None` when an unmatched `LeftParen` is left on it.
pub open spec fn drain(out: Seq<Token>, ops: Seq<Token>) -> Option<Seq<Token>>
    decreases ops.len(),
{
    if ops.len() == 0 {
        Some(out)
    } else if ops.last() == Token::LeftParen {
        None
    } else {
        drain(out.push(ops.last()), ops.drop_last())
    }
}

/// The postfix form of an infix token sequence; `None` when its brackets do not match.
pub open spec fn postfix_of(ts: Seq<Token>) -> Option<Seq<Token>> {
    match shunt_run(shunt_start(), ts) {
        None => None,
        Some((out, ops)) => drain(out, ops),
    }
}

/// Once the brackets fail to match, the conversion stays failed.
proof fn lemma_failure_stays(ts: Seq<Token>)
    ensures
        shunt_run(None, ts) is None,
    decreases ts.len(),
{
    if ts.len() > 0 {
        lemma_failure_stays(ts.drop_first());
    }
}

pub open spec fn is_bracket(t: Token) -> bool {
    t == Token::LeftParen || t == Token::RightParen
}

/// No bracket anywhere in `s`.
pub open spec fn bracket_free(s: Seq<Token>) -> bool {
    forall|i: int| 0 <= i < s.len() ==> !is_bracket(#[trigger] s[i])
}

/// No closing bracket anywhere in `s`.
pub open spec fn closer_free(s: Seq<Token>) -> bool {
    forall|i: int| 0 <= i < s.len() ==> #[trigger] s[i] != Token::RightParen
}

proof fn lemma_pop_tighter_clean(out: Seq<Token>, ops: Seq<Token>, op: Token)
    requires
        bracket_free(out),
        closer_free(ops),
    ensures
        bracket_free(pop_tighter(out, ops, op).0),
        closer_free(pop_tighter(out, ops, op).1),
    decreases ops.len(),
{
    if ops.len() > 0 && yields_to(ops.last(), op) {
        lemma_pop_tighter_clean(out.push(ops.last()), ops.drop_last(), op);
    }
}

proof fn lemma_pop_to_open_clean(out: Seq<Token>, ops: Seq<Token>)
    requires
        bracket_free(out),
        closer_free(ops),
    ensures
        pop_to_open(out, ops) matches Some((o, s)) ==> bracket_free(o) && closer_free(s),
    decreases ops.len(),
{
    if ops.len() > 0 && ops.last() != Token::LeftParen {
        lemma_pop_to_open_clean(out.push(ops.last()), ops.drop_last());
    }
}

proof fn lemma_drain_clean(out: Seq<Token>, ops: Seq<Token>)
    requires
        bracket_free(out),
        closer_free(ops),
    ensures
        drain(out, ops) matches Some(o) ==> bracket_free(o),
    decreases ops.len(),
{
    if ops.len() > 0 && ops.last() != Token::LeftParen {
        lemma_drain_clean(out.push(ops.last()), ops.drop_last());
    }
}

proof fn lemma_run_clean(st: Option<Shunt>, ts: Seq<Token>)
    requires
        st matches Some((o, s)) ==> bracket_free(o) && closer_free(s),
    ensures
        shunt_run(st, ts) matches Some((o, s)) ==> bracket_free(o) && closer_free(s),
    decreases ts.len(),
{
    if ts.len() > 0 {
        if let Some((out, ops)) = st {
            let t = ts[0];
            match t {
                Token::Number(_) => {},
                Token::LeftParen => {},
                Token::RightParen => {
                    lemma_pop_to_open_clean(out, ops);
                },
                _ => {
                    lemma_pop_tighter_clean(out, ops, t);
                },
            }
        }
        lemma_run_clean(shunt_step(st, ts[0]), ts.drop_first());
    }
}

/// The postfix form never holds a bracket.
pub proof fn lemma_postfix_bracket_free(ts: Seq<Token>)
    ensures
        postfix_of(ts) matches Some(p) ==> bracket_free(p),
{
    lemma_run_clean(shunt_start(), ts);
    if let Some((out, ops)) = shunt_run(shunt_start(), ts) {
        lemma_drain_clean(out, ops);
    }
}

/// Whether the brackets of `ts` match when reading starts `d` brackets deep: no `)` closes
/// more than is open, and nothing is left open at the end.
pub open spec fn balanced_from(ts: Seq<Token>, d: int) -> bool
    decreases ts.len(),
{
    if ts.len() == 0 {
        d == 0
    } else if ts[0] == Token::LeftParen {
        balanced_from(ts.drop_first(), d + 1)
    } else if ts[0] == Token::RightParen {
        d > 0 && balanced_from(ts.drop_first(), d - 1)
    } else {
        balanced_from(ts.drop_first(), d)
    }
}

/// Number of `LeftParen` markers on a stack.
pub open spec fn open_count(s: Seq<Token>) -> nat
    decreases s.len(),
{
    if s.len() == 0 {
        0
    } else {
        open_count(s.drop_last()) + if s.last() == Token::LeftParen {
            1nat
        } else {
            0nat
        }
    }
}

proof fn lemma_pop_tighter_keeps_opens(out: Seq<Token>, ops: Seq<Token>, op: Token)
    ensures
        open_count(pop_tighter(out, ops, op).1) == open_count(ops),
    decreases ops.len(),
{
    if ops.len() > 0 && yields_to(ops.last(), op) {
        lemma_pop_tighter_keeps_opens(out.push(ops.last()), ops.drop_last(), op);
    }
}

proof fn lemma_pop_to_open_found(out: Seq<Token>, ops: Seq<Token>)
    requires
        open_count(ops) > 0,
    ensures
        pop_to_open(out, ops) matches Some((o, s)) && open_count(s) + 1 == open_count(ops),
    decreases ops.len(),
{
    if ops.last() != Token::LeftParen {
        lemma_pop_to_open_found(out.push(ops.last()), ops.drop_last());
    }
}

proof fn lemma_drain_found(out: Seq<Token>, ops: Seq<Token>)
    requires
        open_count(ops) == 0,
    ensures
        drain(out, ops) is Some,
    decreases ops.len(),
{
    if ops.len() > 0 {
        lemma_drain_found(out.push(ops.last()), ops.drop_last());
    }
}

proof fn lemma_balanced_run(st: Option<Shunt>, ts: Seq<Token>, d: nat)
    requires
        st matches Some((o, s)) && open_count(s) == d,
        balanced_from(ts, d as int),
    ensures
        shunt_run(st, ts) matches Some((o, s)) && open_count(s) == 0,
    decreases ts.len(),
{
    if ts.len() > 0 {
        let (out, ops) = st->Some_0;
        let t = ts[0];
        match t {
            Token::Number(_) => {
                lemma_balanced_run(shunt_step(st, t), ts.drop_first(), d);
            },
            Token::LeftParen => {
                assert(ops.push(t).drop_last() =~= ops);
                lemma_balanced_run(shunt_step(st, t), ts.drop_first(), d + 1);
            },
            Token::RightParen => {
                lemma_pop_to_open_found(out, ops);
                lemma_balanced_run(shunt_step(st, t), ts.drop_first(), (d - 1) as nat);
            },
            _ => {
                let (o, s) = pop_tighter(out, ops, t);
                lemma_pop_tighter_keeps_opens(out, ops, t);
                assert(s.push(t).drop_last() =~= s);
                lemma_balanced_run(shunt_step(st, t), ts.drop_first(), d);
            },
        }
    }
}

/// A token sequence whose brackets match always has a postfix form.
pub proof fn lemma_balanced_converts(ts: Seq<Token>)
    requires
        balanced_from(ts, 0),
    ensures
        postfix_of(ts) is Some,
{
    lemma_balanced_run(shunt_start(), ts, 0);
    let (out, ops) = shunt_run(shunt_start(), ts)->Some_0;
    lemma_drain_found(out, ops);
}

/// Two operators of equal precedence group from the left: `a o1 b o2 c` becomes
/// `a b o1 c o2`.
pub proof fn lemma_equal_precedence_groups_left(a: u64, b: u64, c: u64, o1: Token, o2: Token)
    requires
        precedence_of(o1) is Some,
        precedence_of(o1) == precedence_of(o2),
    ensures
        postfix_of(seq![Token::Number(a), o1, Token::Number(b), o2, Token::Number(c)]) == Some(
            seq![Token::Number(a), Token::Number(b), o1, Token::Number(c), o2],
        ),
{
    let (x, y, z) = (Token::Number(a), Token::Number(b), Token::Number(c));
    let ts = seq![x, o1, y, o2, z];
    let e = Seq::<Token>::empty();
    let s1: Option<Shunt> = Some((seq![x], e));
    let s2: Option<Shunt> = Some((seq![x], seq![o1]));
    let s3: Option<Shunt> = Some((seq![x, y], seq![o1]));
    let s4: Option<Shunt> = Some((seq![x, y, o1], seq![o2]));
    let s5: Option<Shunt> = Some((seq![x, y, o1, z], seq![o2]));
    assert(shunt_step(shunt_start(), x) =~= s1);
    assert(shunt_step(s1, o1) =~= s2);
    assert(shunt_step(s2, y) =~= s3);
    // `o1` leaves the stack before `o2` goes on it
    assert(seq![o1].drop_last() =~= e);
    assert(seq![x, y].push(o1) =~= seq![x, y, o1]);
    assert(pop_tighter(seq![x, y, o1], e, o2) == (seq![x, y, o1], e));
    assert(pop_tighter(seq![x, y], seq![o1], o2) == (seq![x, y, o1], e));
    assert(shunt_step(s3, o2) =~= s4);
    assert(shunt_step(s4, z) =~= s5);
    assert(ts.drop_first() =~= seq![o1, y, o2, z]);
    assert(seq![o1, y, o2, z].drop_first() =~= seq![y, o2, z]);
    assert(seq![y, o2, z].drop_first() =~= seq![o2, z]);
    assert(seq![o2, z].drop_first() =~= seq![z]);
    assert(seq![z].drop_first() =~= e);
    assert(shunt_run(s5, e) == s5);
    assert(shunt_run(s4, seq![z]) == s5);
    assert(shunt_run(s3, seq![o2, z]) == s5);
    assert(shunt_run(s2, seq![y, o2, z]) == s5);
    assert(shunt_run(s1, seq![o1, y, o2, z]) == s5);
    let full = seq![x, y, o1, z, o2];
    assert(seq![o2].drop_last() =~= e);
    assert(seq![x, y, o1, z].push(o2) =~= full);
    assert(drain(full, e) == Some(full));
}

fn yields(top: Token, op: Token) -> (r: bool)
    ensures
        r == yields_to(top, op),
{
    match (top.precedence(), op.precedence()) {
        (Some(p), Some(q)) => p >= q,
        _ => false,
    }
}

/// Pops operators onto `out` up to the nearest `LeftParen`, which is dropped; false when there is none.
fn pop_until_open(out: &mut Vec<Token>, ops: &mut Vec<Token>) -> (found: bool)
    ensures
        found ==> pop_to_open(old(out)@, old(ops)@) == Some::<Shunt>((final(out)@, final(ops)@)),
        !found ==> pop_to_open(old(out)@, old(ops)@) is None,
{
    let ghost target = pop_to_open(out@, ops@);
    loop
        invariant
            pop_to_open(out@, ops@) == target,
            target == pop_to_open(old(out)@, old(ops)@),
        decreases ops.len(),
    {
        match ops.pop() {
            None => {
                return false;
            },
            Some(top) => {
                if top == Token::LeftParen {
                    return true;
                }
                out.push(top);
            },
        }
    }
}

/// Pops onto `out` the operators that yield to `op`.
fn pop_while_tighter(out: &mut Vec<Token>, ops: &mut Vec<Token>, op: Token)
    ensures
        pop_tighter(old(out)@, old(ops)@, op) == (final(out)@, final(ops)@),
{
    let ghost target = pop_tighter(out@, ops@, op);
    while ops.len() > 0 && yields(ops[ops.len() - 1], op)
        invariant
            pop_tighter(out@, ops@, op) == target,
        decreases ops.len(),
    {
        let top = ops.pop().unwrap();
        out.push(top);
    }
}

/// Pops every operator onto `out`; false when an unmatched `LeftParen` turns up.
fn drain_into(out: &mut Vec<Token>, ops: &mut Vec<Token>) -> (ok: bool)
    ensures
        ok ==> drain(old(out)@, old(ops)@) == Some(final(out)@),
        !ok ==> drain(old(out)@, old(ops)@) is None,
{
    let ghost target = drain(out@, ops@);
    while ops.len() > 0
        invariant
            drain(out@, ops@) == target,
            target == drain(old(out)@, old(ops)@),
        decreases ops.len(),
    {
        let top = ops.pop().unwrap();
        if top == Token::LeftParen {
            return false;
        }
        out.push(top);
    }
    true
}

/// Rewrites an infix token sequence in postfix order (Shunting-Yard); `None` when its
/// brackets do not match.
pub fn shunting_yard(ts: &Vec<Token>) -> (r: Option<Vec<Token>>)
    ensures
        match r {
            Some(v) => postfix_of(ts@) == Some(v@),
            None => postfix_of(ts@) is None,
        },
{
    let mut out: Vec<Token> = Vec::new();
    let mut ops: Vec<Token> = Vec::new();
    proof {
        assert(ts@.skip(0) =~= ts@);
    }
    for i in 0..ts.len()
        invariant
            shunt_run(Some::<Shunt>((out@, ops@)), ts@.skip(i as int)) == shunt_run(
                shunt_start(),
                ts@,
            ),
    {
        proof {
            assert(ts@.skip(i as int).drop_first() =~= ts@.skip(i + 1));
        }
        let t = ts[i];
        match t {
            Token::Number(_) => {
                out.push(t);
            },
            Token::LeftParen => {
                ops.push(t);
            },
            Token::RightParen => {
                if !pop_until_open(&mut out, &mut ops) {
                    proof {
                        lemma_failure_stays(ts@.skip(i + 1));
                    }
                    return None;
                }
            },
            _ => {
                pop_while_tighter(&mut out, &mut ops, t);
                ops.push(t);
            },
        }
    }
    proof {
        assert(ts@.skip(ts@.len() as int) =~= Seq::<Token>::empty());
    }
    if drain_into(&mut out, &mut ops) {
        Some(out)
    } else {
        None
    }
}

} // verus!
