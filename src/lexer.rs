use vstd::prelude::*;

use crate::postfix::{balanced_from, bracket_free};
use crate::token::Token;

verus! {

/// Why a character sequence cannot be split into tokens.
#[derive(Clone, Copy, Debug, PartialEq, Eq, Structural)]
pub enum LexFault {
    /// A character outside the expression alphabet.
    BadChar(char),
    /// A run of digits whose value does not fit in a `u64`.
    TooLarge,
}

pub open spec fn is_digit(c: char) -> bool {
    '0' <= c && c <= '9'
}

pub open spec fn digit_value(c: char) -> nat {
    (c as int - '0' as int) as nat
}

/// Value of a sequence of decimal digits, most significant first.
pub open spec fn digits_value(s: Seq<char>) -> nat
    decreases s.len(),
{
    if s.len() == 0 {
        0
    } else {
        digits_value(s.drop_last()) * 10 + digit_value(s.last())
    }
}

/// Number of consecutive digits in `s` starting at position `i`.
pub open spec fn digit_count(s: Seq<char>, i: int) -> nat
    decreases s.len() - i,
{
    if 0 <= i < s.len() && is_digit(s[i]) {
        1 + digit_count(s, i + 1)
    } else {
        0
    }
}

/// The token for a character that always stands for exactly one token.
pub open spec fn single_token(c: char) -> Option<Token> {
    if c == '+' {
        Some(Token::Plus)
    } else if c == '*' {
        Some(Token::Multiply)
    } else if c == '/' {
        Some(Token::Divide)
    } else if c == '(' {
        Some(Token::LeftParen)
    } else if c == ')' {
        Some(Token::RightParen)
    } else {
        None
    }
}

/// What a `-` directly before `(` stands for: `+(0-1)*`.
pub open spec fn negated_group_prefix() -> Seq<Token> {
    seq![
        Token::Plus,
        Token::LeftParen,
        Token::Number(0),
        Token::Minus,
        Token::Number(1),
        Token::RightParen,
        Token::Multiply,
    ]
}

/// Puts `p` in front of a successful result and passes a failure on.
pub open spec fn prepend(p: Seq<Token>, r: Result<Seq<Token>, LexFault>) -> Result<Seq<Token>, LexFault> {
    match r {
        Ok(t) => Ok(p + t),
        Err(f) => Err(f),
    }
}

/// Whether `s[i]` is an opening bracket.
pub open spec fn opens_at(s: Seq<char>, i: int) -> bool {
    0 <= i < s.len() && s[i] == '('
}

/// The tokens of `s` from position `i` on, scanned left to right; the first fault wins.
pub open spec fn lex_from(s: Seq<char>, i: int) -> Result<Seq<Token>, LexFault>
    decreases s.len() - i,
{
    if i < 0 || i >= s.len() {
        Ok(Seq::empty())
    } else {
        let c = s[i];
        if is_digit(c) {
            proof {
                lemma_digit_count_bound(s, i);
            }
            let j = i + digit_count(s, i);
            let v = digits_value(s.subrange(i, j));
            if v > u64::MAX {
                Err(LexFault::TooLarge)
            } else if opens_at(s, j) {
                prepend(seq![Token::Number(v as u64), Token::Multiply], lex_from(s, j))
            } else {
                prepend(seq![Token::Number(v as u64)], lex_from(s, j))
            }
        } else if c == '-' {
            if opens_at(s, i + 1) {
                prepend(negated_group_prefix(), lex_from(s, i + 1))
            } else {
                prepend(seq![Token::Minus], lex_from(s, i + 1))
            }
        } else {
            match single_token(c) {
                Some(t) => prepend(seq![t], lex_from(s, i + 1)),
                None => Err(LexFault::BadChar(c)),
            }
        }
    }
}

/// The tokens of a whole character sequence.
pub open spec fn lex(s: Seq<char>) -> Result<Seq<Token>, LexFault> {
    lex_from(s, 0)
}

/// Whether `c` may stand in an expression.
pub open spec fn in_alphabet(c: char) -> bool {
    is_digit(c) || c == '-' || single_token(c) is Some
}

/// Whether the brackets of `s` from position `i` on match when reading starts `d` brackets deep.
pub open spec fn chars_balanced_from(s: Seq<char>, i: int, d: int) -> bool
    decreases s.len() - i,
{
    if i < 0 || i >= s.len() {
        d == 0
    } else if s[i] == '(' {
        chars_balanced_from(s, i + 1, d + 1)
    } else if s[i] == ')' {
        d > 0 && chars_balanced_from(s, i + 1, d - 1)
    } else {
        chars_balanced_from(s, i + 1, d)
    }
}

proof fn lemma_prepend_twice(a: Seq<Token>, b: Seq<Token>, r: Result<Seq<Token>, LexFault>)
    ensures
        prepend(a, prepend(b, r)) == prepend(a + b, r),
{
    if let Ok(t) = r {
        assert(a + (b + t) =~= (a + b) + t);
    }
}

pub proof fn lemma_digit_count_bound(s: Seq<char>, i: int)
    requires
        0 <= i <= s.len(),
    ensures
        digit_count(s, i) <= s.len() - i,
        i < s.len() && is_digit(s[i]) ==> digit_count(s, i) >= 1,
    decreases s.len() - i,
{
    if i < s.len() {
        lemma_digit_count_bound(s, i + 1);
    }
}

/// A digit run that stops at `k` has `k - i` digits.
proof fn lemma_digit_count(s: Seq<char>, i: int, k: int)
    requires
        0 <= i <= k <= s.len(),
        forall|m: int| i <= m < k ==> is_digit(#[trigger] s[m]),
        k == s.len() || !is_digit(s[k]),
    ensures
        digit_count(s, i) == k - i,
    decreases k - i,
{
    if i < k {
        lemma_digit_count(s, i + 1, k);
    }
}

fn single_token_of(c: char) -> (r: Option<Token>)
    ensures
        r == single_token(c),
{
    match c {
        '+' => Some(Token::Plus),
        '*' => Some(Token::Multiply),
        '/' => Some(Token::Divide),
        '(' => Some(Token::LeftParen),
        ')' => Some(Token::RightParen),
        _ => None,
    }
}

/// Text of the expression alphabet only fails to lex on a number too large.
proof fn lemma_alphabet_lexes(s: Seq<char>, i: int)
    requires
        0 <= i <= s.len(),
        forall|k: int| i <= k < s.len() ==> in_alphabet(#[trigger] s[k]),
    ensures
        lex_from(s, i) is Ok || lex_from(s, i) == Err::<Seq<Token>, LexFault>(LexFault::TooLarge),
    decreases s.len() - i,
{
    if i < s.len() {
        if is_digit(s[i]) {
            lemma_digit_count_bound(s, i);
            lemma_alphabet_lexes(s, i + digit_count(s, i));
        } else {
            lemma_alphabet_lexes(s, i + 1);
        }
    }
}

/// Skipping a run of digits keeps the bracket balance.
proof fn lemma_digits_keep_balance(s: Seq<char>, i: int, d: int)
    requires
        0 <= i <= s.len(),
    ensures
        chars_balanced_from(s, i, d) == chars_balanced_from(s, i + digit_count(s, i), d),
    decreases s.len() - i,
{
    if i < s.len() && is_digit(s[i]) {
        lemma_digits_keep_balance(s, i + 1, d);
    }
}

proof fn lemma_balanced_cons(x: Token, t: Seq<Token>, d: int)
    ensures
        balanced_from(seq![x] + t, d) == if x == Token::LeftParen {
            balanced_from(t, d + 1)
        } else if x == Token::RightParen {
            d > 0 && balanced_from(t, d - 1)
        } else {
            balanced_from(t, d)
        },
{
    assert((seq![x] + t).drop_first() =~= t);
}

proof fn lemma_balanced_neutral(p: Seq<Token>, t: Seq<Token>, d: int)
    requires
        bracket_free(p),
    ensures
        balanced_from(p + t, d) == balanced_from(t, d),
    decreases p.len(),
{
    if p.len() > 0 {
        assert((p + t).drop_first() =~= p.drop_first() + t);
        assert(!crate::postfix::is_bracket(p[0]));
        lemma_balanced_neutral(p.drop_first(), t, d);
    }
}

proof fn lemma_negated_group_balance(t: Seq<Token>, d: int)
    requires
        d >= 0,
    ensures
        balanced_from(negated_group_prefix() + t, d) == balanced_from(t, d),
{
    let a = seq![Token::Plus];
    let b = seq![Token::Number(0), Token::Minus, Token::Number(1)];
    let c = seq![Token::Multiply];
    let close = seq![Token::RightParen] + (c + t);
    let inner = seq![Token::LeftParen] + (b + close);
    assert(negated_group_prefix() + t =~= a + inner);
    assert(bracket_free(a));
    assert(bracket_free(b));
    assert(bracket_free(c));
    lemma_balanced_neutral(a, inner, d);
    lemma_balanced_cons(Token::LeftParen, b + close, d);
    lemma_balanced_neutral(b, close, d + 1);
    lemma_balanced_cons(Token::RightParen, c + t, d + 1);
    lemma_balanced_neutral(c, t, d);
}

/// Matching brackets in the text give matching brackets in its tokens.
proof fn lemma_lex_balanced(s: Seq<char>, i: int, d: int)
    requires
        0 <= i <= s.len(),
        d >= 0,
        chars_balanced_from(s, i, d),
        lex_from(s, i) is Ok,
    ensures
        balanced_from(lex_from(s, i)->Ok_0, d),
    decreases s.len() - i,
{
    if i < s.len() {
        let c = s[i];
        if is_digit(c) {
            lemma_digit_count_bound(s, i);
            let j = i + digit_count(s, i);
            lemma_digits_keep_balance(s, i, d);
            lemma_lex_balanced(s, j, d);
            let v = digits_value(s.subrange(i, j));
            let rest = lex_from(s, j)->Ok_0;
            if opens_at(s, j) {
                let here = seq![Token::Number(v as u64), Token::Multiply];
                assert(bracket_free(here));
                lemma_balanced_neutral(here, rest, d);
            } else {
                let here = seq![Token::Number(v as u64)];
                assert(bracket_free(here));
                lemma_balanced_neutral(here, rest, d);
            }
        } else {
            lemma_lex_balanced(s, i + 1, if c == '(' { d + 1 } else if c == ')' { d - 1 } else { d });
            let rest = lex_from(s, i + 1)->Ok_0;
            if c == '-' {
                if opens_at(s, i + 1) {
                    lemma_negated_group_balance(rest, d);
                } else {
                    lemma_balanced_cons(Token::Minus, rest, d);
                }
            } else {
                lemma_balanced_cons(single_token(c)->Some_0, rest, d);
            }
        }
    }
}

/// Text made of digits, operators and matching brackets lexes to tokens whose brackets match,
/// unless a run of digits is too large for a `u64`.
pub proof fn lemma_well_bracketed_lexes(s: Seq<char>)
    requires
        forall|k: int| 0 <= k < s.len() ==> in_alphabet(#[trigger] s[k]),
        chars_balanced_from(s, 0, 0),
    ensures
        lex(s) is Ok || lex(s) == Err::<Seq<Token>, LexFault>(LexFault::TooLarge),
        lex(s) is Ok ==> balanced_from(lex(s)->Ok_0, 0),
{
    lemma_alphabet_lexes(s, 0);
    if lex(s) is Ok {
        lemma_lex_balanced(s, 0, 0);
    }
}

/// Appends the tokens of `v` to `out`.
fn emit(out: &mut Vec<Token>, v: &[Token])
    ensures
        final(out)@ == old(out)@ + v@,
{
    let ghost start = out@;
    for k in 0..v.len()
        invariant
            out@ == start + v@.take(k as int),
    {
        out.push(v[k]);
        proof {
            assert(v@.take(k + 1) =~= v@.take(k as int).push(v@[k as int]));
        }
    }
    proof {
        assert(v@.take(v@.len() as int) =~= v@);
    }
}

/// Splits a character sequence into tokens.
///
/// A run of digits becomes one `Number`, followed by an implied `Multiply` when `(` comes next;
/// a `-` directly before `(` becomes `+(0-1)*`, and any other `-` a `Minus`.
pub fn lex_chars(s: &Vec<char>) -> (r: Result<Vec<Token>, LexFault>)
    ensures
        match r {
            Ok(v) => lex(s@) == Ok::<Seq<Token>, LexFault>(v@),
            Err(f) => lex(s@) == Err::<Seq<Token>, LexFault>(f),
        },
{
    let n = s.len();
    let mut out: Vec<Token> = Vec::new();
    let mut i: usize = 0;
    proof {
        if let Ok(t) = lex(s@) {
            assert(out@ + t =~= t);
        }
    }
    while i < n
        invariant
            n == s@.len(),
            i <= n,
            lex(s@) == prepend(out@, lex_from(s@, i as int)),
        decreases n - i,
    {
        let c = s[i];
        if '0' <= c && c <= '9' {
            let mut k: usize = i;
            let mut acc: u64 = 0;
            let mut big: bool = false;
            while k < n && '0' <= s[k] && s[k] <= '9'
                invariant
                    n == s@.len(),
                    i <= k <= n,
                    forall|m: int| i <= m < k ==> is_digit(#[trigger] s@[m]),
                    big <==> digits_value(s@.subrange(i as int, k as int)) > u64::MAX,
                    !big ==> acc == digits_value(s@.subrange(i as int, k as int)),
                decreases n - k,
            {
                let d = (s[k] as u32 - '0' as u32) as u64;
                proof {
                    assert(s@.subrange(i as int, k + 1).drop_last() =~= s@.subrange(i as int, k as int));
                }
                if !big {
                    match acc.checked_mul(10) {
                        Some(m) => match m.checked_add(d) {
                            Some(a) => {
                                acc = a;
                            },
                            None => {
                                big = true;
                            },
                        },
                        None => {
                            big = true;
                        },
                    }
                }
                k = k + 1;
            }
            proof {
                lemma_digit_count(s@, i as int, k as int);
            }
            if big {
                return Err(LexFault::TooLarge);
            }
            let ghost before = out@;
            if k < n && s[k] == '(' {
                emit(&mut out, &[Token::Number(acc), Token::Multiply]);
            } else {
                emit(&mut out, &[Token::Number(acc)]);
            }
            proof {
                let here = out@.subrange(before.len() as int, out@.len() as int);
                lemma_digit_count_bound(s@, i as int);
                if k < n && s@[k as int] == '(' {
                    assert(here =~= seq![Token::Number(acc), Token::Multiply]);
                } else {
                    assert(here =~= seq![Token::Number(acc)]);
                }
                assert(lex_from(s@, i as int) == prepend(here, lex_from(s@, k as int)));
                lemma_prepend_twice(before, here, lex_from(s@, k as int));
                assert(before + here =~= out@);
            }
            i = k;
        } else if c == '-' {
            let ghost before = out@;
            if i + 1 < n && s[i + 1] == '(' {
                emit(&mut out, &[
                    Token::Plus,
                    Token::LeftParen,
                    Token::Number(0),
                    Token::Minus,
                    Token::Number(1),
                    Token::RightParen,
                    Token::Multiply,
                ]);
            } else {
                emit(&mut out, &[Token::Minus]);
            }
            proof {
                let here = out@.subrange(before.len() as int, out@.len() as int);
                if i + 1 < n && s@[i + 1] == '(' {
                    assert(here =~= negated_group_prefix());
                } else {
                    assert(here =~= seq![Token::Minus]);
                }
                assert(lex_from(s@, i as int) == prepend(here, lex_from(s@, i + 1)));
                lemma_prepend_twice(before, here, lex_from(s@, i + 1));
                assert(before + here =~= out@);
            }
            i = i + 1;
        } else {
            match single_token_of(c) {
                Some(t) => {
                    let ghost before = out@;
                    out.push(t);
                    proof {
                        lemma_prepend_twice(before, seq![t], lex_from(s@, i + 1));
                        assert(before + seq![t] =~= out@);
                    }
                    i = i + 1;
                },
                None => {
                    return Err(LexFault::BadChar(c));
                },
            }
        }
    }
    proof {
        assert(out@ + Seq::<Token>::empty() =~= out@);
    }
    Ok(out)
}

} // verus!
