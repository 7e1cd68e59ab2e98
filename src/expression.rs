use vstd::prelude::*;

use crate::error::ExprError;
use crate::lexer::{
    chars_balanced_from, in_alphabet, lemma_well_bracketed_lexes, lex, lex_chars, LexFault,
};
use crate::postfix::{
    bracket_free, lemma_balanced_converts, lemma_postfix_bracket_free, postfix_of, shunting_yard,
};
use crate::term::{build_term, stack_depth, term_postfix, Term};
use crate::token::Token;

verus! {

/// `s` with every space character removed.
pub open spec fn strip_spaces(s: Seq<char>) -> Seq<char>
    decreases s.len(),
{
    if s.len() == 0 {
        Seq::empty()
    } else if s.last() == ' ' {
        strip_spaces(s.drop_last())
    } else {
        strip_spaces(s.drop_last()).push(s.last())
    }
}

proof fn lemma_strip_spaces_keeps(s: Seq<char>)
    requires
        forall|k: int| 0 <= k < s.len() ==> #[trigger] s[k] != ' ',
    ensures
        strip_spaces(s) == s,
    decreases s.len(),
{
    if s.len() > 0 {
        lemma_strip_spaces_keeps(s.drop_last());
        assert(s.drop_last().push(s.last()) =~= s);
    }
}

/// Text made only of digits, `+ - * /` and matching brackets is read as it stands and always
/// has a postfix form, unless a run of digits is too large for a `u64`: on such text
/// `Expression::new` fails with `NumericOverflow` or not at all.
pub proof fn lemma_well_bracketed_text_converts(s: Seq<char>)
    requires
        forall|k: int| 0 <= k < s.len() ==> in_alphabet(#[trigger] s[k]),
        chars_balanced_from(s, 0, 0),
    ensures
        strip_spaces(s) == s,
        lex(s) == Err::<Seq<Token>, LexFault>(LexFault::TooLarge) || (lex(s) is Ok && postfix_of(
            lex(s)->Ok_0,
        ) is Some),
{
    assert forall|k: int| 0 <= k < s.len() implies #[trigger] s[k] != ' ' by {
        assert(in_alphabet(s[k]));
    }
    lemma_strip_spaces_keeps(s);
    lemma_well_bracketed_lexes(s);
    if lex(s) is Ok {
        lemma_balanced_converts(lex(s)->Ok_0);
    }
}

/// Whether `e` is the error that reports lexer fault `f` on the input `s`.
pub open spec fn reports(e: ExprError, f: LexFault, s: Seq<char>) -> bool {
    match f {
        LexFault::BadChar(c) => e matches ExprError::InvalidCharacter(d, ctx) && d == c && ctx@ == s,
        LexFault::TooLarge => e == ExprError::NumericOverflow,
    }
}

/// Relies on `String::push`: appends one character.
#[verifier::external_body]
fn push_char(s: &mut String, c: char)
    ensures
        final(s)@ == old(s)@.push(c),
{
    s.push(c)
}

/// The characters of `s`, in order.
fn chars_of(s: &str) -> (r: Vec<char>)
    ensures
        r@ == s@,
{
    let mut v: Vec<char> = Vec::new();
    for c in it: s.chars()
        invariant
            it.seq() == s@,
            v@ == s@.take(it.index() as int),
    {
        v.push(c);
    }
    proof {
        assert(v@ =~= s@);
    }
    v
}

/// A copy of `s` without its space characters.
fn without_spaces(s: &str) -> (r: String)
    ensures
        r@ == strip_spaces(s@),
{
    let cs = chars_of(s);
    let mut out = String::new();
    for i in 0..cs.len()
        invariant
            cs@ == s@,
            out@ == strip_spaces(s@.take(i as int)),
    {
        proof {
            assert(s@.take(i + 1).drop_last() =~= s@.take(i as int));
        }
        if cs[i] != ' ' {
            push_char(&mut out, cs[i]);
        }
    }
    proof {
        assert(s@.take(s@.len() as int) =~= s@);
    }
    out
}

/// An arithmetic expression, kept as its space-free text and its postfix token sequence.
pub struct Expression {
    original: String,
    tokens: Vec<Token>,
}

impl Expression {
    /// The postfix sequence holds operators and numbers only.
    #[verifier::type_invariant]
    spec fn well_formed(self) -> bool {
        bracket_free(self.tokens@)
    }

    /// The text the expression was read from, spaces removed.
    pub closed spec fn text(self) -> Seq<char> {
        self.original@
    }

    /// The expression in postfix order.
    pub closed spec fn postfix(self) -> Seq<Token> {
        self.tokens@
    }

    /// Reads an expression: removes spaces, splits the rest into tokens and puts them in
    /// postfix order.
    pub fn new(expr: &str) -> (r: Result<Expression, ExprError>)
        ensures
            match lex(strip_spaces(expr@)) {
                Err(f) => r is Err && reports(r->Err_0, f, strip_spaces(expr@)),
                Ok(ts) => match postfix_of(ts) {
                    None => r == Err::<Expression, ExprError>(ExprError::UnbalancedBrackets),
                    Some(p) => r is Ok && r->Ok_0.text() == strip_spaces(expr@) && r->Ok_0.postfix()
                        == p,
                },
            },
    {
        let text = without_spaces(expr);
        let infix = Self::tokenize(text.as_str())?;
        let tokens = Self::to_post(infix)?;
        proof {
            lemma_postfix_bracket_free(lex(text@)->Ok_0);
        }
        Ok(Expression { original: text, tokens })
    }

    /// Splits space-free text into tokens.
    pub fn tokenize(expr: &str) -> (r: Result<Vec<Token>, ExprError>)
        ensures
            match lex(expr@) {
                Ok(ts) => r is Ok && r->Ok_0@ == ts,
                Err(f) => r is Err && reports(r->Err_0, f, expr@),
            },
    {
        let cs = chars_of(expr);
        match lex_chars(&cs) {
            Ok(v) => Ok(v),
            Err(LexFault::BadChar(c)) => Err(ExprError::InvalidCharacter(c, expr.to_owned())),
            Err(LexFault::TooLarge) => Err(ExprError::NumericOverflow),
        }
    }

    /// Puts an infix token sequence in postfix order.
    pub fn to_post(tokens: Vec<Token>) -> (r: Result<Vec<Token>, ExprError>)
        ensures
            match postfix_of(tokens@) {
                Some(p) => r is Ok && r->Ok_0@ == p,
                None => r == Err::<Vec<Token>, ExprError>(ExprError::UnbalancedBrackets),
            },
    {
        match shunting_yard(&tokens) {
            Some(v) => Ok(v),
            None => Err(ExprError::UnbalancedBrackets),
        }
    }

    /// The tree that the postfix sequence describes: each operator applied to the two
    /// values before it, the nearer one on the right.
    pub fn to_term(&self) -> (r: Result<Term, ExprError>)
        ensures
            match stack_depth(self.postfix()) {
                None => r == Err::<Term, ExprError>(ExprError::StackUnderflow),
                Some(d) => if d == 1 {
                    r is Ok && term_postfix(r->Ok_0) == self.postfix()
                } else {
                    r == Err::<Term, ExprError>(ExprError::EmptyExpression)
                },
            },
    {
        build_term(&self.tokens)
    }

    /// The space-free text of the expression.
    pub fn as_str(&self) -> (r: &str)
        ensures
            r@ == self.text(),
    {
        self.original.as_str()
    }

    /// The expression in postfix order.
    pub fn tokens(&self) -> (r: &[Token])
        ensures
            r@ == self.postfix(),
            bracket_free(r@),
    {
        proof {
            use_type_invariant(self);
        }
        self.tokens.as_slice()
    }
}

} // verus!
