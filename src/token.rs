use vstd::prelude::*;

verus! {

/// A lexical unit of an arithmetic expression.
#[derive(Clone, Copy, Debug, PartialEq, Eq, Structural)]
pub enum Token {
    /// A non-negative integer literal.
    Number(u64),
    Plus,
    Minus,
    Multiply,
    Divide,
    LeftParen,
    RightParen,
}

/// Binding strength of a binary operator; `None` for anything else.
pub open spec fn precedence_of(t: Token) -> Option<usize> {
    match t {
        Token::Multiply | Token::Divide => Some(1),
        Token::Plus | Token::Minus => Some(0),
        _ => None,
    }
}

impl Token {
    /// Returns the precedence of an operator token, or `None` for a number or a bracket.
    pub fn precedence(&self) -> (r: Option<usize>)
        ensures
            r == precedence_of(*self),
    {
        match *self {
            Token::Multiply | Token::Divide => Some(1),
            Token::Plus | Token::Minus => Some(0),
            _ => None,
        }
    }
}

} // verus!
