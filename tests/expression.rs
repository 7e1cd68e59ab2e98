use infix_eval::error::ExprError;
use infix_eval::expression::Expression;
use infix_eval::term::Term;
use infix_eval::token::Token;
use infix_eval::token::Token::{Divide, LeftParen, Minus, Multiply, Number, Plus, RightParen};

/// Floating-point value of a tree, as an interactive shell computes it.
fn value(t: &Term) -> f64 {
    match t {
        Term::Number(n) => *n as f64,
        Term::Binary(op, b, a) => {
            let (b, a) = (value(b), value(a));
            match op {
                Token::Plus => b + a,
                Token::Minus => b - a,
                Token::Multiply => b * a,
                Token::Divide => b / a,
                other => panic!("{:?} is no operator", other),
            }
        }
    }
}

fn evaluate(text: &str) -> Result<f64, ExprError> {
    let expression = Expression::new(text)?;
    let term = expression.to_term()?;
    Ok(value(&term))
}

fn num(n: u64) -> Box<Term> {
    Box::new(Term::Number(n))
}

#[test]
fn precedence_test() {
    assert!(Token::precedence(&Multiply) == Token::precedence(&Divide));
    assert!(Token::precedence(&Multiply) > Token::precedence(&Plus));
    assert!(Token::precedence(&Multiply) > Token::precedence(&Minus));
    assert!(Token::precedence(&Divide) > Token::precedence(&Plus));
    assert!(Token::precedence(&Divide) > Token::precedence(&Minus));
    assert!(Token::precedence(&Plus) == Token::precedence(&Minus));
}

#[test]
fn precedence_of_non_operators() {
    assert_eq!(Token::precedence(&Number(4)), None);
    assert_eq!(Token::precedence(&LeftParen), None);
    assert_eq!(Token::precedence(&RightParen), None);
    assert_eq!(Token::precedence(&Multiply), Some(1));
    assert_eq!(Token::precedence(&Minus), Some(0));
}

#[test]
fn tokenize() {
    let tokens = Expression::tokenize("12-(13+7)*3").unwrap();
    let wanted_tokens = vec![
        Number(12),
        Plus,
        LeftParen,
        Number(0),
        Minus,
        Number(1),
        RightParen,
        Multiply,
        LeftParen,
        Number(13),
        Plus,
        Number(7),
        RightParen,
        Multiply,
        Number(3),
    ];

    assert_eq!(wanted_tokens, tokens);
}

#[test]
fn to_post() {
    let tokens = Expression::to_post(Expression::tokenize("133+(15-(125/3)+1)").unwrap()).unwrap();
    let wanted_tokens = vec![
        Number(133),
        Number(15),
        Number(0),
        Number(1),
        Minus,
        Number(125),
        Number(3),
        Divide,
        Multiply,
        Plus,
        Number(1),
        Plus,
        Plus,
    ];

    assert_eq!(wanted_tokens, tokens);
}

#[test]
fn new_expression() {
    let expression = Expression::new("125-(145*9+3-2(12/3))-2").unwrap();
    let wanted_tokens = vec![
        Number(125),
        Number(0),
        Number(1),
        Minus,
        Number(145),
        Number(9),
        Multiply,
        Number(3),
        Plus,
        Number(2),
        Number(12),
        Number(3),
        Divide,
        Multiply,
        Minus,
        Multiply,
        Plus,
        Number(2),
        Minus,
    ];

    assert_eq!(expression.as_str(), "125-(145*9+3-2(12/3))-2");
    assert_eq!(expression.tokens(), wanted_tokens.as_slice());
}

#[test]
fn evaluate_expression() {
    let result = evaluate("125-(145*9+3-2(12/3))-2").unwrap();
    let wanted_result = -1177.0;

    assert_eq!(result, wanted_result);
}

#[test]
fn subtraction_groups_from_the_left() {
    assert_eq!(evaluate("8-3-2").unwrap(), 3.0);
    let term = Expression::new("8-3-2").unwrap().to_term().unwrap();
    let wanted = Term::Binary(Minus, Box::new(Term::Binary(Minus, num(8), num(3))), num(2));
    assert_eq!(term, wanted);
}

#[test]
fn division_groups_from_the_left() {
    assert_eq!(evaluate("64/4/2").unwrap(), 8.0);
    assert_eq!(evaluate("7/2").unwrap(), 3.5);
}

#[test]
fn implicit_multiplication() {
    assert_eq!(evaluate("2(3+4)").unwrap(), 14.0);
    assert_eq!(
        Expression::tokenize("2(3)").unwrap(),
        vec![Number(2), Multiply, LeftParen, Number(3), RightParen]
    );
}

#[test]
fn no_multiplication_between_groups() {
    assert_eq!(
        Expression::tokenize("(2)(3)").unwrap(),
        vec![LeftParen, Number(2), RightParen, LeftParen, Number(3), RightParen]
    );
    assert_eq!(evaluate("(2)(3)"), Err(ExprError::EmptyExpression));
}

#[test]
fn precedence_in_evaluation() {
    assert_eq!(evaluate("2+3*4").unwrap(), 14.0);
    assert_eq!(evaluate("(2+3)*4").unwrap(), 20.0);
}

#[test]
fn minus_before_group() {
    assert_eq!(evaluate("10-(2+3)").unwrap(), 5.0);
    assert_eq!(
        Expression::tokenize("-(2)").unwrap(),
        vec![Plus, LeftParen, Number(0), Minus, Number(1), RightParen, Multiply, LeftParen, Number(2), RightParen]
    );
}

#[test]
fn leading_minus_underflows() {
    assert_eq!(Expression::tokenize("-3").unwrap(), vec![Minus, Number(3)]);
    assert_eq!(evaluate("-3"), Err(ExprError::StackUnderflow));
}

#[test]
fn division_by_zero_is_infinite() {
    assert_eq!(evaluate("1/0").unwrap(), f64::INFINITY);
    assert!(evaluate("0/0").unwrap().is_nan());
}

#[test]
fn malformed_inputs() {
    assert_eq!(evaluate("12++"), Err(ExprError::StackUnderflow));
    assert_eq!(Expression::new("(12").err(), Some(ExprError::UnbalancedBrackets));
    assert_eq!(Expression::new("12)").err(), Some(ExprError::UnbalancedBrackets));
    assert_eq!(Expression::new(")(").err(), Some(ExprError::UnbalancedBrackets));
}

#[test]
fn empty_input_has_no_value() {
    let expression = Expression::new("   ").unwrap();
    assert_eq!(expression.as_str(), "");
    assert_eq!(expression.to_term(), Err(ExprError::EmptyExpression));
}

#[test]
fn invalid_character() {
    assert_eq!(
        Expression::new("2 + x").err(),
        Some(ExprError::InvalidCharacter('x', "2+x".to_string()))
    );
    assert_eq!(
        Expression::tokenize("1.5").err(),
        Some(ExprError::InvalidCharacter('.', "1.5".to_string()))
    );
}

#[test]
fn numeric_overflow() {
    assert_eq!(Expression::tokenize("18446744073709551615").unwrap(), vec![Number(u64::MAX)]);
    assert_eq!(Expression::tokenize("18446744073709551616").err(), Some(ExprError::NumericOverflow));
    assert_eq!(Expression::new("1+99999999999999999999x").err(), Some(ExprError::NumericOverflow));
}

#[test]
fn spaces_are_removed() {
    let expression = Expression::new(" 1 +  2 * 3 ").unwrap();
    assert_eq!(expression.as_str(), "1+2*3");
    assert_eq!(expression.tokens(), &[Number(1), Number(2), Number(3), Multiply, Plus]);
}

#[test]
fn evaluation_repeats() {
    let expression = Expression::new("6/4").unwrap();
    let first = value(&expression.to_term().unwrap());
    let second = value(&expression.to_term().unwrap());
    assert_eq!(first, 1.5);
    assert_eq!(first, second);
}

#[test]
fn equal_precedence_postfix_order() {
    let minus = Expression::to_post(Expression::tokenize("8-3-2").unwrap()).unwrap();
    assert_eq!(minus, vec![Number(8), Number(3), Minus, Number(2), Minus]);
    let mixed = Expression::to_post(Expression::tokenize("8/4*2").unwrap()).unwrap();
    assert_eq!(mixed, vec![Number(8), Number(4), Divide, Number(2), Multiply]);
}

#[test]
fn well_bracketed_text_converts() {
    let expression = Expression::new("((1+2)*(3-4))/5-(6)").unwrap();
    assert_eq!(evaluate(expression.as_str()).unwrap(), -6.6);
    assert!(Expression::new("(((7)))").is_ok());
    assert_eq!(evaluate("(((7)))").unwrap(), 7.0);
}
