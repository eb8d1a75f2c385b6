use nali::enums::{ArithmeticError, Error, LexError, Operation, ParseError, Token};
use nali::interpreter::execute;

#[test]
fn basic_addition() {
    assert_eq!(execute("5 + 5"), Ok(10))
}

#[test]
fn three_numbers_addition() {
    assert_eq!(execute("5 + 5 + 5"), Ok(15))
}

#[test]
fn basic_subtraction() {
    assert_eq!(execute("5 - 5"), Ok(0))
}

#[test]
fn subtraction_advanced() {
    // Operators of one level group to the left: (5 - 5) - 5.
    assert_eq!(execute("5 - 5 - 5"), Ok(-5))
}

#[test]
fn multiplication() {
    assert_eq!(execute("5 * 5"), Ok(25))
}

#[test]
fn deal_with_white_space() {
    assert_eq!(execute("5     +   5"), Ok(10))
}

#[test]
fn no_space_same_as_spaced() {
    assert_eq!(execute("5+5"), Ok(10));
    assert_eq!(execute("5+5"), execute("5     +   5"));
    assert_eq!(execute("\t5\n+\r\n5 "), Ok(10));
}

#[test]
fn precedence_of_multiplication() {
    assert_eq!(execute("3 + 5 * 5"), Ok(28));
    assert_eq!(execute("5 * 5 + 3"), Ok(28));
}

#[test]
fn parentheses_override_precedence() {
    assert_eq!(execute("2 * (5 + 5)"), Ok(20));
    assert_eq!(execute("2 * (3 + (4 * 5))"), Ok(46));
    assert_eq!(execute("((7))"), Ok(7));
}

#[test]
fn division_truncates() {
    assert_eq!(execute("10 / 2"), Ok(5));
    assert_eq!(execute("3 + 10 / 5 * 10 - 10 / 2"), Ok(18));
    assert_eq!(execute("7 / 2"), Ok(3));
    assert_eq!(execute("(0 - 7) / 2"), Ok(-3));
    assert_eq!(execute("7 / (0 - 2)"), Ok(-3));
    assert_eq!(execute("100 / 10 / 5"), Ok(2));
}

#[test]
fn division_by_zero() {
    assert_eq!(
        execute("5 / 0"),
        Err(Error::Arithmetic(ArithmeticError::DivisionByZero))
    );
    assert_eq!(
        execute("1 + 5 / (3 - 3)"),
        Err(Error::Arithmetic(ArithmeticError::DivisionByZero))
    );
}

#[test]
fn malformed_input_fails() {
    assert_eq!(execute(""), Err(Error::Parse(ParseError::EmptyInput)));
    assert_eq!(execute("   "), Err(Error::Parse(ParseError::EmptyInput)));
    assert_eq!(
        execute("+ 5"),
        Err(Error::Parse(ParseError::UnexpectedToken {
            position: 0,
            token: Token::Operation(Operation::Add)
        }))
    );
    assert_eq!(execute("5 +"), Err(Error::Parse(ParseError::UnexpectedEnd)));
    assert_eq!(
        execute("(5 + 5"),
        Err(Error::Parse(ParseError::MissingClosingParenthesis { position: 4 }))
    );
    assert_eq!(
        execute("5 & 5"),
        Err(Error::Lex(LexError::UnexpectedCharacter {
            character: '&',
            position: 2
        }))
    );
}

#[test]
fn leading_minus_is_an_operator() {
    assert_eq!(
        execute("-5"),
        Err(Error::Parse(ParseError::UnexpectedToken {
            position: 0,
            token: Token::Operation(Operation::Subtract)
        }))
    );
}

#[test]
fn trailing_tokens_fail() {
    assert_eq!(
        execute("5 5"),
        Err(Error::Parse(ParseError::TrailingTokens { position: 1 }))
    );
    assert_eq!(
        execute("(5))"),
        Err(Error::Parse(ParseError::TrailingTokens { position: 3 }))
    );
}

#[test]
fn first_error_wins() {
    // The lexer runs to the end before the parser sees anything.
    assert_eq!(
        execute("+ 5 $"),
        Err(Error::Lex(LexError::UnexpectedCharacter {
            character: '$',
            position: 4
        }))
    );
    // The left operand is evaluated before the right one.
    assert_eq!(
        execute("(1 / 0) * (9223372036854775807 + 1)"),
        Err(Error::Arithmetic(ArithmeticError::DivisionByZero))
    );
}

#[test]
fn largest_values() {
    assert_eq!(execute("9223372036854775807"), Ok(i64::MAX));
    assert_eq!(execute("0 - 9223372036854775807 - 1"), Ok(i64::MIN));
    assert_eq!(
        execute("9223372036854775807 + 1"),
        Err(Error::Arithmetic(ArithmeticError::Overflow))
    );
    assert_eq!(
        execute("4611686018427387904 * 2"),
        Err(Error::Arithmetic(ArithmeticError::Overflow))
    );
    assert_eq!(
        execute("(0 - 9223372036854775807 - 1) / (0 - 1)"),
        Err(Error::Arithmetic(ArithmeticError::Overflow))
    );
    assert_eq!(
        execute("0 - 9223372036854775807 - 2"),
        Err(Error::Arithmetic(ArithmeticError::Overflow))
    );
}

#[test]
fn repeated_runs_agree() {
    for source in ["3 + 10 / 5 * 10 - 10 / 2", "5 / 0", "(5 + 5", "5 & 5"] {
        assert_eq!(execute(source), execute(source));
    }
}
