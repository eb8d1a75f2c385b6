use nali::enums::{LexError, Operation, Token};
use nali::tokenizer::tokenize;

#[test]
fn basic_case() {
    assert_eq!(
        tokenize("5 + 5"),
        Ok(vec![
            Token::Number(5),
            Token::Operation(Operation::Add),
            Token::Number(5)
        ])
    )
}

#[test]
fn no_white_space() {
    assert_eq!(
        tokenize("55+55"),
        Ok(vec![
            Token::Number(55),
            Token::Operation(Operation::Add),
            Token::Number(55)
        ])
    )
}

#[test]
fn mixed_spacing_and_multi_digit() {
    assert_eq!(
        tokenize("  12+  34   *5 "),
        Ok(vec![
            Token::Number(12),
            Token::Operation(Operation::Add),
            Token::Number(34),
            Token::Operation(Operation::Multiply),
            Token::Number(5),
        ])
    )
}

#[test]
fn parentheses() {
    assert_eq!(
        tokenize("12 * (5 + 5)"),
        Ok(vec![
            Token::Number(12),
            Token::Operation(Operation::Multiply),
            Token::ParenthesesOpen,
            Token::Number(5),
            Token::Operation(Operation::Add),
            Token::Number(5),
            Token::ParenthesesClosed,
        ])
    )
}

#[test]
fn identifier() {
    // Identifiers are not part of the language: the first letter is rejected.
    assert_eq!(
        tokenize("test_123"),
        Err(LexError::UnexpectedCharacter {
            character: 't',
            position: 0
        })
    )
}

#[test]
fn every_symbol() {
    assert_eq!(
        tokenize("+-*/()"),
        Ok(vec![
            Token::Operation(Operation::Add),
            Token::Operation(Operation::Subtract),
            Token::Operation(Operation::Multiply),
            Token::Operation(Operation::Divide),
            Token::ParenthesesOpen,
            Token::ParenthesesClosed,
        ])
    )
}

#[test]
fn empty_and_blank_text() {
    assert_eq!(tokenize(""), Ok(vec![]));
    assert_eq!(tokenize(" \t\r\n"), Ok(vec![]));
}

#[test]
fn leading_zeros_and_split_numbers() {
    assert_eq!(tokenize("007"), Ok(vec![Token::Number(7)]));
    assert_eq!(
        tokenize("1 2"),
        Ok(vec![Token::Number(1), Token::Number(2)])
    );
}

#[test]
fn number_range() {
    assert_eq!(
        tokenize("9223372036854775807"),
        Ok(vec![Token::Number(i64::MAX)])
    );
    assert_eq!(
        tokenize("1 + 9223372036854775808"),
        Err(LexError::NumberOutOfRange { position: 4 })
    );
    assert_eq!(
        tokenize("99999999999999999999999 x"),
        Err(LexError::NumberOutOfRange { position: 0 })
    );
}

#[test]
fn positions_count_characters() {
    assert_eq!(
        tokenize("é+x"),
        Err(LexError::UnexpectedCharacter {
            character: 'é',
            position: 0
        })
    );
    assert_eq!(
        tokenize("1 é"),
        Err(LexError::UnexpectedCharacter {
            character: 'é',
            position: 2
        })
    );
    assert_eq!(
        tokenize("1+2.5"),
        Err(LexError::UnexpectedCharacter {
            character: '.',
            position: 3
        })
    );
}
