use vstd::prelude::*;

verus! {

/// A binary arithmetic operator.
#[derive(Debug, Clone, Copy, PartialEq, Eq, Structural)]
pub enum Operation {
    Add,
    Subtract,
    Multiply,
    Divide,
}

/// The smallest lexical unit of the source text.
#[derive(Debug, Clone, Copy, PartialEq, Eq, Structural)]
pub enum Token {
    Number(i64),
    Operation(Operation),
    ParenthesesOpen,
    ParenthesesClosed,
}

/// An expression tree: literals at the leaves, binary operations inside.
#[derive(Debug, PartialEq, Eq)]
pub enum Expression {
    Number(i64),
    Binary { left: Box<Expression>, operation: Operation, right: Box<Expression> },
}

/// Why the source text could not be split into tokens.
#[derive(Debug, Clone, Copy, PartialEq, Eq, Structural)]
pub enum LexError {
    /// A character that is neither a digit, an operator, a parenthesis nor
    /// ASCII whitespace; `position` counts characters from zero.
    UnexpectedCharacter { character: char, position: usize },
    /// The run of digits that starts at `position` denotes a value above `i64::MAX`.
    NumberOutOfRange { position: usize },
}

/// Why a token sequence is not a well-formed expression. Positions count
/// tokens from zero.
#[derive(Debug, Clone, Copy, PartialEq, Eq, Structural)]
pub enum ParseError {
    /// There were no tokens at all.
    EmptyInput,
    /// The tokens ran out where a number or `(` was expected.
    UnexpectedEnd,
    /// `token` stands where a number or `(` was expected.
    UnexpectedToken { position: usize, token: Token },
    /// A `)` was expected at `position` (which may be the end of the tokens).
    MissingClosingParenthesis { position: usize },
    /// A complete expression ended before the token at `position`.
    TrailingTokens { position: usize },
}

/// Why an expression tree has no value.
///
/// Arithmetic is checked 64-bit signed arithmetic: a division by zero, or a
/// sum, difference, product or quotient outside the range of `i64`, stops
/// the evaluation.
#[derive(Debug, Clone, Copy, PartialEq, Eq, Structural)]
pub enum ArithmeticError {
    DivisionByZero,
    Overflow,
}

/// The first failure met while running source text through all three stages.
#[derive(Debug, Clone, Copy, PartialEq, Eq, Structural)]
pub enum Error {
    Lex(LexError),
    Parse(ParseError),
    Arithmetic(ArithmeticError),
}

} // verus!
