use crate::enums::{ArithmeticError, Error, Expression, Operation};
use crate::parser::{parse, parse_tokens};
use crate::tokenizer::{lex, tokenize};
use vstd::prelude::*;

verus! {

/// The absolute value of `a`.
pub open spec fn abs(a: int) -> int {
    if a < 0 {
        -a
    } else {
        a
    }
}

/// `a / b` rounded toward zero.
pub open spec fn truncated_div(a: int, b: int) -> int {
    let q = abs(a) / abs(b);
    if (a < 0) == (b < 0) {
        q
    } else {
        -q
    }
}

/// The exact mathematical result of `a op b`.
pub open spec fn exact(op: Operation, a: int, b: int) -> int {
    match op {
        Operation::Add => a + b,
        Operation::Subtract => a - b,
        Operation::Multiply => a * b,
        Operation::Divide => truncated_div(a, b),
    }
}

/// `a op b` in checked 64-bit arithmetic.
pub open spec fn apply(op: Operation, a: i64, b: i64) -> Result<i64, ArithmeticError> {
    if op == Operation::Divide && b == 0 {
        Err(ArithmeticError::DivisionByZero)
    } else if i64::MIN <= exact(op, a as int, b as int) <= i64::MAX {
        Ok(exact(op, a as int, b as int) as i64)
    } else {
        Err(ArithmeticError::Overflow)
    }
}

/// The value of a tree: left operand first, then right, then the operator;
/// the first error met ends the evaluation.
pub open spec fn evaluation(e: Expression) -> Result<i64, ArithmeticError>
    decreases e,
{
    match e {
        Expression::Number(n) => Ok(n),
        Expression::Binary { left, operation, right } => match evaluation(*left) {
            Ok(a) => match evaluation(*right) {
                Ok(b) => apply(operation, a, b),
                Err(err) => Err(err),
            },
            Err(err) => Err(err),
        },
    }
}

/// What running source text `s` through all three stages gives.
pub open spec fn outcome(s: Seq<char>) -> Result<i64, Error> {
    match lex(s) {
        Ok(tokens) => match parse_tokens(tokens) {
            Ok(e) => match evaluation(e) {
                Ok(v) => Ok(v),
                Err(err) => Err(Error::Arithmetic(err)),
            },
            Err(err) => Err(Error::Parse(err)),
        },
        Err(err) => Err(Error::Lex(err)),
    }
}

fn apply_operation(op: Operation, a: i64, b: i64) -> (r: Result<i64, ArithmeticError>)
    ensures
        r == apply(op, a, b),
{
    let checked = match op {
        Operation::Add => a.checked_add(b),
        Operation::Subtract => a.checked_sub(b),
        Operation::Multiply => a.checked_mul(b),
        Operation::Divide => {
            if b == 0 {
                return Err(ArithmeticError::DivisionByZero);
            }
            a.checked_div(b)
        },
    };
    match checked {
        Some(v) => Ok(v),
        None => Err(ArithmeticError::Overflow),
    }
}

/// Evaluates a tree bottom-up in checked 64-bit arithmetic; division
/// rounds toward zero.
pub fn evaluate(expr: &Expression) -> (r: Result<i64, ArithmeticError>)
    ensures
        r == evaluation(*expr),
    decreases expr,
{
    match expr {
        Expression::Number(n) => Ok(*n),
        Expression::Binary { left, operation, right } => {
            let a = match evaluate(left) {
                Ok(v) => v,
                Err(err) => {
                    return Err(err);
                },
            };
            let b = match evaluate(right) {
                Ok(v) => v,
                Err(err) => {
                    return Err(err);
                },
            };
            apply_operation(*operation, a, b)
        },
    }
}

/// Tokenizes, parses and evaluates source text, stopping at the first error.
pub fn execute(code_to_execute: &str) -> (r: Result<i64, Error>)
    ensures
        r == outcome(code_to_execute@),
{
    let tokens = match tokenize(code_to_execute) {
        Ok(ts) => ts,
        Err(err) => {
            return Err(Error::Lex(err));
        },
    };
    let ast = match parse(tokens.as_slice()) {
        Ok(e) => e,
        Err(err) => {
            return Err(Error::Parse(err));
        },
    };
    match evaluate(&ast) {
        Ok(v) => Ok(v),
        Err(err) => Err(Error::Arithmetic(err)),
    }
}

} // verus!
