use crate::enums::{Expression, Operation, ParseError, Token};
use vstd::prelude::*;

verus! {

/// What parsing one grammar level from a position yields: the tree and the
/// position just past it, or the first error.
pub type Parsed = Result<(Expression, nat), ParseError>;

/// The operator at position `p`, if there is an operator token there.
pub open spec fn operation_at(t: Seq<Token>, p: nat) -> Option<Operation> {
    if p < t.len() {
        match t[p as int] {
            Token::Operation(op) => Some(op),
            _ => None,
        }
    } else {
        None
    }
}

/// `+` and `-`, the operators of the loosest-binding level.
pub open spec fn is_additive(op: Operation) -> bool {
    op == Operation::Add || op == Operation::Subtract
}

/// `*` and `/`, the operators of the tighter-binding level.
pub open spec fn is_multiplicative(op: Operation) -> bool {
    op == Operation::Multiply || op == Operation::Divide
}

/// `factor := NUMBER | '(' expression ')'`
pub open spec fn factor_at(t: Seq<Token>, pos: nat) -> Parsed
    decreases t.len() - pos, 0int,
{
    if pos >= t.len() {
        Err(ParseError::UnexpectedEnd)
    } else {
        match t[pos as int] {
            Token::Number(n) => Ok((Expression::Number(n), pos + 1)),
            Token::ParenthesesOpen => match expression_at(t, pos + 1) {
                Ok((e, p)) => if p < t.len() && t[p as int] == Token::ParenthesesClosed {
                    Ok((e, p + 1))
                } else {
                    Err(ParseError::MissingClosingParenthesis { position: p as usize })
                },
                Err(err) => Err(err),
            },
            token => Err(ParseError::UnexpectedToken { position: pos as usize, token }),
        }
    }
}

/// The `( ('*' | '/') factor )*` tail of a term whose operands so far fold
/// into `left`, read from position `p`.
///
/// Every factor consumes at least one token; the test `p + 1 < q` only makes
/// that visible to the termination measure.
pub open spec fn term_rest(t: Seq<Token>, p: nat, left: Expression) -> Parsed
    decreases t.len() - p, 1int,
{
    match operation_at(t, p) {
        Some(op) => if is_multiplicative(op) {
            match factor_at(t, p + 1) {
                Ok((right, q)) => {
                    let folded = Expression::Binary {
                        left: Box::new(left),
                        operation: op,
                        right: Box::new(right),
                    };
                    if p + 1 < q <= t.len() {
                        term_rest(t, q, folded)
                    } else {
                        Ok((folded, q))
                    }
                },
                Err(err) => Err(err),
            }
        } else {
            Ok((left, p))
        },
        None => Ok((left, p)),
    }
}

/// `term := factor ( ('*' | '/') factor )*`, folded to the left.
pub open spec fn term_at(t: Seq<Token>, pos: nat) -> Parsed
    decreases t.len() - pos, 2int,
{
    match factor_at(t, pos) {
        Ok((f, p)) => if pos < p <= t.len() {
            term_rest(t, p, f)
        } else {
            Ok((f, p))
        },
        Err(err) => Err(err),
    }
}

/// The `( ('+' | '-') term )*` tail of an expression whose operands so far
/// fold into `left`, read from position `p`.
pub open spec fn expression_rest(t: Seq<Token>, p: nat, left: Expression) -> Parsed
    decreases t.len() - p, 3int,
{
    match operation_at(t, p) {
        Some(op) => if is_additive(op) {
            match term_at(t, p + 1) {
                Ok((right, q)) => {
                    let folded = Expression::Binary {
                        left: Box::new(left),
                        operation: op,
                        right: Box::new(right),
                    };
                    if p + 1 < q <= t.len() {
                        expression_rest(t, q, folded)
                    } else {
                        Ok((folded, q))
                    }
                },
                Err(err) => Err(err),
            }
        } else {
            Ok((left, p))
        },
        None => Ok((left, p)),
    }
}

/// `expression := term ( ('+' | '-') term )*`, folded to the left.
pub open spec fn expression_at(t: Seq<Token>, pos: nat) -> Parsed
    decreases t.len() - pos, 4int,
{
    match term_at(t, pos) {
        Ok((l, p)) => if pos < p <= t.len() {
            expression_rest(t, p, l)
        } else {
            Ok((l, p))
        },
        Err(err) => Err(err),
    }
}

/// The tree of a whole token sequence: one expression that uses every token.
pub open spec fn parse_tokens(t: Seq<Token>) -> Result<Expression, ParseError> {
    if t.len() == 0 {
        Err(ParseError::EmptyInput)
    } else {
        match expression_at(t, 0) {
            Ok((e, p)) => if p == t.len() {
                Ok(e)
            } else {
                Err(ParseError::TrailingTokens { position: p as usize })
            },
            Err(err) => Err(err),
        }
    }
}

/// A forward-only cursor over a token sequence.
struct Parser<'a> {
    tokens: &'a [Token],
    pos: usize,
}

/// What one parsing step promises: the cursor never moves back and stays
/// within the tokens; on success the tree and the new position are those
/// that `expected` gives, and the position has moved forward; on failure
/// the error is the one `expected` gives.
pub open spec fn step_matches(
    expected: Parsed,
    r: Result<Expression, ParseError>,
    start: nat,
    end: nat,
    len: nat,
) -> bool {
    &&& start <= end <= len
    &&& match expected {
        Ok((e, p)) => r == Ok::<Expression, ParseError>(e) && end == p && start < end,
        Err(err) => r == Err::<Expression, ParseError>(err),
    }
}

impl<'a> Parser<'a> {
    fn operation(&self) -> (r: Option<Operation>)
        ensures
            r == operation_at(self.tokens@, self.pos as nat),
            self.tokens@.len() <= usize::MAX,
    {
        if self.pos < self.tokens.len() {
            match self.tokens[self.pos] {
                Token::Operation(op) => Some(op),
                _ => None,
            }
        } else {
            None
        }
    }

    fn parse_expression(&mut self) -> (r: Result<Expression, ParseError>)
        requires
            old(self).pos <= old(self).tokens@.len(),
        ensures
            final(self).tokens == old(self).tokens,
            step_matches(
                expression_at(old(self).tokens@, old(self).pos as nat),
                r,
                old(self).pos as nat,
                final(self).pos as nat,
                old(self).tokens@.len(),
            ),
        decreases old(self).tokens@.len() - old(self).pos, 4int,
    {
        let ghost t = self.tokens@;
        let ghost start = self.pos as nat;
        let mut left = match self.parse_term() {
            Ok(e) => e,
            Err(err) => {
                return Err(err);
            },
        };
        loop
            invariant
                self.tokens == old(self).tokens,
                t == old(self).tokens@,
                start == old(self).pos,
                start < self.pos <= t.len(),
                expression_at(t, start) == expression_rest(t, self.pos as nat, left),
            decreases t.len() - self.pos,
        {
            match self.operation() {
                Some(op) => {
                    if op == Operation::Add || op == Operation::Subtract {
                        self.pos = self.pos + 1;
                        let right = match self.parse_term() {
                            Ok(e) => e,
                            Err(err) => {
                                return Err(err);
                            },
                        };
                        left = Expression::Binary {
                            left: Box::new(left),
                            operation: op,
                            right: Box::new(right),
                        };
                    } else {
                        return Ok(left);
                    }
                },
                None => {
                    return Ok(left);
                },
            }
        }
    }

    fn parse_term(&mut self) -> (r: Result<Expression, ParseError>)
        requires
            old(self).pos <= old(self).tokens@.len(),
        ensures
            final(self).tokens == old(self).tokens,
            step_matches(
                term_at(old(self).tokens@, old(self).pos as nat),
                r,
                old(self).pos as nat,
                final(self).pos as nat,
                old(self).tokens@.len(),
            ),
        decreases old(self).tokens@.len() - old(self).pos, 2int,
    {
        let ghost t = self.tokens@;
        let ghost start = self.pos as nat;
        let mut left = match self.parse_factor() {
            Ok(e) => e,
            Err(err) => {
                return Err(err);
            },
        };
        loop
            invariant
                self.tokens == old(self).tokens,
                t == old(self).tokens@,
                start == old(self).pos,
                start < self.pos <= t.len(),
                term_at(t, start) == term_rest(t, self.pos as nat, left),
            decreases t.len() - self.pos,
        {
            match self.operation() {
                Some(op) => {
                    if op == Operation::Multiply || op == Operation::Divide {
                        self.pos = self.pos + 1;
                        let right = match self.parse_factor() {
                            Ok(e) => e,
                            Err(err) => {
                                return Err(err);
                            },
                        };
                        left = Expression::Binary {
                            left: Box::new(left),
                            operation: op,
                            right: Box::new(right),
                        };
                    } else {
                        return Ok(left);
                    }
                },
                None => {
                    return Ok(left);
                },
            }
        }
    }

    fn parse_factor(&mut self) -> (r: Result<Expression, ParseError>)
        requires
            old(self).pos <= old(self).tokens@.len(),
        ensures
            final(self).tokens == old(self).tokens,
            step_matches(
                factor_at(old(self).tokens@, old(self).pos as nat),
                r,
                old(self).pos as nat,
                final(self).pos as nat,
                old(self).tokens@.len(),
            ),
        decreases old(self).tokens@.len() - old(self).pos, 0int,
    {
        if self.pos >= self.tokens.len() {
            return Err(ParseError::UnexpectedEnd);
        }
        match self.tokens[self.pos] {
            Token::Number(n) => {
                self.pos = self.pos + 1;
                Ok(Expression::Number(n))
            },
            Token::ParenthesesOpen => {
                self.pos = self.pos + 1;
                let expression = match self.parse_expression() {
                    Ok(e) => e,
                    Err(err) => {
                        return Err(err);
                    },
                };
                if self.pos < self.tokens.len() && self.tokens[self.pos]
                    == Token::ParenthesesClosed {
                    self.pos = self.pos + 1;
                    Ok(expression)
                } else {
                    Err(ParseError::MissingClosingParenthesis { position: self.pos })
                }
            },
            token => Err(ParseError::UnexpectedToken { position: self.pos, token }),
        }
    }
}

/// Parses a token sequence by precedence climbing.
///
/// `*` and `/` bind tighter than `+` and `-`; operators of one level group
/// to the left; parentheses group explicitly. The whole sequence must form
/// one expression: no tokens, a missing operand, an unclosed parenthesis
/// and tokens left over after a complete expression are errors.
pub fn parse(tokens: &[Token]) -> (r: Result<Expression, ParseError>)
    ensures
        r == parse_tokens(tokens@),
{
    if tokens.len() == 0 {
        return Err(ParseError::EmptyInput);
    }
    let mut parser = Parser { tokens, pos: 0 };
    let ast = match parser.parse_expression() {
        Ok(e) => e,
        Err(err) => {
            return Err(err);
        },
    };
    if parser.pos != tokens.len() {
        return Err(ParseError::TrailingTokens { position: parser.pos });
    }
    Ok(ast)
}

} // verus!
