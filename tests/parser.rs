use nali::enums::{Expression, Operation, ParseError, Token};
use nali::interpreter::evaluate;
use nali::parser::parse;
use nali::tokenizer::tokenize;

fn number(n: i64) -> Box<Expression> {
    Box::new(Expression::Number(n))
}

fn binary(left: Box<Expression>, operation: Operation, right: Box<Expression>) -> Box<Expression> {
    Box::new(Expression::Binary {
        left,
        operation,
        right,
    })
}

fn tree_of(source: &str) -> Result<Expression, ParseError> {
    parse(&tokenize(source).unwrap())
}

#[test]
fn left_leaning_tree() {
    let expected = binary(
        binary(number(5), Operation::Subtract, number(5)),
        Operation::Subtract,
        number(5),
    );
    assert_eq!(tree_of("5 - 5 - 5"), Ok(*expected));
}

#[test]
fn product_nests_inside_sum() {
    let expected = binary(
        number(3),
        Operation::Add,
        binary(number(5), Operation::Multiply, number(5)),
    );
    assert_eq!(tree_of("3 + 5 * 5"), Ok(*expected));
}

#[test]
fn parenthesised_sum_inside_product() {
    let expected = binary(
        number(2),
        Operation::Multiply,
        binary(number(5), Operation::Add, number(5)),
    );
    assert_eq!(tree_of("2 * (5 + 5)"), Ok(*expected));
}

#[test]
fn parse_errors() {
    assert_eq!(parse(&[]), Err(ParseError::EmptyInput));
    assert_eq!(
        parse(&[Token::ParenthesesClosed]),
        Err(ParseError::UnexpectedToken {
            position: 0,
            token: Token::ParenthesesClosed
        })
    );
    assert_eq!(
        parse(&[Token::Number(1), Token::Operation(Operation::Multiply)]),
        Err(ParseError::UnexpectedEnd)
    );
    assert_eq!(
        parse(&[Token::ParenthesesOpen, Token::Number(1), Token::Number(2)]),
        Err(ParseError::MissingClosingParenthesis { position: 2 })
    );
    assert_eq!(
        parse(&[Token::Number(1), Token::ParenthesesOpen]),
        Err(ParseError::TrailingTokens { position: 1 })
    );
}

#[test]
fn single_operation_round_trip() {
    let cases: [(i64, i64); 5] = [(0, 0), (5, 5), (12, 34), (1000000, 7), (3037000499, 3037000499)];
    for (a, b) in cases {
        for (symbol, expected) in [("+", a + b), ("-", a - b), ("*", a * b)] {
            let source = format!("{} {} {}", a, symbol, b);
            let tree = parse(&tokenize(&source).unwrap()).unwrap();
            assert_eq!(evaluate(&tree), Ok(expected));
        }
    }
}

#[test]
fn stages_repeat_their_output() {
    let source = "2 * (3 + (4 * 5))";
    assert_eq!(tokenize(source), tokenize(source));
    let tokens = tokenize(source).unwrap();
    assert_eq!(parse(&tokens), parse(&tokens));
    let tree = parse(&tokens).unwrap();
    assert_eq!(evaluate(&tree), evaluate(&tree));
    assert_eq!(evaluate(&tree), Ok(46));
}
