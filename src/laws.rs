use crate::enums::{ArithmeticError, Error, Expression, LexError, Operation, ParseError, Token};
use crate::interpreter::{apply, evaluation, exact, outcome};
use crate::parser::{
    expression_at,
    expression_rest,
    factor_at,
    operation_at,
    parse_tokens,
    term_at,
    term_rest,
};
use crate::tokenizer::{
    digit_run_end,
    digit_value,
    digits_value,
    is_digit,
    is_whitespace,
    lemma_digit_run_end,
    lex,
    lex_from,
    prefixed,
    symbol_token,
};
use vstd::prelude::*;

verus! {

/// The character of a decimal digit `d < 10`.
pub open spec fn digit_char(d: nat) -> char {
    if d == 0 {
        '0'
    } else if d == 1 {
        '1'
    } else if d == 2 {
        '2'
    } else if d == 3 {
        '3'
    } else if d == 4 {
        '4'
    } else if d == 5 {
        '5'
    } else if d == 6 {
        '6'
    } else if d == 7 {
        '7'
    } else if d == 8 {
        '8'
    } else {
        '9'
    }
}

/// The usual decimal numeral of `n`, without leading zeros.
pub open spec fn decimal(n: nat) -> Seq<char>
    decreases n,
{
    if n < 10 {
        seq![digit_char(n)]
    } else {
        decimal(n / 10).push(digit_char(n % 10))
    }
}

/// The character that writes an operator.
pub open spec fn symbol_of(op: Operation) -> char {
    match op {
        Operation::Add => '+',
        Operation::Subtract => '-',
        Operation::Multiply => '*',
        Operation::Divide => '/',
    }
}

proof fn lemma_digit_char(d: nat)
    requires
        d < 10,
    ensures
        is_digit(digit_char(d)),
        digit_value(digit_char(d)) == d,
{
}

proof fn lemma_decimal(n: nat)
    ensures
        decimal(n).len() > 0,
        forall|k: int| 0 <= k < decimal(n).len() ==> is_digit(#[trigger] decimal(n)[k]),
        digits_value(decimal(n)) == n,
    decreases n,
{
    lemma_digit_char(n % 10);
    if n >= 10 {
        lemma_decimal(n / 10);
        let d = decimal(n);
        assert(d.drop_last() =~= decimal(n / 10));
        assert(d.last() == digit_char(n % 10));
        assert(digits_value(d) == digits_value(d.drop_last()) * 10 + digit_value(d.last()));
        assert((n / 10) * 10 + n % 10 == n);
    } else {
        let d = seq![digit_char(n)];
        assert(d.drop_last() =~= Seq::<char>::empty());
        assert(digits_value(Seq::<char>::empty()) == 0);
        assert(digits_value(d) == digits_value(d.drop_last()) * 10 + digit_value(d.last()));
    }
}

/// The run of digits `s[i..j]`, followed by a non-digit or the end of `s`,
/// lexes to one number token.
proof fn lemma_lex_number(s: Seq<char>, i: nat, j: nat)
    requires
        i < j <= s.len(),
        forall|k: int| i <= k < j ==> is_digit(#[trigger] s[k]),
        j < s.len() ==> !is_digit(s[j as int]),
        digits_value(s.subrange(i as int, j as int)) <= i64::MAX,
    ensures
        lex_from(s, i) == prefixed(
            seq![Token::Number(digits_value(s.subrange(i as int, j as int)) as i64)],
            lex_from(s, j),
        ),
{
    lemma_run_end_is(s, i, j);
}

proof fn lemma_run_end_is(s: Seq<char>, k: nat, j: nat)
    requires
        k <= j <= s.len(),
        forall|m: int| k <= m < j ==> is_digit(#[trigger] s[m]),
        j < s.len() ==> !is_digit(s[j as int]),
    ensures
        digit_run_end(s, k) == j,
    decreases j - k,
{
    if k < j {
        lemma_run_end_is(s, k + 1, j);
    }
}

/// Reading `a op b`, written with decimal numerals and single spaces around
/// the operator, gives `a op b` exactly, for `+`, `-` and `*` on
/// non-negative operands, wherever the operands and the result fit in `i64`.
pub proof fn lemma_single_operation(a: nat, b: nat, op: Operation)
    requires
        op != Operation::Divide,
        a <= i64::MAX,
        b <= i64::MAX,
        i64::MIN <= exact(op, a as int, b as int) <= i64::MAX,
    ensures
        outcome(decimal(a) + seq![' ', symbol_of(op), ' '] + decimal(b))
            == Ok::<i64, Error>(exact(op, a as int, b as int) as i64),
{
    let da = decimal(a);
    let db = decimal(b);
    let s = da + seq![' ', symbol_of(op), ' '] + db;
    let n = da.len();
    lemma_decimal(a);
    lemma_decimal(b);
    // The characters of `s`, piece by piece.
    assert(s.subrange(0, n as int) =~= da);
    assert(s.subrange(n + 3 as int, s.len() as int) =~= db);
    assert(forall|k: int| 0 <= k < n ==> s[k] == da[k]);
    assert(forall|k: int| n + 3 <= k < s.len() ==> s[k] == db[k - n - 3]);
    assert(s[n as int] == ' ' && s[n + 1 as int] == symbol_of(op) && s[n + 2 as int] == ' ');
    let ta = Token::Number(a as i64);
    let tb = Token::Number(b as i64);
    let top = Token::Operation(op);
    // Lexing.
    lemma_lex_number(s, (n + 3) as nat, s.len());
    assert(lex_from(s, s.len()) == Ok::<Seq<Token>, LexError>(seq![]));
    assert(seq![tb] + seq![] =~= seq![tb]);
    assert(lex_from(s, (n + 3) as nat) == Ok::<Seq<Token>, LexError>(seq![tb]));
    assert(lex_from(s, (n + 2) as nat) == lex_from(s, (n + 3) as nat));
    assert(lex_from(s, (n + 1) as nat) == prefixed(seq![top], lex_from(s, (n + 2) as nat)));
    assert(lex_from(s, n) == lex_from(s, (n + 1) as nat));
    lemma_lex_number(s, 0, n);
    let t = seq![ta, top, tb];
    assert(seq![ta] + (seq![top] + seq![tb]) =~= t);
    assert(lex(s) == Ok::<Seq<Token>, LexError>(t));
    // Parsing.
    let na = Expression::Number(a as i64);
    let nb = Expression::Number(b as i64);
    let e = Expression::Binary { left: Box::new(na), operation: op, right: Box::new(nb) };
    assert(factor_at(t, 0) == Ok::<(Expression, nat), ParseError>((na, 1nat)));
    assert(factor_at(t, 2) == Ok::<(Expression, nat), ParseError>((nb, 3nat)));
    assert(operation_at(t, 1) == Some(op));
    assert(operation_at(t, 3) == None::<Operation>);
    assert(term_rest(t, 3, nb) == Ok::<(Expression, nat), ParseError>((nb, 3nat)));
    assert(term_at(t, 2) == Ok::<(Expression, nat), ParseError>((nb, 3nat)));
    assert(term_rest(t, 3, e) == Ok::<(Expression, nat), ParseError>((e, 3nat)));
    assert(expression_rest(t, 3, e) == Ok::<(Expression, nat), ParseError>((e, 3nat)));
    assert(expression_at(t, 0) == Ok::<(Expression, nat), ParseError>((e, 3nat)));
    assert(parse_tokens(t) == Ok::<Expression, ParseError>(e));
    // Evaluation.
    let v = exact(op, a as int, b as int) as i64;
    assert(evaluation(na) == Ok::<i64, ArithmeticError>(a as i64));
    assert(evaluation(nb) == Ok::<i64, ArithmeticError>(b as i64));
    assert(apply(op, a as i64, b as i64) == Ok::<i64, ArithmeticError>(v));
    assert(evaluation(e) == Ok::<i64, ArithmeticError>(v));
}

/// Each stage is a function of its input alone: running a stage again on
/// equal input gives an equal result, and so does the whole pipeline.
pub proof fn lemma_stages_are_functions(
    s1: Seq<char>,
    s2: Seq<char>,
    t1: Seq<Token>,
    t2: Seq<Token>,
    e1: Expression,
    e2: Expression,
)
    requires
        s1 == s2,
        t1 == t2,
        e1 == e2,
    ensures
        lex(s1) == lex(s2),
        parse_tokens(t1) == parse_tokens(t2),
        evaluation(e1) == evaluation(e2),
        outcome(s1) == outcome(s2),
{
}

/// Two lexing results that both fail, or both succeed with equal tokens.
/// The positions that two errors carry may differ.
pub open spec fn same_tokens(r1: Result<Seq<Token>, LexError>, r2: Result<Seq<Token>, LexError>) -> bool {
    match r1 {
        Ok(ts) => r2 == Ok::<Seq<Token>, LexError>(ts),
        Err(_) => r2 is Err,
    }
}

proof fn lemma_same_prefixed(
    front: Seq<Token>,
    r1: Result<Seq<Token>, LexError>,
    r2: Result<Seq<Token>, LexError>,
)
    requires
        same_tokens(r1, r2),
    ensures
        same_tokens(prefixed(front, r1), prefixed(front, r2)),
{
}

/// Lexing `b` from `k + 1` mirrors lexing `a` from `k` when `b` repeats
/// `a`'s characters from `k` on, one place further right.
proof fn lemma_lex_shifted(a: Seq<char>, b: Seq<char>, k: nat)
    requires
        k <= a.len(),
        b.len() == a.len() + 1,
        forall|m: int| k <= m < a.len() ==> b[m + 1] == a[m],
    ensures
        same_tokens(lex_from(a, k), lex_from(b, k + 1)),
    decreases a.len() - k,
{
    if k < a.len() {
        let c = a[k as int];
        assert(b[k + 1 as int] == c);
        if is_digit(c) {
            lemma_digit_run_end(a, k);
            let j = digit_run_end(a, k);
            assert forall|m: int| k + 1 <= m < j + 1 implies is_digit(#[trigger] b[m]) by {
                assert(b[m] == a[m - 1]);
            }
            if j < a.len() {
                assert(b[j + 1 as int] == a[j as int]);
            }
            lemma_run_end_is(b, k + 1, j + 1);
            assert(a.subrange(k as int, j as int) =~= b.subrange(k + 1 as int, j + 1 as int));
            lemma_lex_shifted(a, b, j);
            lemma_same_prefixed(
                seq![Token::Number(digits_value(a.subrange(k as int, j as int)) as i64)],
                lex_from(a, j),
                lex_from(b, j + 1),
            );
        } else {
            lemma_lex_shifted(a, b, k + 1);
            if let Some(tok) = symbol_token(c) {
                lemma_same_prefixed(seq![tok], lex_from(a, k + 1), lex_from(b, k + 2));
            }
        }
    }
}

/// Lexing `x + y` and `x + [w] + y` from a position inside `x` agree.
proof fn lemma_lex_inserted(x: Seq<char>, w: char, y: Seq<char>, k: nat)
    requires
        k <= x.len(),
        is_whitespace(w),
        !(x.len() > 0 && y.len() > 0 && is_digit(x.last()) && is_digit(y[0])),
    ensures
        same_tokens(lex_from(x + y, k), lex_from(x + seq![w] + y, k)),
    decreases x.len() - k,
{
    let a = x + y;
    let b = x + seq![w] + y;
    let n = x.len();
    assert forall|m: int| 0 <= m < n implies a[m] == x[m] && b[m] == x[m] by {}
    assert forall|m: int| n <= m < a.len() implies #[trigger] b[m + 1] == a[m] by {
        assert(a[m] == y[m - n]);
        assert(b[m + 1] == y[m - n]);
    }
    if k == n {
        assert(b[n as int] == w);
        lemma_lex_shifted(a, b, n);
    } else {
        let c = x[k as int];
        if is_digit(c) {
            lemma_digit_run_end(a, k);
            let r = digit_run_end(a, k);
            if r > n {
                assert(is_digit(a[n - 1 as int]) && is_digit(a[n as int]));
                assert(x.last() == a[n - 1 as int] && y[0] == a[n as int]);
            }
            assert(r <= n);
            assert forall|m: int| k <= m < r implies is_digit(#[trigger] b[m]) by {
                assert(is_digit(a[m]));
            }
            if r < n {
                assert(b[r as int] == a[r as int]);
            } else {
                assert(b[r as int] == w);
            }
            lemma_run_end_is(b, k, r);
            assert(a.subrange(k as int, r as int) =~= b.subrange(k as int, r as int));
            lemma_lex_inserted(x, w, y, r);
            lemma_same_prefixed(
                seq![Token::Number(digits_value(a.subrange(k as int, r as int)) as i64)],
                lex_from(a, r),
                lex_from(b, r),
            );
        } else {
            lemma_lex_inserted(x, w, y, k + 1);
            if let Some(tok) = symbol_token(c) {
                lemma_same_prefixed(seq![tok], lex_from(a, k + 1), lex_from(b, k + 1));
            }
        }
    }
}

/// Whitespace does not matter except between two digits: inserting one
/// whitespace character anywhere else leaves the text's tokens, and so its
/// value, as they were. Only the positions that a lexical error reports
/// can move.
pub proof fn lemma_whitespace_insensitive(x: Seq<char>, w: char, y: Seq<char>)
    requires
        is_whitespace(w),
        !(x.len() > 0 && y.len() > 0 && is_digit(x.last()) && is_digit(y[0])),
    ensures
        lex(x + y) is Ok <==> lex(x + seq![w] + y) is Ok,
        lex(x + y) is Ok ==> lex(x + seq![w] + y) == lex(x + y),
        lex(x + y) is Ok ==> outcome(x + seq![w] + y) == outcome(x + y),
{
    lemma_lex_inserted(x, w, y, 0);
}

} // verus!
