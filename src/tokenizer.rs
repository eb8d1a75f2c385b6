use crate::enums::{LexError, Operation, Token};
use vstd::prelude::*;
use vstd::std_specs::iter::IteratorSpec;

verus! {

/// An ASCII decimal digit.
pub open spec fn is_digit(c: char) -> bool {
    '0' <= c <= '9'
}

/// The value of a decimal digit.
pub open spec fn digit_value(c: char) -> int {
    c as int - '0' as int
}

/// ASCII whitespace: space, tab, line feed, form feed and carriage return.
pub open spec fn is_whitespace(c: char) -> bool {
    c == ' ' || c == '\t' || c == '\n' || c == '\x0C' || c == '\r'
}

/// The token that a single operator or parenthesis character stands for.
pub open spec fn symbol_token(c: char) -> Option<Token> {
    match c {
        '+' => Some(Token::Operation(Operation::Add)),
        '-' => Some(Token::Operation(Operation::Subtract)),
        '*' => Some(Token::Operation(Operation::Multiply)),
        '/' => Some(Token::Operation(Operation::Divide)),
        '(' => Some(Token::ParenthesesOpen),
        ')' => Some(Token::ParenthesesClosed),
        _ => None,
    }
}

/// The value of a sequence of digits, most significant digit first.
pub open spec fn digits_value(ds: Seq<char>) -> int
    decreases ds.len(),
{
    if ds.len() == 0 {
        0
    } else {
        digits_value(ds.drop_last()) * 10 + digit_value(ds.last())
    }
}

/// Where the maximal run of digits that starts at `i` ends.
pub open spec fn digit_run_end(s: Seq<char>, i: nat) -> nat
    decreases s.len() - i,
{
    if i < s.len() && is_digit(s[i as int]) {
        digit_run_end(s, i + 1)
    } else {
        i
    }
}

/// Prefixes `front` to the tokens of a successful result.
pub open spec fn prefixed(
    front: Seq<Token>,
    rest: Result<Seq<Token>, LexError>,
) -> Result<Seq<Token>, LexError> {
    match rest {
        Ok(ts) => Ok(front + ts),
        Err(e) => Err(e),
    }
}

/// The tokens of `s` from character `i` on, or the first lexical error there.
pub open spec fn lex_from(s: Seq<char>, i: nat) -> Result<Seq<Token>, LexError>
    decreases s.len() - i,
{
    if i >= s.len() {
        Ok(seq![])
    } else if is_digit(s[i as int]) {
        proof {
            lemma_digit_run_end(s, i);
        }
        let j = digit_run_end(s, i);
        let v = digits_value(s.subrange(i as int, j as int));
        if v > i64::MAX {
            Err(LexError::NumberOutOfRange { position: i as usize })
        } else {
            prefixed(seq![Token::Number(v as i64)], lex_from(s, j))
        }
    } else if is_whitespace(s[i as int]) {
        lex_from(s, i + 1)
    } else if let Some(t) = symbol_token(s[i as int]) {
        prefixed(seq![t], lex_from(s, i + 1))
    } else {
        Err(LexError::UnexpectedCharacter { character: s[i as int], position: i as usize })
    }
}

/// The tokens of the whole text `s`, or the first lexical error in it.
pub open spec fn lex(s: Seq<char>) -> Result<Seq<Token>, LexError> {
    lex_from(s, 0)
}

/// A run of digits that starts at `i` is non-empty, stays in `s`, consists of
/// digits and is followed by a non-digit or the end of `s`.
pub proof fn lemma_digit_run_end(s: Seq<char>, i: nat)
    requires
        i < s.len(),
        is_digit(s[i as int]),
    ensures
        i < digit_run_end(s, i) <= s.len(),
        forall|k: int| i <= k < digit_run_end(s, i) ==> is_digit(#[trigger] s[k]),
        digit_run_end(s, i) < s.len() ==> !is_digit(s[digit_run_end(s, i) as int]),
    decreases s.len() - i,
{
    if i + 1 < s.len() && is_digit(s[i + 1 as int]) {
        lemma_digit_run_end(s, i + 1);
    } else {
        assert(digit_run_end(s, i + 1) == i + 1);
    }
}

/// Extending a run of digits never lowers its value.
proof fn lemma_digits_value_grows(ds: Seq<char>, k: int)
    requires
        0 <= k <= ds.len(),
        forall|m: int| 0 <= m < ds.len() ==> is_digit(#[trigger] ds[m]),
    ensures
        0 <= digits_value(ds.subrange(0, k)) <= digits_value(ds),
    decreases ds.len(),
{
    if ds.len() > 0 {
        if k == ds.len() {
            assert(ds.subrange(0, k) =~= ds);
            lemma_digits_value_grows(ds.drop_last(), 0);
        } else {
            assert(ds.drop_last().subrange(0, k) =~= ds.subrange(0, k));
            lemma_digits_value_grows(ds.drop_last(), k);
            assert(ds.drop_last().subrange(0, ds.len() - 1) =~= ds.drop_last());
        }
    } else {
        assert(ds.subrange(0, k) =~= ds);
    }
}

proof fn lemma_prefixed_prefixed(a: Seq<Token>, b: Seq<Token>, r: Result<Seq<Token>, LexError>)
    ensures
        prefixed(a, prefixed(b, r)) == prefixed(a + b, r),
{
    if let Ok(ts) = r {
        assert(a + (b + ts) =~= (a + b) + ts);
    }
}

/// A run of digits whose first `j - start` digits already exceed `i64::MAX`
/// is out of range as a whole.
proof fn lemma_value_beyond(s: Seq<char>, start: nat, j: nat)
    requires
        start < j <= digit_run_end(s, start),
        start < s.len(),
        is_digit(s[start as int]),
        digits_value(s.subrange(start as int, j as int)) > i64::MAX,
    ensures
        lex_from(s, start) == Err::<Seq<Token>, LexError>(
            LexError::NumberOutOfRange { position: start as usize },
        ),
{
    lemma_digit_run_end(s, start);
    let end = digit_run_end(s, start);
    let ds = s.subrange(start as int, end as int);
    assert(ds.subrange(0, j - start) =~= s.subrange(start as int, j as int));
    lemma_digits_value_grows(ds, j - start);
}

/// The characters of `s`, in order.
fn chars_of(s: &str) -> (r: Vec<char>)
    ensures
        r@ == s@,
{
    broadcast use vstd::string::axiom_spec_iter, vstd::string::next_postcondition;

    let mut out: Vec<char> = Vec::new();
    let mut it = s.chars();
    loop
        invariant
            out@ + it.remaining() == s@,
            it.decrease() is Some,
        ensures
            out@ == s@,
        decreases it.decrease()->0,
    {
        match it.next() {
            Some(c) => {
                out.push(c);
            },
            None => {
                assert(out@ =~= out@ + it.remaining());
                break;
            },
        }
    }
    out
}

fn is_digit_char(c: char) -> (r: bool)
    ensures
        r == is_digit(c),
{
    '0' <= c && c <= '9'
}

fn is_whitespace_char(c: char) -> (r: bool)
    ensures
        r == is_whitespace(c),
{
    c == ' ' || c == '\t' || c == '\n' || c == '\x0C' || c == '\r'
}

fn symbol_token_of(c: char) -> (r: Option<Token>)
    ensures
        r == symbol_token(c),
{
    match c {
        '+' => Some(Token::Operation(Operation::Add)),
        '-' => Some(Token::Operation(Operation::Subtract)),
        '*' => Some(Token::Operation(Operation::Multiply)),
        '/' => Some(Token::Operation(Operation::Divide)),
        '(' => Some(Token::ParenthesesOpen),
        ')' => Some(Token::ParenthesesClosed),
        _ => None,
    }
}

/// Splits source text into tokens in one left-to-right scan.
///
/// Whitespace separates tokens and is dropped; a maximal run of digits
/// becomes one `Number`; each operator and parenthesis becomes one token.
/// A `-` is always the subtraction operator. The first character that fits
/// none of these, or the first number above `i64::MAX`, is reported.
pub fn tokenize(code_to_execute: &str) -> (r: Result<Vec<Token>, LexError>)
    ensures
        lex(code_to_execute@) == match r {
            Ok(ts) => Ok(ts@),
            Err(e) => Err::<Seq<Token>, LexError>(e),
        },
{
    let characters = chars_of(code_to_execute);
    let ghost s = code_to_execute@;
    let n = characters.len();
    let mut tokens: Vec<Token> = Vec::new();
    let mut i: usize = 0;
    while i < n
        invariant
            s == code_to_execute@,
            characters@ == s,
            n == s.len(),
            i <= n,
            lex(s) == prefixed(tokens@, lex_from(s, i as nat)),
        decreases n - i,
    {
        let c = characters[i];
        if is_digit_char(c) {
            // Fold the whole run of digits into one number.
            let start = i;
            let mut value: i64 = 0;
            proof {
                lemma_digit_run_end(s, start as nat);
                assert(s.subrange(start as int, start as int) =~= Seq::<char>::empty());
            }
            let ghost end = digit_run_end(s, start as nat);
            while i < n && is_digit_char(characters[i])
                invariant
                    s == code_to_execute@,
                    characters@ == s,
                    n == s.len(),
                    start < n,
                    is_digit(s[start as int]),
                    start <= i <= end,
                    end == digit_run_end(s, start as nat),
                    end <= n,
                    forall|k: int| start <= k < end ==> is_digit(#[trigger] s[k]),
                    end < n ==> !is_digit(s[end as int]),
                    0 <= value,
                    value == digits_value(s.subrange(start as int, i as int)),
                    lex(s) == prefixed(tokens@, lex_from(s, start as nat)),
                decreases n - i,
            {
                let d = (characters[i] as u32 - '0' as u32) as i64;
                let ghost run = s.subrange(start as int, i + 1);
                proof {
                    assert(d == digit_value(s[i as int]));
                    assert(run.drop_last() =~= s.subrange(start as int, i as int));
                    assert(digits_value(run) == value * 10 + d);
                }
                // acc = acc * 10 + digit, stopping at the first step that leaves i64.
                match value.checked_mul(10) {
                    Some(m) => match m.checked_add(d) {
                        Some(v) => {
                            value = v;
                        },
                        None => {
                            proof {
                                lemma_value_beyond(s, start as nat, (i + 1) as nat);
                            }
                            return Err(LexError::NumberOutOfRange { position: start });
                        },
                    },
                    None => {
                        proof {
                            lemma_value_beyond(s, start as nat, (i + 1) as nat);
                        }
                        return Err(LexError::NumberOutOfRange { position: start });
                    },
                }
                i = i + 1;
            }
            let ghost before = tokens@;
            tokens.push(Token::Number(value));
            proof {
                lemma_prefixed_prefixed(before, seq![Token::Number(value)], lex_from(s, end));
                assert(before + seq![Token::Number(value)] =~= tokens@);
            }
        } else if is_whitespace_char(c) {
            i = i + 1;
        } else {
            match symbol_token_of(c) {
                Some(t) => {
                    let ghost before = tokens@;
                    tokens.push(t);
                    proof {
                        lemma_prefixed_prefixed(before, seq![t], lex_from(s, (i + 1) as nat));
                        assert(before + seq![t] =~= tokens@);
                    }
                    i = i + 1;
                },
                None => {

                    return Err(LexError::UnexpectedCharacter { character: c, position: i });
                },
            }
        }
    }
    Ok(tokens)
}

} // verus!
