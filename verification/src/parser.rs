//! The recursive-descent parser and the evaluation driver.
//!
//! The grammar, with its standard precedence and left-associative binary
//! operators:
//!
//! ```text
//! expression := term (('+'|'-') term)*
//! term       := factor (('*'|'/') factor)*
//! factor     := NUMBER | '-' NUMBER | '(' expression ')'
//! ```
//!
//! Each rule consumes its production from the tokenizer and hands back the
//! constructed subtree together with the first token it did not consume —
//! the pending token by which the caller decides whether to continue its
//! own left-associative chain.  The descent never backtracks: a rule either
//! consumes its production or fails, and every failure is final.
//!
//! The specification functions mirror the rules over the character buffer
//! and a cursor, so that the lazy pull-based pipeline — which failure comes
//! first — is stated exactly.  Each carries a termination guard on the
//! cursor; the guards always hold, as the progress lemmas show.

use vstd::prelude::*;
use vstd::string::*;
use crate::ast::Expr;
use crate::ast::eval_spec;
use crate::ast::render_spec;
use crate::errors::Error;
use crate::text::dec_digits;
use crate::text::int_text;
use crate::tokens::Token;
use crate::tokens::TokenParser;
use crate::tokens::digit_value;
use crate::tokens::is_digit_char;
use crate::tokens::is_space_char;
use crate::tokens::lemma_dec_digits_roundtrip;
use crate::tokens::lemma_digit_run_at;
use crate::tokens::lemma_literal_value_bounds;
use crate::tokens::lemma_number_value_exact;
use crate::tokens::lemma_sig_from_at;
use crate::tokens::lemma_token_at_progress;
use crate::tokens::literal_value;
use crate::tokens::next_token;
use crate::tokens::sig_from;
use crate::tokens::token_at;

verus! {

/// The factor rule: a literal, a negated literal, or a parenthesized
/// expression, together with the pending token and the cursor after it.
pub open spec fn parse_f_spec(s: Seq<char>, i: int) -> Result<(Expr, Option<Token>, int), Error>
    decreases s.len() - i, 0int,
{
    match next_token(s, i) {
        Err(e) => Err(e),
        Ok((None, _)) => Err(Error::UnexpectedEndOfInput),
        Ok((Some(t), i1)) => match t {
            Token::Number(v) => match next_token(s, i1) {
                Err(e) => Err(e),
                Ok((pending, i2)) => Ok((Expr::Number(v), pending, i2)),
            },
            Token::Sub => match next_token(s, i1) {
                Err(e) => Err(e),
                Ok((None, _)) => Err(Error::UnexpectedEndOfInput),
                Ok((Some(t1), i2)) => match t1 {
                    Token::Number(v) => match next_token(s, i2) {
                        Err(e) => Err(e),
                        Ok((pending, i3)) => Ok(
                            (Expr::Negate(Box::new(Expr::Number(v))), pending, i3),
                        ),
                    },
                    _ => Err(Error::UnexpectedToken(t1)),
                },
            },
            Token::LeftParen => if i < i1 <= s.len() {
                match parse_e_spec(s, i1) {
                    Err(e) => Err(e),
                    Ok((inner, pending, i2)) => match pending {
                        Some(Token::RightParen) => match next_token(s, i2) {
                            Err(e) => Err(e),
                            Ok((pending2, i3)) => Ok(
                                (Expr::Parenthesized(Box::new(inner)), pending2, i3),
                            ),
                        },
                        _ => Err(Error::UnbalancedParenthesis),
                    },
                }
            } else {
                // never reached: a token leaves the cursor strictly further on
                arbitrary()
            },
            _ => Err(Error::UnexpectedToken(t)),
        },
    }
}

/// The left-associative chain of the term rule: while the pending token is
/// `*` or `/`, parse another factor and fold it into the accumulator.
pub open spec fn parse_t_tail_spec(
    s: Seq<char>,
    acc: Expr,
    pending: Option<Token>,
    i: int,
) -> Result<(Expr, Option<Token>, int), Error>
    decreases s.len() - i, 1int,
{
    match pending {
        Some(op) => if op == Token::Mul || op == Token::Div {
            match parse_f_spec(s, i) {
                Err(e) => Err(e),
                Ok((rhs, pending2, j)) => ({
                    let acc2 = if op == Token::Mul {
                        Expr::Multiply(Box::new(acc), Box::new(rhs))
                    } else {
                        Expr::Divide(Box::new(acc), Box::new(rhs))
                    };
                    if i < j <= s.len() {
                        parse_t_tail_spec(s, acc2, pending2, j)
                    } else {
                        // never reached: a factor consumes at least one token
                        arbitrary()
                    }
                }),
            }
        } else {
            Ok((acc, Some(op), i))
        },
        None => Ok((acc, None, i)),
    }
}

/// The term rule: one factor, then its `*`/`/` chain.
pub open spec fn parse_t_spec(s: Seq<char>, i: int) -> Result<(Expr, Option<Token>, int), Error>
    decreases s.len() - i, 2int,
{
    match parse_f_spec(s, i) {
        Err(e) => Err(e),
        Ok((e0, pending, j)) => if i <= j <= s.len() {
            parse_t_tail_spec(s, e0, pending, j)
        } else {
            // never reached: a factor consumes at least one token
            arbitrary()
        },
    }
}

/// The left-associative chain of the expression rule: while the pending
/// token is `+` or `-`, parse another term and fold it into the accumulator.
pub open spec fn parse_e_tail_spec(
    s: Seq<char>,
    acc: Expr,
    pending: Option<Token>,
    i: int,
) -> Result<(Expr, Option<Token>, int), Error>
    decreases s.len() - i, 3int,
{
    match pending {
        Some(op) => if op == Token::Add || op == Token::Sub {
            match parse_t_spec(s, i) {
                Err(e) => Err(e),
                Ok((rhs, pending2, j)) => ({
                    let acc2 = if op == Token::Add {
                        Expr::Add(Box::new(acc), Box::new(rhs))
                    } else {
                        Expr::Subtract(Box::new(acc), Box::new(rhs))
                    };
                    if i < j <= s.len() {
                        parse_e_tail_spec(s, acc2, pending2, j)
                    } else {
                        // never reached: a term consumes at least one token
                        arbitrary()
                    }
                }),
            }
        } else {
            Ok((acc, Some(op), i))
        },
        None => Ok((acc, None, i)),
    }
}

/// The expression rule: one term, then its `+`/`-` chain.
pub open spec fn parse_e_spec(s: Seq<char>, i: int) -> Result<(Expr, Option<Token>, int), Error>
    decreases s.len() - i, 4int,
{
    match parse_t_spec(s, i) {
        Err(e) => Err(e),
        Ok((e0, pending, j)) => if i <= j <= s.len() {
            parse_e_tail_spec(s, e0, pending, j)
        } else {
            // never reached: a term consumes at least one token
            arbitrary()
        },
    }
}

/// The driver: one whole expression, with any remaining token a failure.
pub open spec fn evaluate_spec(s: Seq<char>, i: int) -> Result<Expr, Error> {
    match parse_e_spec(s, i) {
        Err(e) => Err(e),
        Ok((e0, pending, j)) => match pending {
            None => Ok(e0),
            Some(t) => Err(Error::TrailingInput(t)),
        },
    }
}

/// The whole pipeline on a character buffer: parse from the first
/// significant character, evaluate, render.
pub open spec fn run_spec(s: Seq<char>) -> Result<(i32, Seq<char>), Error> {
    match evaluate_spec(s, sig_from(s, 0)) {
        Err(e) => Err(e),
        Ok(e0) => match eval_spec(e0) {
            Err(e) => Err(e),
            Ok(v) => Ok((v, render_spec(e0))),
        },
    }
}

/// For an input that is one integer literal, possibly preceded by
/// whitespace, the pipeline returns exactly that integer, and the rendering
/// is exactly the literal's digits.  The literal must fit the 32-bit range
/// — a larger one wraps — and, beyond one digit, must not start with zero,
/// since a rendering never shows leading zeros.
pub proof fn lemma_literal_input(s: Seq<char>, k: int)
    requires
        0 <= k < s.len(),
        forall|m: int| 0 <= m < k ==> is_space_char(s[m]),
        forall|m: int| k <= m < s.len() ==> is_digit_char(s[m]),
        literal_value(s, k, s.len() as int) <= i32::MAX,
        digit_value(s[k]) >= 1 || k + 1 == s.len(),
    ensures
        run_spec(s) == Ok::<(i32, Seq<char>), Error>(
            (literal_value(s, k, s.len() as int) as i32, s.subrange(k, s.len() as int)),
        ),
{
    let n = s.len() as int;
    let v = literal_value(s, k, n);
    lemma_literal_value_bounds(s, k, n);
    lemma_number_value_exact(s, k, n);
    lemma_dec_digits_roundtrip(s, k, n);
    assert(is_digit_char(s[k]));
    assert(!is_space_char(s[k]));
    lemma_sig_from_at(s, 0, k);
    lemma_digit_run_at(s, k, n);
    assert(sig_from(s, n) == n);
    assert(token_at(s, k) == Ok::<(Token, int), Error>((Token::Number(v as i32), n)));
    assert(next_token(s, k) == Ok::<(Option<Token>, int), Error>(
        (Some(Token::Number(v as i32)), n),
    ));
    assert(next_token(s, n) == Ok::<(Option<Token>, int), Error>((None, n)));
    let e0 = Expr::Number(v as i32);
    assert(parse_f_spec(s, k) == Ok::<(Expr, Option<Token>, int), Error>((e0, None, n)));
    assert(parse_t_tail_spec(s, e0, None, n) == Ok::<(Expr, Option<Token>, int), Error>(
        (e0, None, n),
    ));
    assert(parse_t_spec(s, k) == Ok::<(Expr, Option<Token>, int), Error>((e0, None, n)));
    assert(parse_e_tail_spec(s, e0, None, n) == Ok::<(Expr, Option<Token>, int), Error>(
        (e0, None, n),
    ));
    assert(parse_e_spec(s, k) == Ok::<(Expr, Option<Token>, int), Error>((e0, None, n)));
    assert(evaluate_spec(s, k) == Ok::<Expr, Error>(e0));
    assert(eval_spec(e0) == Ok::<i32, Error>(v as i32));
    assert(render_spec(e0) == int_text(v as i32));
    assert(int_text(v as i32) == dec_digits(v));
    assert(run_spec(s) == Ok::<(i32, Seq<char>), Error>((v as i32, s.subrange(k, n))));
}

/// A factor that parses leaves the cursor strictly further on and inside
/// the buffer, so its termination guards hold.
pub proof fn lemma_parse_f_progress(s: Seq<char>, i: int)
    requires
        0 <= i <= s.len(),
    ensures
        match parse_f_spec(s, i) {
            Ok((e0, pending, j)) => i < j <= s.len(),
            Err(e) => true,
        },
    decreases s.len() - i, 0int,
{
    if i < s.len() {
        lemma_token_at_progress(s, i);
        match token_at(s, i) {
            Ok((t, i1)) => {
                match t {
                    Token::Number(v) => {
                        if i1 < s.len() {
                            lemma_token_at_progress(s, i1);
                        }
                    },
                    Token::Sub => {
                        if i1 < s.len() {
                            lemma_token_at_progress(s, i1);
                            match token_at(s, i1) {
                                Ok((t1, i2)) => {
                                    if i2 < s.len() {
                                        lemma_token_at_progress(s, i2);
                                    }
                                },
                                Err(e) => {},
                            }
                        }
                    },
                    Token::LeftParen => {
                        lemma_parse_e_progress(s, i1);
                        match parse_e_spec(s, i1) {
                            Ok((inner, pending, i2)) => {
                                if i2 < s.len() {
                                    lemma_token_at_progress(s, i2);
                                }
                            },
                            Err(e) => {},
                        }
                    },
                    _ => {},
                }
            },
            Err(e) => {},
        }
    }
}

/// The `*`/`/` chain never moves the cursor backward.
pub proof fn lemma_parse_t_tail_progress(s: Seq<char>, acc: Expr, pending: Option<Token>, i: int)
    requires
        0 <= i <= s.len(),
    ensures
        match parse_t_tail_spec(s, acc, pending, i) {
            Ok((e0, pending2, j)) => i <= j <= s.len(),
            Err(e) => true,
        },
    decreases s.len() - i, 1int,
{
    if pending matches Some(op) && (op == Token::Mul || op == Token::Div) {
        let op = pending->0;
        lemma_parse_f_progress(s, i);
        match parse_f_spec(s, i) {
            Ok((rhs, pending2, j)) => {
                let acc2 = if op == Token::Mul {
                    Expr::Multiply(Box::new(acc), Box::new(rhs))
                } else {
                    Expr::Divide(Box::new(acc), Box::new(rhs))
                };
                lemma_parse_t_tail_progress(s, acc2, pending2, j);
            },
            Err(e) => {},
        }
    }
}

/// A term that parses leaves the cursor strictly further on and inside the
/// buffer.
pub proof fn lemma_parse_t_progress(s: Seq<char>, i: int)
    requires
        0 <= i <= s.len(),
    ensures
        match parse_t_spec(s, i) {
            Ok((e0, pending, j)) => i < j <= s.len(),
            Err(e) => true,
        },
    decreases s.len() - i, 2int,
{
    lemma_parse_f_progress(s, i);
    match parse_f_spec(s, i) {
        Ok((e0, pending, j)) => {
            lemma_parse_t_tail_progress(s, e0, pending, j);
        },
        Err(e) => {},
    }
}

/// The `+`/`-` chain never moves the cursor backward.
pub proof fn lemma_parse_e_tail_progress(s: Seq<char>, acc: Expr, pending: Option<Token>, i: int)
    requires
        0 <= i <= s.len(),
    ensures
        match parse_e_tail_spec(s, acc, pending, i) {
            Ok((e0, pending2, j)) => i <= j <= s.len(),
            Err(e) => true,
        },
    decreases s.len() - i, 3int,
{
    if pending matches Some(op) && (op == Token::Add || op == Token::Sub) {
        let op = pending->0;
        lemma_parse_t_progress(s, i);
        match parse_t_spec(s, i) {
            Ok((rhs, pending2, j)) => {
                let acc2 = if op == Token::Add {
                    Expr::Add(Box::new(acc), Box::new(rhs))
                } else {
                    Expr::Subtract(Box::new(acc), Box::new(rhs))
                };
                lemma_parse_e_tail_progress(s, acc2, pending2, j);
            },
            Err(e) => {},
        }
    }
}

/// An expression that parses leaves the cursor strictly further on and
/// inside the buffer.
pub proof fn lemma_parse_e_progress(s: Seq<char>, i: int)
    requires
        0 <= i <= s.len(),
    ensures
        match parse_e_spec(s, i) {
            Ok((e0, pending, j)) => i < j <= s.len(),
            Err(e) => true,
        },
    decreases s.len() - i, 4int,
{
    lemma_parse_t_progress(s, i);
    match parse_t_spec(s, i) {
        Ok((e0, pending, j)) => {
            lemma_parse_e_tail_progress(s, e0, pending, j);
        },
        Err(e) => {},
    }
}

/// Parses one factor, exactly as [`parse_f_spec`] states it.
pub fn parse_f(p: &mut TokenParser) -> (r: Result<(Expr, Option<Token>), Error>)
    requires
        old(p).wf(),
    ensures
        final(p).wf(),
        final(p).input@ == old(p).input@,
        match parse_f_spec(old(p).input@, old(p).cur()) {
            Ok((e0, pending, j)) => r == Ok::<(Expr, Option<Token>), Error>((e0, pending))
                && final(p).cur() == j,
            Err(e) => r == Err::<(Expr, Option<Token>), Error>(e),
        },
    decreases old(p).input@.len() - old(p).cur(), 0int,
{
    let ghost s = p.input@;
    let ghost i = p.cur();
    proof {
        if i < s.len() {
            lemma_token_at_progress(s, i);
        }
    }
    let t0 = match p.next() {
        Ok(Some(t)) => t,
        Ok(None) => {
            return Err(Error::UnexpectedEndOfInput);
        },
        Err(e) => {
            return Err(e);
        },
    };
    match t0 {
        Token::Number(num) => {
            let pending = match p.next() {
                Ok(o) => o,
                Err(e) => {
                    return Err(e);
                },
            };
            Ok((Expr::Number(num), pending))
        },
        Token::Sub => {
            let t1 = match p.next() {
                Ok(Some(t)) => t,
                Ok(None) => {
                    return Err(Error::UnexpectedEndOfInput);
                },
                Err(e) => {
                    return Err(e);
                },
            };
            if let Token::Number(num) = t1 {
                let pending = match p.next() {
                    Ok(o) => o,
                    Err(e) => {
                        return Err(e);
                    },
                };
                Ok((Expr::Negate(Box::new(Expr::Number(num))), pending))
            } else {
                Err(Error::UnexpectedToken(t1))
            }
        },
        Token::LeftParen => {
            let (inner, pending) = match parse_e(p) {
                Ok(pair) => pair,
                Err(e) => {
                    return Err(e);
                },
            };
            match pending {
                Some(Token::RightParen) => {
                    let pending2 = match p.next() {
                        Ok(o) => o,
                        Err(e) => {
                            return Err(e);
                        },
                    };
                    Ok((Expr::Parenthesized(Box::new(inner)), pending2))
                },
                _ => Err(Error::UnbalancedParenthesis),
            }
        },
        _ => Err(Error::UnexpectedToken(t0)),
    }
}

/// Parses one term and its `*`/`/` chain, exactly as [`parse_t_spec`]
/// states it.
#[verifier::loop_isolation(false)]
pub fn parse_t(p: &mut TokenParser) -> (r: Result<(Expr, Option<Token>), Error>)
    requires
        old(p).wf(),
    ensures
        final(p).wf(),
        final(p).input@ == old(p).input@,
        match parse_t_spec(old(p).input@, old(p).cur()) {
            Ok((e0, pending, j)) => r == Ok::<(Expr, Option<Token>), Error>((e0, pending))
                && final(p).cur() == j,
            Err(e) => r == Err::<(Expr, Option<Token>), Error>(e),
        },
    decreases old(p).input@.len() - old(p).cur(), 2int,
{
    let ghost s = p.input@;
    let ghost i0 = p.cur();
    proof {
        lemma_parse_f_progress(s, i0);
    }
    let (first, t1) = match parse_f(p) {
        Ok(pair) => pair,
        Err(e) => {
            return Err(e);
        },
    };
    let mut n0 = first;
    let mut tv = match t1 {
        Some(t) => t,
        None => {
            return Ok((n0, None));
        },
    };
    while tv == Token::Mul || tv == Token::Div
        invariant
            p.wf(),
            p.input@ == s,
            i0 < p.cur() <= s.len(),
            parse_t_tail_spec(s, n0, Some(tv), p.cur()) == parse_t_spec(s, i0),
        decreases s.len() - p.cur(),
    {
        let ghost cb = p.cur();
        proof {
            lemma_parse_f_progress(s, cb);
        }
        let (n1, tn) = match parse_f(p) {
            Ok(pair) => pair,
            Err(e) => {
                return Err(e);
            },
        };
        let ghost n0_prev = n0;
        n0 = if tv == Token::Mul {
            Expr::Multiply(Box::new(n0), Box::new(n1))
        } else {
            Expr::Divide(Box::new(n0), Box::new(n1))
        };
        proof {
            assert(parse_t_tail_spec(s, n0_prev, Some(tv), cb) == parse_t_tail_spec(
                s,
                n0,
                tn,
                p.cur(),
            ));
        }
        match tn {
            Some(t) => {
                tv = t;
            },
            None => {
                return Ok((n0, None));
            },
        }
    }
    Ok((n0, Some(tv)))
}

/// Parses one expression and its `+`/`-` chain, exactly as
/// [`parse_e_spec`] states it.
#[verifier::loop_isolation(false)]
pub fn parse_e(p: &mut TokenParser) -> (r: Result<(Expr, Option<Token>), Error>)
    requires
        old(p).wf(),
    ensures
        final(p).wf(),
        final(p).input@ == old(p).input@,
        match parse_e_spec(old(p).input@, old(p).cur()) {
            Ok((e0, pending, j)) => r == Ok::<(Expr, Option<Token>), Error>((e0, pending))
                && final(p).cur() == j,
            Err(e) => r == Err::<(Expr, Option<Token>), Error>(e),
        },
    decreases old(p).input@.len() - old(p).cur(), 4int,
{
    let ghost s = p.input@;
    let ghost i0 = p.cur();
    proof {
        lemma_parse_t_progress(s, i0);
    }
    let (first, t1) = match parse_t(p) {
        Ok(pair) => pair,
        Err(e) => {
            return Err(e);
        },
    };
    let mut n0 = first;
    let mut tv = match t1 {
        Some(t) => t,
        None => {
            return Ok((n0, None));
        },
    };
    while tv == Token::Add || tv == Token::Sub
        invariant
            p.wf(),
            p.input@ == s,
            i0 < p.cur() <= s.len(),
            parse_e_tail_spec(s, n0, Some(tv), p.cur()) == parse_e_spec(s, i0),
        decreases s.len() - p.cur(),
    {
        let ghost cb = p.cur();
        proof {
            lemma_parse_t_progress(s, cb);
        }
        let (n1, tn) = match parse_t(p) {
            Ok(pair) => pair,
            Err(e) => {
                return Err(e);
            },
        };
        let ghost n0_prev = n0;
        n0 = if tv == Token::Add {
            Expr::Add(Box::new(n0), Box::new(n1))
        } else {
            Expr::Subtract(Box::new(n0), Box::new(n1))
        };
        proof {
            assert(parse_e_tail_spec(s, n0_prev, Some(tv), cb) == parse_e_tail_spec(
                s,
                n0,
                tn,
                p.cur(),
            ));
        }
        match tn {
            Some(t) => {
                tv = t;
            },
            None => {
                return Ok((n0, None));
            },
        }
    }
    Ok((n0, Some(tv)))
}

/// Drives parsing to completion: one whole expression, a `TrailingInput`
/// failure if a token remains, exactly as [`evaluate_spec`] states it.
pub fn evaluate(parser: TokenParser) -> (r: Result<Expr, Error>)
    requires
        parser.wf(),
    ensures
        r == evaluate_spec(parser.input@, parser.cur()),
{
    let mut p = parser;
    match parse_e(&mut p) {
        Err(e) => Err(e),
        Ok((n, t)) => match t {
            None => Ok(n),
            Some(tok) => Err(Error::TrailingInput(tok)),
        },
    }
}

/// The whole pipeline on a string: tokenize from the first significant
/// character, parse, evaluate and render, exactly as [`run_spec`] states
/// it.
pub fn evaluate_str(input: String) -> (r: Result<(i32, String), Error>)
    ensures
        match run_spec(input@) {
            Ok(pair) => r matches Ok(got) && got.0 == pair.0 && got.1@ == pair.1,
            Err(e) => r == Err::<(i32, String), Error>(e),
        },
{
    let p = TokenParser::new(input);
    match evaluate(p) {
        Err(e) => Err(e),
        Ok(n) => match n.eval() {
            Err(e) => Err(e),
            Ok(v) => {
                let text = n.repr();
                Ok((v, text))
            },
        },
    }
}

} // verus!
