//! The round-trip law of the canonical rendering.
//!
//! Rendering brackets every operator application in `<...>`.  Reading those
//! brackets as ordinary parentheses gives a valid input again, and
//! evaluating it reproduces the value of the original expression.  The one
//! exception is a negated literal whose value wrapped below zero: its
//! rendering holds two minus signs in a row, which the grammar rejects, so
//! the law asks every negated literal to be non-negative — which holds of
//! every tree whose source literals fit the 32-bit range.

use vstd::prelude::*;
use crate::ast::Expr;
use crate::ast::eval_spec;
use crate::ast::render_spec;
use crate::errors::Error;
use crate::text::dec_digits;
use crate::text::digit_char;
use crate::text::int_text;
use crate::tokens::Token;
use crate::tokens::digit_value;
use crate::tokens::is_digit_char;
use crate::tokens::is_space_char;
use crate::tokens::lemma_digit_run_at;
use crate::tokens::lemma_literal_value_bounds;
use crate::tokens::lemma_number_value_exact;
use crate::tokens::literal_value;
use crate::tokens::next_token;
use crate::tokens::number_value;
use crate::tokens::sig_from;
use crate::tokens::token_at;
use crate::parser::evaluate_spec;
use crate::parser::parse_e_spec;
use crate::parser::parse_e_tail_spec;
use crate::parser::parse_f_spec;
use crate::parser::parse_t_spec;
use crate::parser::parse_t_tail_spec;
use crate::parser::run_spec;

verus! {

/// `<` and `>` read as ordinary parentheses; every other character stays.
pub open spec fn paren_of(c: char) -> char {
    if c == '<' {
        '('
    } else if c == '>' {
        ')'
    } else {
        c
    }
}

/// The sequence with its operator brackets read as parentheses.
pub open spec fn as_parens(s: Seq<char>) -> Seq<char> {
    Seq::new(s.len(), |m: int| paren_of(s[m]))
}

/// Whether every negated literal in the tree is non-negative: the one shape
/// whose rendering the grammar cannot read back is a negated literal that
/// wrapped below zero.
pub open spec fn renderable(e: Expr) -> bool
    decreases e,
{
    match e {
        Expr::Number(v) => true,
        Expr::Negate(c) => match *c {
            Expr::Number(m) => m >= 0,
            _ => false,
        },
        Expr::Parenthesized(c) => renderable(*c),
        Expr::Multiply(a, b) => renderable(*a) && renderable(*b),
        Expr::Divide(a, b) => renderable(*a) && renderable(*b),
        Expr::Add(a, b) => renderable(*a) && renderable(*b),
        Expr::Subtract(a, b) => renderable(*a) && renderable(*b),
    }
}

/// The rendering with its operator brackets already read as parentheses.
pub open spec fn render_input(e: Expr) -> Seq<char>
    decreases e,
{
    match e {
        Expr::Number(v) => int_text(v),
        Expr::Negate(c) => seq!['(', '-'] + render_input(*c) + seq![')'],
        Expr::Parenthesized(c) => seq!['('] + render_input(*c) + seq![')'],
        Expr::Multiply(a, b) => seq!['('] + render_input(*a) + seq!['*'] + render_input(*b)
            + seq![')'],
        Expr::Divide(a, b) => seq!['('] + render_input(*a) + seq!['/'] + render_input(*b)
            + seq![')'],
        Expr::Add(a, b) => seq!['('] + render_input(*a) + seq!['+'] + render_input(*b) + seq![')'],
        Expr::Subtract(a, b) => seq!['('] + render_input(*a) + seq!['-'] + render_input(*b)
            + seq![')'],
    }
}

/// The digits of a non-negative number are decimal digit characters, and
/// there is at least one of them.
pub proof fn lemma_dec_digits_are_digits(n: int)
    requires
        n >= 0,
    ensures
        dec_digits(n).len() >= 1,
        forall|m: int|
            0 <= m < dec_digits(n).len() ==> is_digit_char(#[trigger] dec_digits(n)[m]),
    decreases n,
{
    if n >= 10 {
        lemma_dec_digits_are_digits(n / 10);
    }
}

/// Reading the digits of `n` back off the buffer gives `n` again.
pub proof fn lemma_literal_value_of_dec_digits(s: Seq<char>, i: int, n: int)
    requires
        n >= 0,
        0 <= i,
        i + dec_digits(n).len() <= s.len(),
        s.subrange(i, i + dec_digits(n).len() as int) == dec_digits(n),
    ensures
        literal_value(s, i, i + dec_digits(n).len() as int) == n,
    decreases n,
{
    let l = dec_digits(n).len() as int;
    if n < 10 {
        assert(dec_digits(n) == seq![digit_char(n)]);
        assert(s.subrange(i, i + 1)[0] == s[i]);
        assert(s[i] == digit_char(n));
        assert(digit_value(s[i]) == n);
        assert(literal_value(s, i, i as int) == 0);
        assert(literal_value(s, i, i + 1) == n);
    } else {
        let lp = dec_digits(n / 10).len() as int;
        assert(dec_digits(n) == dec_digits(n / 10).push(digit_char(n % 10)));
        assert(l == lp + 1);
        assert(s.subrange(i, i + lp) =~= dec_digits(n / 10)) by {
            assert(forall|m: int|
                0 <= m < lp ==> s.subrange(i, i + lp)[m] == #[trigger] s.subrange(i, i + l)[m]);
        }
        lemma_literal_value_of_dec_digits(s, i, n / 10);
        assert(s[i + l - 1] == dec_digits(n)[l - 1]);
        assert(s[i + l - 1] == digit_char(n % 10));
        assert(0 <= n % 10 < 10);
        assert(digit_value(s[i + l - 1]) == n % 10);
        vstd::arithmetic::div_mod::lemma_fundamental_div_mod(n, 10);
    }
}

/// Accumulating a digit run whose exact value is one above the 32-bit
/// maximum wraps to the minimum.
pub proof fn lemma_number_value_wrap_min(s: Seq<char>, i: int, j: int)
    requires
        0 <= i <= j,
        forall|m: int| i <= m < j ==> is_digit_char(s[m]),
        literal_value(s, i, j) == 0x8000_0000,
    ensures
        number_value(s, i, j) == i32::MIN,
{
    assert(j > i);
    let prev = literal_value(s, i, j - 1);
    let d: int = digit_value(s[j - 1]) as int;
    assert(is_digit_char(s[j - 1]));
    lemma_literal_value_bounds(s, i, j - 1);
    assert(0 <= d < 10);
    vstd::arithmetic::div_mod::lemma_fundamental_div_mod_converse(0x8000_0000, 10, prev, d);
    assert(prev == 214748364 && d == 8);
    lemma_number_value_exact(s, i, j - 1);
    assert(number_value(s, i, j - 1) == 214748364i32);
    assert((214748364i32).wrapping_mul(10) == 2147483640i32);
    assert((2147483640i32).wrapping_add(8i32) == i32::MIN);
}

/// On a buffer without whitespace the cursor never moves by itself.
pub proof fn lemma_sig_from_id(s: Seq<char>, x: int)
    requires
        0 <= x <= s.len(),
        forall|m: int| 0 <= m < s.len() ==> !is_space_char(s[m]),
    ensures
        sig_from(s, x) == x,
{
}

/// A rendering is never empty and holds no whitespace.
pub proof fn lemma_render_input_chars(e: Expr)
    ensures
        render_input(e).len() >= 1,
        forall|m: int|
            0 <= m < render_input(e).len() ==> !is_space_char(#[trigger] render_input(e)[m]),
    decreases e,
{
    match e {
        Expr::Number(v) => {
            let n: int = if v < 0 {
                -(v as int)
            } else {
                v as int
            };
            lemma_dec_digits_are_digits(n);
            assert forall|m: int|
                0 <= m < render_input(e).len() implies !is_space_char(
                #[trigger] render_input(e)[m],
            ) by {
                if v < 0 {
                    if m > 0 {
                        assert(render_input(e)[m] == dec_digits(n)[m - 1]);
                        assert(is_digit_char(dec_digits(n)[m - 1]));
                    }
                } else {
                    assert(render_input(e)[m] == dec_digits(n)[m]);
                    assert(is_digit_char(dec_digits(n)[m]));
                }
            }
        },
        Expr::Negate(c) => {
            lemma_render_input_chars(*c);
            let lc = render_input(*c).len() as int;
            assert forall|m: int|
                0 <= m < render_input(e).len() implies !is_space_char(
                #[trigger] render_input(e)[m],
            ) by {
                if 2 <= m < 2 + lc {
                    assert(render_input(e)[m] == render_input(*c)[m - 2]);
                }
            }
        },
        Expr::Parenthesized(c) => {
            lemma_render_input_chars(*c);
            let lc = render_input(*c).len() as int;
            assert forall|m: int|
                0 <= m < render_input(e).len() implies !is_space_char(
                #[trigger] render_input(e)[m],
            ) by {
                if 1 <= m < 1 + lc {
                    assert(render_input(e)[m] == render_input(*c)[m - 1]);
                }
            }
        },
        Expr::Multiply(a, b) => {
            lemma_render_input_chars(*a);
            lemma_render_input_chars(*b);
            lemma_render_binary_chars(e, *a, *b, '*');
        },
        Expr::Divide(a, b) => {
            lemma_render_input_chars(*a);
            lemma_render_input_chars(*b);
            lemma_render_binary_chars(e, *a, *b, '/');
        },
        Expr::Add(a, b) => {
            lemma_render_input_chars(*a);
            lemma_render_input_chars(*b);
            lemma_render_binary_chars(e, *a, *b, '+');
        },
        Expr::Subtract(a, b) => {
            lemma_render_input_chars(*a);
            lemma_render_input_chars(*b);
            lemma_render_binary_chars(e, *a, *b, '-');
        },
    }
}

/// The character facts of one binary rendering, shared by the four
/// operators.
proof fn lemma_render_binary_chars(e: Expr, a: Expr, b: Expr, op: char)
    requires
        render_input(e) == seq!['('] + render_input(a) + seq![op] + render_input(b) + seq![')'],
        !is_space_char(op),
        forall|m: int|
            0 <= m < render_input(a).len() ==> !is_space_char(#[trigger] render_input(a)[m]),
        forall|m: int|
            0 <= m < render_input(b).len() ==> !is_space_char(#[trigger] render_input(b)[m]),
    ensures
        render_input(e).len() >= 1,
        forall|m: int|
            0 <= m < render_input(e).len() ==> !is_space_char(#[trigger] render_input(e)[m]),
{
    let la = render_input(a).len() as int;
    let lb = render_input(b).len() as int;
    assert forall|m: int|
        0 <= m < render_input(e).len() implies !is_space_char(#[trigger] render_input(e)[m]) by {
        if 1 <= m < 1 + la {
            assert(render_input(e)[m] == render_input(a)[m - 1]);
        } else if 2 + la <= m < 2 + la + lb {
            assert(render_input(e)[m] == render_input(b)[m - 2 - la]);
        }
    }
}

/// Every character of an embedded piece of text can be read off the buffer.
proof fn lemma_subrange_chars(s: Seq<char>, i: int, t: Seq<char>)
    requires
        0 <= i,
        i + t.len() <= s.len(),
        s.subrange(i, i + t.len() as int) == t,
    ensures
        forall|m: int| 0 <= m < t.len() ==> s[i + m] == #[trigger] t[m],
{
    assert forall|m: int| 0 <= m < t.len() implies s[i + m] == #[trigger] t[m] by {
        assert(t[m] == s.subrange(i, i + t.len() as int)[m]);
    }
}

/// The positions of one embedded binary rendering `(a op b)`.
proof fn lemma_binary_positions(s: Seq<char>, i: int, t: Seq<char>, at: Seq<char>, op: char, bt: Seq<char>)
    requires
        t == seq!['('] + at + seq![op] + bt + seq![')'],
        0 <= i,
        i + t.len() <= s.len(),
        s.subrange(i, i + t.len() as int) == t,
    ensures
        s[i] == '(',
        s[i + 1 + at.len()] == op,
        s[i + t.len() - 1] == ')',
        s.subrange(i + 1, i + 1 + at.len() as int) == at,
        s.subrange(i + 2 + at.len(), i + t.len() - 1) == bt,
{
    lemma_subrange_chars(s, i, t);
    let la = at.len() as int;
    let lb = bt.len() as int;
    assert(s[i + 0] == t[0]);
    assert(s[i + (1 + la)] == t[1 + la]);
    assert(s[i + (t.len() - 1)] == t[t.len() - 1]);
    assert(s.subrange(i + 1, i + 1 + la) =~= at) by {
        assert forall|m: int| 0 <= m < la implies s.subrange(i + 1, i + 1 + la)[m] == at[m] by {
            assert(s[i + (1 + m)] == t[1 + m]);
        }
    }
    assert(s.subrange(i + 2 + la, i + t.len() - 1) =~= bt) by {
        assert forall|m: int| 0 <= m < lb implies s.subrange(i + 2 + la, i + t.len() - 1)[m]
            == bt[m] by {
            assert(s[i + (2 + la + m)] == t[2 + la + m]);
        }
    }
}

/// The positions of one embedded wrapped rendering `(c)`.
proof fn lemma_wrapped_positions(s: Seq<char>, i: int, t: Seq<char>, ct: Seq<char>)
    requires
        t == seq!['('] + ct + seq![')'],
        0 <= i,
        i + t.len() <= s.len(),
        s.subrange(i, i + t.len() as int) == t,
    ensures
        s[i] == '(',
        s[i + t.len() - 1] == ')',
        s.subrange(i + 1, i + t.len() - 1) == ct,
{
    lemma_subrange_chars(s, i, t);
    let lc = ct.len() as int;
    assert(s[i + 0] == t[0]);
    assert(s[i + (t.len() - 1)] == t[t.len() - 1]);
    assert(s.subrange(i + 1, i + t.len() - 1) =~= ct) by {
        assert forall|m: int| 0 <= m < lc implies s.subrange(i + 1, i + t.len() - 1)[m]
            == ct[m] by {
            assert(s[i + (1 + m)] == t[1 + m]);
        }
    }
}

/// The token read at the start of an embedded digit run: the run's value,
/// with wraparound exactly as the tokenizer has it.
proof fn lemma_digits_token(s: Seq<char>, i: int, n: int)
    requires
        0 <= n,
        n <= 0x8000_0000,
        0 <= i,
        i + dec_digits(n).len() <= s.len(),
        s.subrange(i, i + dec_digits(n).len() as int) == dec_digits(n),
        forall|m: int| 0 <= m < s.len() ==> !is_space_char(s[m]),
        i + dec_digits(n).len() == s.len() || !is_digit_char(s[i + dec_digits(n).len() as int]),
    ensures
        token_at(s, i) == Ok::<(Token, int), Error>(
            (
                Token::Number(
                    if n <= i32::MAX {
                        n as i32
                    } else {
                        i32::MIN
                    },
                ),
                i + dec_digits(n).len() as int,
            ),
        ),
{
    let j0 = i + dec_digits(n).len() as int;
    lemma_dec_digits_are_digits(n);
    lemma_subrange_chars(s, i, dec_digits(n));
    assert forall|m: int| i <= m < j0 implies is_digit_char(s[m]) by {
        assert(s[i + (m - i)] == dec_digits(n)[m - i]);
    }
    assert(is_digit_char(s[i]));
    lemma_digit_run_at(s, i, j0);
    lemma_sig_from_id(s, j0);
    lemma_literal_value_of_dec_digits(s, i, n);
    if n <= i32::MAX {
        lemma_number_value_exact(s, i, j0);
    } else {
        lemma_number_value_wrap_min(s, i, j0);
    }
}

/// An embedded rendering always parses back as one factor, to a tree that
/// evaluates exactly as the original did; the pending token is then pulled
/// from whatever follows the embedded text.
proof fn lemma_factor_round_trip(e: Expr, s: Seq<char>, i: int)
    requires
        renderable(e),
        0 <= i,
        i + render_input(e).len() <= s.len(),
        s.subrange(i, i + render_input(e).len() as int) == render_input(e),
        forall|m: int| 0 <= m < s.len() ==> !is_space_char(s[m]),
        e is Number ==> i + render_input(e).len() == s.len() || !is_digit_char(
            s[i + render_input(e).len() as int],
        ),
    ensures
        ({
            let j0 = i + render_input(e).len() as int;
            match next_token(s, j0) {
                Err(er) => parse_f_spec(s, i) == Err::<(Expr, Option<Token>, int), Error>(er),
                Ok((p, j)) => exists|ep: Expr|
                    parse_f_spec(s, i) == Ok::<(Expr, Option<Token>, int), Error>((ep, p, j))
                        && eval_spec(ep) == eval_spec(e),
            }
        }),
    decreases e, 1int,
{
    let t = render_input(e);
    let l = t.len() as int;
    let j0 = i + l;
    lemma_render_input_chars(e);
    match e {
        Expr::Number(v) => {
            let n: int = if v < 0 {
                -(v as int)
            } else {
                v as int
            };
            if v >= 0 {
                assert(t == dec_digits(n));
                lemma_digits_token(s, i, n);
                assert(token_at(s, i) == Ok::<(Token, int), Error>((Token::Number(v), j0)));
                match next_token(s, j0) {
                    Err(er) => {
                        assert(parse_f_spec(s, i) == Err::<(Expr, Option<Token>, int), Error>(er));
                    },
                    Ok((p, j)) => {
                        assert(parse_f_spec(s, i) == Ok::<(Expr, Option<Token>, int), Error>(
                            (Expr::Number(v), p, j),
                        ));
                        assert(eval_spec(Expr::Number(v)) == eval_spec(e));
                    },
                }
            } else {
                assert(t == seq!['-'] + dec_digits(n));
                lemma_subrange_chars(s, i, t);
                assert(s[i + 0] == t[0]);
                assert(s[i] == '-');
                assert(s.subrange(i + 1, j0) =~= dec_digits(n)) by {
                    assert forall|m: int| 0 <= m < dec_digits(n).len() implies s.subrange(
                        i + 1,
                        j0,
                    )[m] == dec_digits(n)[m] by {
                        assert(s[i + (1 + m)] == t[1 + m]);
                    }
                }
                lemma_sig_from_id(s, i + 1);
                assert(token_at(s, i) == Ok::<(Token, int), Error>((Token::Sub, i + 1)));
                lemma_digits_token(s, i + 1, n);
                let num: i32 = if n <= i32::MAX {
                    n as i32
                } else {
                    i32::MIN
                };
                assert(token_at(s, i + 1) == Ok::<(Token, int), Error>((Token::Number(num), j0)));
                let ep = Expr::Negate(Box::new(Expr::Number(num)));
                assert(eval_spec(Expr::Number(num)) == Ok::<i32, Error>(num));
                assert(eval_spec(ep) == Ok::<i32, Error>((0i32).wrapping_sub(num)));
                assert((0i32).wrapping_sub(num) == v);
                match next_token(s, j0) {
                    Err(er) => {
                        assert(parse_f_spec(s, i) == Err::<(Expr, Option<Token>, int), Error>(er));
                    },
                    Ok((p, j)) => {
                        assert(parse_f_spec(s, i) == Ok::<(Expr, Option<Token>, int), Error>(
                            (ep, p, j),
                        ));
                    },
                }
            }
        },
        Expr::Negate(c) => {
            let nm: i32 = match *c {
                Expr::Number(m) => m,
                _ => 0,
            };
            let n: int = nm as int;
            assert(render_input(*c) == dec_digits(n));
            assert(t == seq!['(', '-'] + dec_digits(n) + seq![')']);
            lemma_subrange_chars(s, i, t);
            assert(s[i + 0] == t[0]);
            assert(s[i + 1] == t[1]);
            assert(s[i + (l - 1)] == t[l - 1]);
            assert(s[i] == '(' && s[i + 1] == '-' && s[j0 - 1] == ')');
            assert(s.subrange(i + 2, j0 - 1) =~= dec_digits(n)) by {
                assert forall|m: int| 0 <= m < dec_digits(n).len() implies s.subrange(
                    i + 2,
                    j0 - 1,
                )[m] == dec_digits(n)[m] by {
                    assert(s[i + (2 + m)] == t[2 + m]);
                }
            }
            lemma_sig_from_id(s, i + 1);
            lemma_sig_from_id(s, i + 2);
            lemma_sig_from_id(s, j0);
            assert(token_at(s, i) == Ok::<(Token, int), Error>((Token::LeftParen, i + 1)));
            assert(token_at(s, i + 1) == Ok::<(Token, int), Error>((Token::Sub, i + 2)));
            lemma_digits_token(s, i + 2, n);
            assert(token_at(s, i + 2) == Ok::<(Token, int), Error>((Token::Number(nm), j0 - 1)));
            assert(token_at(s, j0 - 1) == Ok::<(Token, int), Error>((Token::RightParen, j0)));
            let inner = Expr::Negate(Box::new(Expr::Number(nm)));
            assert(parse_f_spec(s, i + 1) == Ok::<(Expr, Option<Token>, int), Error>(
                (inner, Some(Token::RightParen), j0),
            ));
            assert(parse_t_tail_spec(s, inner, Some(Token::RightParen), j0) == Ok::<
                (Expr, Option<Token>, int),
                Error,
            >((inner, Some(Token::RightParen), j0)));
            assert(parse_t_spec(s, i + 1) == Ok::<(Expr, Option<Token>, int), Error>(
                (inner, Some(Token::RightParen), j0),
            ));
            assert(parse_e_spec(s, i + 1) == Ok::<(Expr, Option<Token>, int), Error>(
                (inner, Some(Token::RightParen), j0),
            ));
            let ep = Expr::Parenthesized(Box::new(inner));
            assert(eval_spec(ep) == eval_spec(e));
            match next_token(s, j0) {
                Err(er) => {
                    assert(parse_f_spec(s, i) == Err::<(Expr, Option<Token>, int), Error>(er));
                },
                Ok((p, j)) => {
                    assert(parse_f_spec(s, i) == Ok::<(Expr, Option<Token>, int), Error>(
                        (ep, p, j),
                    ));
                },
            }
        },
        Expr::Parenthesized(c) => {
            let ct = render_input(*c);
            let lc = ct.len() as int;
            lemma_wrapped_positions(s, i, t, ct);
            lemma_render_input_chars(*c);
            lemma_sig_from_id(s, i + 1);
            lemma_sig_from_id(s, j0);
            assert(token_at(s, i) == Ok::<(Token, int), Error>((Token::LeftParen, i + 1)));
            assert(token_at(s, j0 - 1) == Ok::<(Token, int), Error>((Token::RightParen, j0)));
            assert(next_token(s, j0 - 1) == Ok::<(Option<Token>, int), Error>(
                (Some(Token::RightParen), j0),
            ));
            lemma_factor_round_trip(*c, s, i + 1);
            let cp = choose|ep: Expr|
                parse_f_spec(s, i + 1) == Ok::<(Expr, Option<Token>, int), Error>(
                    (ep, Some(Token::RightParen), j0),
                ) && eval_spec(ep) == eval_spec(*c);
            assert(parse_f_spec(s, i + 1) == Ok::<(Expr, Option<Token>, int), Error>(
                (cp, Some(Token::RightParen), j0),
            ));
            assert(parse_t_spec(s, i + 1) == Ok::<(Expr, Option<Token>, int), Error>(
                (cp, Some(Token::RightParen), j0),
            ));
            assert(parse_e_spec(s, i + 1) == Ok::<(Expr, Option<Token>, int), Error>(
                (cp, Some(Token::RightParen), j0),
            ));
            let ep = Expr::Parenthesized(Box::new(cp));
            assert(eval_spec(ep) == eval_spec(e));
            match next_token(s, j0) {
                Err(er) => {
                    assert(parse_f_spec(s, i) == Err::<(Expr, Option<Token>, int), Error>(er));
                },
                Ok((p, j)) => {
                    assert(parse_f_spec(s, i) == Ok::<(Expr, Option<Token>, int), Error>(
                        (ep, p, j),
                    ));
                },
            }
        },
        Expr::Multiply(a, b) => {
            lemma_binary_round_trip(e, *a, *b, '*', s, i);
        },
        Expr::Divide(a, b) => {
            lemma_binary_round_trip(e, *a, *b, '/', s, i);
        },
        Expr::Add(a, b) => {
            lemma_binary_round_trip(e, *a, *b, '+', s, i);
        },
        Expr::Subtract(a, b) => {
            lemma_binary_round_trip(e, *a, *b, '-', s, i);
        },
    }
}

/// One embedded binary rendering `(a op b)` parses back as one factor whose
/// evaluation matches the original application.
proof fn lemma_binary_round_trip(e: Expr, a: Expr, b: Expr, op: char, s: Seq<char>, i: int)
    requires
        renderable(a),
        renderable(b),
        render_input(e) == seq!['('] + render_input(a) + seq![op] + render_input(b) + seq![')'],
        (op == '*' && e == Expr::Multiply(Box::new(a), Box::new(b))) || (op == '/' && e
            == Expr::Divide(Box::new(a), Box::new(b))) || (op == '+' && e == Expr::Add(
            Box::new(a),
            Box::new(b),
        )) || (op == '-' && e == Expr::Subtract(Box::new(a), Box::new(b))),
        0 <= i,
        i + render_input(e).len() <= s.len(),
        s.subrange(i, i + render_input(e).len() as int) == render_input(e),
        forall|m: int| 0 <= m < s.len() ==> !is_space_char(s[m]),
    ensures
        ({
            let j0 = i + render_input(e).len() as int;
            match next_token(s, j0) {
                Err(er) => parse_f_spec(s, i) == Err::<(Expr, Option<Token>, int), Error>(er),
                Ok((p, j)) => exists|ep: Expr|
                    parse_f_spec(s, i) == Ok::<(Expr, Option<Token>, int), Error>((ep, p, j))
                        && eval_spec(ep) == eval_spec(e),
            }
        }),
    decreases e, 0int,
{
    let t = render_input(e);
    let ta = render_input(a);
    let tb = render_input(b);
    let la = ta.len() as int;
    let lb = tb.len() as int;
    let l = t.len() as int;
    let j0 = i + l;
    lemma_binary_positions(s, i, t, ta, op, tb);
    lemma_render_input_chars(a);
    lemma_render_input_chars(b);
    lemma_sig_from_id(s, i + 1);
    lemma_sig_from_id(s, i + 2 + la);
    lemma_sig_from_id(s, j0);
    assert(token_at(s, i) == Ok::<(Token, int), Error>((Token::LeftParen, i + 1)));
    let opt = if op == '*' {
        Token::Mul
    } else if op == '/' {
        Token::Div
    } else if op == '+' {
        Token::Add
    } else {
        Token::Sub
    };
    assert(token_at(s, i + 1 + la) == Ok::<(Token, int), Error>((opt, i + 2 + la)));
    assert(token_at(s, j0 - 1) == Ok::<(Token, int), Error>((Token::RightParen, j0)));
    assert(next_token(s, i + 1 + la) == Ok::<(Option<Token>, int), Error>(
        (Some(opt), i + 2 + la),
    ));
    assert(next_token(s, j0 - 1) == Ok::<(Option<Token>, int), Error>(
        (Some(Token::RightParen), j0),
    ));
    lemma_factor_round_trip(a, s, i + 1);
    let ap = choose|ep: Expr|
        parse_f_spec(s, i + 1) == Ok::<(Expr, Option<Token>, int), Error>(
            (ep, Some(opt), i + 2 + la),
        ) && eval_spec(ep) == eval_spec(a);
    assert(parse_f_spec(s, i + 1) == Ok::<(Expr, Option<Token>, int), Error>(
        (ap, Some(opt), i + 2 + la),
    ));
    lemma_factor_round_trip(b, s, i + 2 + la);
    let bp = choose|ep: Expr|
        parse_f_spec(s, i + 2 + la) == Ok::<(Expr, Option<Token>, int), Error>(
            (ep, Some(Token::RightParen), j0),
        ) && eval_spec(ep) == eval_spec(b);
    assert(parse_f_spec(s, i + 2 + la) == Ok::<(Expr, Option<Token>, int), Error>(
        (bp, Some(Token::RightParen), j0),
    ));
    let inner = if op == '*' {
        Expr::Multiply(Box::new(ap), Box::new(bp))
    } else if op == '/' {
        Expr::Divide(Box::new(ap), Box::new(bp))
    } else if op == '+' {
        Expr::Add(Box::new(ap), Box::new(bp))
    } else {
        Expr::Subtract(Box::new(ap), Box::new(bp))
    };
    if op == '*' || op == '/' {
        assert(parse_t_tail_spec(s, inner, Some(Token::RightParen), j0) == Ok::<
            (Expr, Option<Token>, int),
            Error,
        >((inner, Some(Token::RightParen), j0)));
        assert(parse_t_tail_spec(s, ap, Some(opt), i + 2 + la) == Ok::<
            (Expr, Option<Token>, int),
            Error,
        >((inner, Some(Token::RightParen), j0)));
        assert(parse_t_spec(s, i + 1) == Ok::<(Expr, Option<Token>, int), Error>(
            (inner, Some(Token::RightParen), j0),
        ));
        assert(parse_e_tail_spec(s, inner, Some(Token::RightParen), j0) == Ok::<
            (Expr, Option<Token>, int),
            Error,
        >((inner, Some(Token::RightParen), j0)));
        assert(parse_e_spec(s, i + 1) == Ok::<(Expr, Option<Token>, int), Error>(
            (inner, Some(Token::RightParen), j0),
        ));
    } else {
        assert(parse_t_tail_spec(s, ap, Some(opt), i + 2 + la) == Ok::<
            (Expr, Option<Token>, int),
            Error,
        >((ap, Some(opt), i + 2 + la)));
        assert(parse_t_spec(s, i + 1) == Ok::<(Expr, Option<Token>, int), Error>(
            (ap, Some(opt), i + 2 + la),
        ));
        assert(parse_t_tail_spec(s, bp, Some(Token::RightParen), j0) == Ok::<
            (Expr, Option<Token>, int),
            Error,
        >((bp, Some(Token::RightParen), j0)));
        assert(parse_t_spec(s, i + 2 + la) == Ok::<(Expr, Option<Token>, int), Error>(
            (bp, Some(Token::RightParen), j0),
        ));
        assert(parse_e_tail_spec(s, inner, Some(Token::RightParen), j0) == Ok::<
            (Expr, Option<Token>, int),
            Error,
        >((inner, Some(Token::RightParen), j0)));
        assert(parse_e_tail_spec(s, ap, Some(opt), i + 2 + la) == Ok::<
            (Expr, Option<Token>, int),
            Error,
        >((inner, Some(Token::RightParen), j0)));
        assert(parse_e_spec(s, i + 1) == Ok::<(Expr, Option<Token>, int), Error>(
            (inner, Some(Token::RightParen), j0),
        ));
    }
    let ep = Expr::Parenthesized(Box::new(inner));
    assert(eval_spec(ep) == eval_spec(inner));
    assert(eval_spec(inner) == eval_spec(e));
    match next_token(s, j0) {
        Err(er) => {
            assert(parse_f_spec(s, i) == Err::<(Expr, Option<Token>, int), Error>(er));
        },
        Ok((p, j)) => {
            assert(parse_f_spec(s, i) == Ok::<(Expr, Option<Token>, int), Error>((ep, p, j)));
        },
    }
}

/// Reading the operator brackets of the canonical rendering as parentheses
/// gives exactly [`render_input`].
pub proof fn lemma_render_input_is_as_parens(e: Expr)
    ensures
        as_parens(render_spec(e)) == render_input(e),
    decreases e,
{
    match e {
        Expr::Number(v) => {
            let n: int = if v < 0 {
                -(v as int)
            } else {
                v as int
            };
            lemma_dec_digits_are_digits(n);
            assert(as_parens(render_spec(e)) =~= render_input(e)) by {
                assert forall|m: int| 0 <= m < render_spec(e).len() implies as_parens(
                    render_spec(e),
                )[m] == render_input(e)[m] by {
                    if v < 0 {
                        if m >= 1 {
                            assert(int_text(v)[m] == dec_digits(n)[m - 1]);
                            assert(is_digit_char(dec_digits(n)[m - 1]));
                        }
                    } else {
                        assert(int_text(v)[m] == dec_digits(n)[m]);
                        assert(is_digit_char(dec_digits(n)[m]));
                    }
                }
            }
        },
        Expr::Negate(c) => {
            lemma_render_input_is_as_parens(*c);
            lemma_unary_as_parens(e, *c, '-');
        },
        Expr::Parenthesized(c) => {
            lemma_render_input_is_as_parens(*c);
            assert(render_spec(e) == seq!['('] + render_spec(*c) + seq![')']);
            assert(as_parens(render_spec(e)) =~= render_input(e)) by {
                assert forall|m: int| 0 <= m < render_spec(e).len() implies as_parens(
                    render_spec(e),
                )[m] == render_input(e)[m] by {
                    let lc = render_spec(*c).len() as int;
                    if 1 <= m < 1 + lc {
                        assert(render_spec(e)[m] == render_spec(*c)[m - 1]);
                        assert(as_parens(render_spec(*c))[m - 1] == render_input(*c)[m - 1]);
                    }
                }
            }
        },
        Expr::Multiply(a, b) => {
            lemma_render_input_is_as_parens(*a);
            lemma_render_input_is_as_parens(*b);
            lemma_binary_as_parens(e, *a, *b, '*');
        },
        Expr::Divide(a, b) => {
            lemma_render_input_is_as_parens(*a);
            lemma_render_input_is_as_parens(*b);
            lemma_binary_as_parens(e, *a, *b, '/');
        },
        Expr::Add(a, b) => {
            lemma_render_input_is_as_parens(*a);
            lemma_render_input_is_as_parens(*b);
            lemma_binary_as_parens(e, *a, *b, '+');
        },
        Expr::Subtract(a, b) => {
            lemma_render_input_is_as_parens(*a);
            lemma_render_input_is_as_parens(*b);
            lemma_binary_as_parens(e, *a, *b, '-');
        },
    }
}

/// The bracket translation of one unary rendering.
proof fn lemma_unary_as_parens(e: Expr, c: Expr, op: char)
    requires
        render_spec(e) == seq!['<', op] + render_spec(c) + seq!['>'],
        render_input(e) == seq!['(', op] + render_input(c) + seq![')'],
        op != '<' && op != '>',
        as_parens(render_spec(c)) == render_input(c),
    ensures
        as_parens(render_spec(e)) == render_input(e),
{
    assert(as_parens(render_spec(e)) =~= render_input(e)) by {
        assert forall|m: int| 0 <= m < render_spec(e).len() implies as_parens(render_spec(e))[m]
            == render_input(e)[m] by {
            let lc = render_spec(c).len() as int;
            if 2 <= m < 2 + lc {
                assert(render_spec(e)[m] == render_spec(c)[m - 2]);
                assert(render_input(e)[m] == render_input(c)[m - 2]);
                assert(as_parens(render_spec(c))[m - 2] == render_input(c)[m - 2]);
            }
        }
    }
}

/// The bracket translation of one binary rendering.
proof fn lemma_binary_as_parens(e: Expr, a: Expr, b: Expr, op: char)
    requires
        render_spec(e) == seq!['<'] + render_spec(a) + seq![op] + render_spec(b) + seq!['>'],
        render_input(e) == seq!['('] + render_input(a) + seq![op] + render_input(b) + seq![')'],
        op != '<' && op != '>',
        as_parens(render_spec(a)) == render_input(a),
        as_parens(render_spec(b)) == render_input(b),
    ensures
        as_parens(render_spec(e)) == render_input(e),
{
    let la = render_spec(a).len() as int;
    let lb = render_spec(b).len() as int;
    assert(render_input(a).len() == la);
    assert(render_input(b).len() == lb);
    assert(as_parens(render_spec(e)) =~= render_input(e)) by {
        assert forall|m: int| 0 <= m < render_spec(e).len() implies as_parens(render_spec(e))[m]
            == render_input(e)[m] by {
            if 1 <= m < 1 + la {
                assert(render_spec(e)[m] == render_spec(a)[m - 1]);
                assert(render_input(e)[m] == render_input(a)[m - 1]);
                assert(as_parens(render_spec(a))[m - 1] == render_input(a)[m - 1]);
            } else if 2 + la <= m < 2 + la + lb {
                assert(render_spec(e)[m] == render_spec(b)[m - 2 - la]);
                assert(render_input(e)[m] == render_input(b)[m - 2 - la]);
                assert(as_parens(render_spec(b))[m - 2 - la] == render_input(b)[m - 2 - la]);
            }
        }
    }
}

/// Rendering is canonical: evaluating the rendered text of a parsed
/// expression — its operator brackets `<` and `>` read as ordinary
/// parentheses — reproduces exactly the original outcome, the same value or
/// the same division-by-zero failure.  The one shape left out is a negated
/// literal that wrapped below zero ([`renderable`]): its rendering holds
/// two minus signs in a row, which the grammar rejects.
pub proof fn lemma_rendered_output_reevaluates(e: Expr)
    requires
        renderable(e),
    ensures
        ({
            let t = as_parens(render_spec(e));
            match eval_spec(e) {
                Ok(v) => run_spec(t) matches Ok(pair) && pair.0 == v,
                Err(er) => run_spec(t) == Err::<(i32, Seq<char>), Error>(er),
            }
        }),
{
    lemma_render_input_is_as_parens(e);
    let t = render_input(e);
    let l = t.len() as int;
    lemma_render_input_chars(e);
    lemma_sig_from_id(t, 0);
    assert(t.subrange(0, l) =~= t);
    lemma_factor_round_trip(e, t, 0);
    assert(next_token(t, l) == Ok::<(Option<Token>, int), Error>((None, l)));
    let ep = choose|ep: Expr|
        parse_f_spec(t, 0) == Ok::<(Expr, Option<Token>, int), Error>((ep, None, l))
            && eval_spec(ep) == eval_spec(e);
    assert(parse_f_spec(t, 0) == Ok::<(Expr, Option<Token>, int), Error>((ep, None, l)));
    assert(parse_t_tail_spec(t, ep, None, l) == Ok::<(Expr, Option<Token>, int), Error>(
        (ep, None, l),
    ));
    assert(parse_t_spec(t, 0) == Ok::<(Expr, Option<Token>, int), Error>((ep, None, l)));
    assert(parse_e_tail_spec(t, ep, None, l) == Ok::<(Expr, Option<Token>, int), Error>(
        (ep, None, l),
    ));
    assert(parse_e_spec(t, 0) == Ok::<(Expr, Option<Token>, int), Error>((ep, None, l)));
    assert(evaluate_spec(t, sig_from(t, 0)) == Ok::<Expr, Error>(ep));
}

} // verus!
