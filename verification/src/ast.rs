//! The abstract syntax tree, its evaluation and its canonical rendering.
//!
//! The node set is closed: exactly the shapes the grammar can produce.  Each
//! node owns its children, so a value is a strict tree.  Evaluation computes
//! on signed 32-bit integers with wraparound on overflow; division truncates
//! toward zero and reports division by zero as an error.  Rendering brackets
//! every operator application in `<...>` and keeps explicit grouping as
//! `(...)`, so the text is unambiguous whatever the original spacing or
//! grouping was.

use vstd::prelude::*;
use vstd::string::*;
use crate::errors::Error;
use crate::text::int_text;
use crate::text::number_text;
use crate::text::push_char;

verus! {

/// One node of the expression tree.
pub enum Expr {
    /// A literal integer.
    Number(i32),
    /// Unary arithmetic negation of a literal.
    Negate(Box<Expr>),
    /// A transparent wrapper that only records source parentheses.
    Parenthesized(Box<Expr>),
    Multiply(Box<Expr>, Box<Expr>),
    Divide(Box<Expr>, Box<Expr>),
    Add(Box<Expr>, Box<Expr>),
    Subtract(Box<Expr>, Box<Expr>),
}

/// Signed division truncated toward zero: the magnitudes divide, and the
/// result is negative exactly when the signs differ.
pub open spec fn trunc_div(a: int, b: int) -> int {
    let m = (if a < 0 {
        -a
    } else {
        a
    }) / (if b < 0 {
        -b
    } else {
        b
    });
    if (a < 0) != (b < 0) {
        -m
    } else {
        m
    }
}

/// The value of `e`: 32-bit arithmetic with wraparound, truncating division,
/// and `DivisionByZero` exactly when a divisor evaluates to zero.
pub open spec fn eval_spec(e: Expr) -> Result<i32, Error>
    decreases e,
{
    match e {
        Expr::Number(v) => Ok(v),
        Expr::Negate(c) => match eval_spec(*c) {
            Ok(v) => Ok((0i32).wrapping_sub(v)),
            Err(err) => Err(err),
        },
        Expr::Parenthesized(c) => eval_spec(*c),
        Expr::Multiply(a, b) => match (eval_spec(*a), eval_spec(*b)) {
            (Ok(va), Ok(vb)) => Ok(va.wrapping_mul(vb)),
            (Err(err), _) => Err(err),
            (_, Err(err)) => Err(err),
        },
        Expr::Divide(a, b) => match (eval_spec(*a), eval_spec(*b)) {
            (Ok(va), Ok(vb)) => if vb == 0 {
                Err(Error::DivisionByZero)
            } else {
                match va.checked_div(vb) {
                    Some(q) => Ok(q),
                    None => Ok(i32::MIN),
                }
            },
            (Err(err), _) => Err(err),
            (_, Err(err)) => Err(err),
        },
        Expr::Add(a, b) => match (eval_spec(*a), eval_spec(*b)) {
            (Ok(va), Ok(vb)) => Ok(va.wrapping_add(vb)),
            (Err(err), _) => Err(err),
            (_, Err(err)) => Err(err),
        },
        Expr::Subtract(a, b) => match (eval_spec(*a), eval_spec(*b)) {
            (Ok(va), Ok(vb)) => Ok(va.wrapping_sub(vb)),
            (Err(err), _) => Err(err),
            (_, Err(err)) => Err(err),
        },
    }
}

/// The canonical rendering of `e`: every operator application bracketed in
/// `<...>`, explicit grouping kept as `(...)`, literals as bare digits.
pub open spec fn render_spec(e: Expr) -> Seq<char>
    decreases e,
{
    match e {
        Expr::Number(v) => int_text(v),
        Expr::Negate(c) => seq!['<', '-'] + render_spec(*c) + seq!['>'],
        Expr::Parenthesized(c) => seq!['('] + render_spec(*c) + seq![')'],
        Expr::Multiply(a, b) => seq!['<'] + render_spec(*a) + seq!['*'] + render_spec(*b)
            + seq!['>'],
        Expr::Divide(a, b) => seq!['<'] + render_spec(*a) + seq!['/'] + render_spec(*b)
            + seq!['>'],
        Expr::Add(a, b) => seq!['<'] + render_spec(*a) + seq!['+'] + render_spec(*b) + seq!['>'],
        Expr::Subtract(a, b) => seq!['<'] + render_spec(*a) + seq!['-'] + render_spec(*b)
            + seq!['>'],
    }
}

impl Expr {
    /// Evaluates the tree, exactly as [`eval_spec`] states it.
    pub fn eval(&self) -> (r: Result<i32, Error>)
        ensures
            r == eval_spec(*self),
        decreases *self,
    {
        match self {
            Expr::Number(v) => Ok(*v),
            Expr::Negate(c) => match c.eval() {
                Ok(v) => Ok((0i32).wrapping_sub(v)),
                Err(err) => Err(err),
            },
            Expr::Parenthesized(c) => c.eval(),
            Expr::Multiply(a, b) => match (a.eval(), b.eval()) {
                (Ok(va), Ok(vb)) => Ok(va.wrapping_mul(vb)),
                (Err(err), _) => Err(err),
                (_, Err(err)) => Err(err),
            },
            Expr::Divide(a, b) => match (a.eval(), b.eval()) {
                (Ok(va), Ok(vb)) => if vb == 0 {
                    Err(Error::DivisionByZero)
                } else {
                    match va.checked_div(vb) {
                        Some(q) => Ok(q),
                        None => Ok(i32::MIN),
                    }
                },
                (Err(err), _) => Err(err),
                (_, Err(err)) => Err(err),
            },
            Expr::Add(a, b) => match (a.eval(), b.eval()) {
                (Ok(va), Ok(vb)) => Ok(va.wrapping_add(vb)),
                (Err(err), _) => Err(err),
                (_, Err(err)) => Err(err),
            },
            Expr::Subtract(a, b) => match (a.eval(), b.eval()) {
                (Ok(va), Ok(vb)) => Ok(va.wrapping_sub(vb)),
                (Err(err), _) => Err(err),
                (_, Err(err)) => Err(err),
            },
        }
    }

    /// Renders the tree, exactly as [`render_spec`] states it.
    pub fn repr(&self) -> (r: String)
        ensures
            r@ == render_spec(*self),
        decreases *self,
    {
        match self {
            Expr::Number(v) => number_text(*v),
            Expr::Negate(c) => {
                let mut s = String::new();
                push_char(&mut s, '<');
                push_char(&mut s, '-');
                let inner = c.repr();
                s.append(inner.as_str());
                push_char(&mut s, '>');
                proof {
                    assert(s@ =~= render_spec(*self));
                }
                s
            },
            Expr::Parenthesized(c) => {
                let mut s = String::new();
                push_char(&mut s, '(');
                let inner = c.repr();
                s.append(inner.as_str());
                push_char(&mut s, ')');
                proof {
                    assert(s@ =~= render_spec(*self));
                }
                s
            },
            Expr::Multiply(a, b) => {
                let r = binary_text(a.repr(), '*', b.repr());
                proof {
                    assert(r@ =~= render_spec(*self));
                }
                r
            },
            Expr::Divide(a, b) => {
                let r = binary_text(a.repr(), '/', b.repr());
                proof {
                    assert(r@ =~= render_spec(*self));
                }
                r
            },
            Expr::Add(a, b) => {
                let r = binary_text(a.repr(), '+', b.repr());
                proof {
                    assert(r@ =~= render_spec(*self));
                }
                r
            },
            Expr::Subtract(a, b) => {
                let r = binary_text(a.repr(), '-', b.repr());
                proof {
                    assert(r@ =~= render_spec(*self));
                }
                r
            },
        }
    }
}

/// Brackets one binary application as `<left op right>`.
fn binary_text(lt: String, op: char, rt: String) -> (r: String)
    ensures
        r@ == seq!['<'] + lt@ + seq![op] + rt@ + seq!['>'],
{
    let mut s = String::new();
    push_char(&mut s, '<');
    s.append(lt.as_str());
    push_char(&mut s, op);
    s.append(rt.as_str());
    push_char(&mut s, '>');
    proof {
        assert(s@ =~= seq!['<'] + lt@ + seq![op] + rt@ + seq!['>']);
    }
    s
}

/// A parenthesized group is transparent to evaluation: it evaluates exactly
/// to its child's result.
pub proof fn lemma_paren_transparent(e: Expr)
    ensures
        eval_spec(Expr::Parenthesized(Box::new(e))) == eval_spec(e),
{
}

/// Division of one literal by another truncates toward zero, away from the
/// one overflowing pair, which wraps.
pub proof fn lemma_division_truncates(a: i32, b: i32)
    requires
        b != 0,
        !(a == i32::MIN && b == -1),
    ensures
        i32::MIN <= trunc_div(a as int, b as int) <= i32::MAX,
        eval_spec(Expr::Divide(Box::new(Expr::Number(a)), Box::new(Expr::Number(b)))) == Ok::<
            i32,
            Error,
        >(trunc_div(a as int, b as int) as i32),
{
    let x = a as int;
    let d = b as int;
    let xm = if x < 0 {
        -x
    } else {
        x
    };
    let dm = if d < 0 {
        -d
    } else {
        d
    };
    vstd::arithmetic::div_mod::lemma_div_nonincreasing(xm, dm);
    vstd::arithmetic::div_mod::lemma_div_pos_is_pos(xm, dm);
    if xm > 0 && dm > 1 {
        vstd::arithmetic::div_mod::lemma_div_decreases(xm, dm);
    }
    assert(0 <= xm / dm <= xm);
    assert(eval_spec(Expr::Number(a)) == Ok::<i32, Error>(a));
    assert(eval_spec(Expr::Number(b)) == Ok::<i32, Error>(b));
    if x == 0 {
        assert(trunc_div(x, d) == 0);
    } else if x > 0 && d > 0 {
        assert(trunc_div(x, d) == x / d);
    } else if x < 0 && d < 0 {
        assert(trunc_div(x, d) == (x * -1) / (d * -1));
    } else if x < 0 {
        assert(trunc_div(x, d) == ((x * -1) / d) * -1);
    } else {
        assert(trunc_div(x, d) == (x / (d * -1)) * -1);
    }
}

} // verus!
