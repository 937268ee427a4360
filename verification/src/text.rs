//! Decimal text for integers, shared by the renderer and the error messages.

use vstd::prelude::*;

verus! {

/// The character for one decimal digit value (`0` through `9`).
pub open spec fn digit_char(d: int) -> char {
    if d == 0 {
        '0'
    } else if d == 1 {
        '1'
    } else if d == 2 {
        '2'
    } else if d == 3 {
        '3'
    } else if d == 4 {
        '4'
    } else if d == 5 {
        '5'
    } else if d == 6 {
        '6'
    } else if d == 7 {
        '7'
    } else if d == 8 {
        '8'
    } else {
        '9'
    }
}

/// The decimal digit characters of a non-negative number, most significant
/// digit first.
pub open spec fn dec_digits(n: int) -> Seq<char>
    decreases n,
{
    if n < 10 {
        seq![digit_char(n)]
    } else {
        dec_digits(n / 10).push(digit_char(n % 10))
    }
}

/// The decimal text of a signed 32-bit value: a minus sign for a negative
/// value, then the digits of its magnitude.
pub open spec fn int_text(v: i32) -> Seq<char> {
    if v < 0 {
        seq!['-'] + dec_digits(-(v as int))
    } else {
        dec_digits(v as int)
    }
}

/// Relies on std's `String::push`: it appends the one character at the end
/// of the string.
#[verifier::external_body]
pub(crate) fn push_char(s: &mut String, c: char)
    ensures
        final(s)@ == old(s)@.push(c),
{
    s.push(c);
}

fn digit_to_char(d: u64) -> (c: char)
    requires
        d < 10,
    ensures
        c == digit_char(d as int),
{
    match d {
        0 => '0',
        1 => '1',
        2 => '2',
        3 => '3',
        4 => '4',
        5 => '5',
        6 => '6',
        7 => '7',
        8 => '8',
        _ => '9',
    }
}

/// Appends the decimal digits of `n` to `s`.
pub(crate) fn push_decimal(s: &mut String, n: u64)
    ensures
        final(s)@ == old(s)@ + dec_digits(n as int),
    decreases n,
{
    if n >= 10 {
        push_decimal(s, n / 10);
        let c = digit_to_char(n % 10);
        push_char(s, c);
        proof {
            assert(s@ =~= old(s)@ + dec_digits(n as int));
        }
    } else {
        let c = digit_to_char(n);
        push_char(s, c);
        proof {
            assert(s@ =~= old(s)@ + dec_digits(n as int));
        }
    }
}

/// The decimal text of `v`, as [`int_text`] describes it.
pub fn number_text(v: i32) -> (r: String)
    ensures
        r@ == int_text(v),
{
    let mut s = String::new();
    if v < 0 {
        push_char(&mut s, '-');
        let m: u64 = (-(v as i64)) as u64;
        push_decimal(&mut s, m);
        proof {
            assert(s@ =~= int_text(v));
        }
    } else {
        push_decimal(&mut s, v as u64);
        proof {
            assert(s@ =~= int_text(v));
        }
    }
    s
}

} // verus!
