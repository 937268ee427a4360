//! The failures an evaluation can end in.

use vstd::prelude::*;
use vstd::string::*;
use crate::text::dec_digits;
use crate::text::push_decimal;
use crate::text::push_char;
use crate::tokens::Token;
use crate::tokens::describe_token;

verus! {

/// Every way an evaluation can fail.  A failure is fatal: it surfaces at once
/// to the caller, and nothing is recovered.
#[derive(Clone, Copy, Debug, PartialEq, Eq)]
pub enum Error {
    /// The tokenizer met a character outside `+ - * / ( )`, the decimal
    /// digits and whitespace; the fields are its index and the character.
    InvalidCharacter(usize, char),
    /// A grammar rule needed a token but the input was exhausted.
    UnexpectedEndOfInput,
    /// A grammar rule received a token its production cannot start or
    /// continue with.
    UnexpectedToken(Token),
    /// An opened group was not closed by `)` where the grammar demands it.
    UnbalancedParenthesis,
    /// A complete expression was parsed but tokens remain; the field is the
    /// first of them.
    TrailingInput(Token),
    /// Evaluation divided by zero.
    DivisionByZero,
}

/// The descriptive text of each failure.
pub open spec fn error_text(e: Error) -> Seq<char> {
    match e {
        Error::InvalidCharacter(i, c) => "invalid character '"@ + seq![c] + "' at index "@
            + dec_digits(i as int),
        Error::UnexpectedEndOfInput => "unexpected end of input"@,
        Error::UnexpectedToken(t) => "unexpected token "@ + describe_token(t),
        Error::UnbalancedParenthesis => "unbalanced parenthesis"@,
        Error::TrailingInput(t) => "trailing input after expression: "@ + describe_token(t),
        Error::DivisionByZero => "division by zero"@,
    }
}

impl Error {
    /// A descriptive message, for a caller that reports the failure.
    pub fn message(&self) -> (r: String)
        ensures
            r@ == error_text(*self),
    {
        match self {
            Error::InvalidCharacter(i, c) => {
                let mut s = String::from_str("invalid character '");
                push_char(&mut s, *c);
                s.append("' at index ");
                push_decimal(&mut s, *i as u64);
                proof {
                    assert(s@ =~= error_text(*self));
                }
                s
            },
            Error::UnexpectedEndOfInput => String::from_str("unexpected end of input"),
            Error::UnexpectedToken(t) => {
                let mut s = String::from_str("unexpected token ");
                let d = t.describe();
                s.append(d.as_str());
                proof {
                    assert(s@ =~= error_text(*self));
                }
                s
            },
            Error::UnbalancedParenthesis => String::from_str("unbalanced parenthesis"),
            Error::TrailingInput(t) => {
                let mut s = String::from_str("trailing input after expression: ");
                let d = t.describe();
                s.append(d.as_str());
                proof {
                    assert(s@ =~= error_text(*self));
                }
                s
            },
            Error::DivisionByZero => String::from_str("division by zero"),
        }
    }
}

} // verus!
