//! A verified arithmetic expression calculator.
//!
//! The library turns a textual expression such as `"12 + 34 - (56 / 7) * 8"`
//! into its numeric value and a canonical, fully bracketed rendering.  The
//! pipeline is a lazy tokenizer ([`tokens::TokenParser`]), a recursive-descent
//! parser over the standard arithmetic grammar ([`parser`]), and an abstract
//! syntax tree ([`ast::Expr`]) that is evaluated and rendered.
//!
//! Arithmetic is on signed 32-bit integers.  Overflow — in a literal too large
//! for the type, in negation of the minimum value, and in the binary
//! operators — wraps around (two's complement), which the contracts state
//! exactly.  Division truncates toward zero; division by zero is reported as
//! an error, as is every malformed input.

pub mod ast;
pub mod errors;
pub mod laws;
pub mod parser;
pub mod text;
pub mod tokens;

pub use ast::Expr;
pub use errors::Error;
pub use parser::evaluate;
pub use parser::evaluate_str;
pub use parser::parse_e;
pub use parser::parse_f;
pub use parser::parse_t;
pub use tokens::Token;
pub use tokens::TokenParser;
