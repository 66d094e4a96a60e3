//! The expression calculator: lexing, parsing and evaluation of expression
//! text such as `1:23:45 + 0:10:00 * 2`.

pub mod eval;
pub mod parse;
