//! A small calculator over two kinds of values: arbitrary-precision decimal
//! numbers and signed clock durations ("times", e.g. `1:23:45`).
//!
//! Expression text is lexed and parsed by recursive descent, then evaluated
//! with type-directed operator rules (time + time is legal, time + number is
//! not, and so on).  Times are stored as whole seconds plus a non-negative
//! nanosecond offset, with a bias encoding for negative values; decimal
//! arithmetic is delegated to the `rust_decimal` crate through a small set of
//! trusted wrappers.

pub mod calc;
pub mod dec;
pub mod time;
