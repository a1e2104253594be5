//! A small scripting language, verified: a tokenizer, a parser into call
//! expressions, and an evaluator with built-in operators and user-defined
//! functions.
//!
//! - `parse`: program text to tokens, tokens to expressions.
//! - `interpreter`: expressions to values, against an environment.
//! - `decimal`: numbers as text, read and written.
//! - `double`: binary64 arithmetic, each operation rounded to nearest.
//! - `bignat`: the unbounded integers that `double` and `decimal` compute with.
//! - `text`: bytes as characters.
//! - `laws`, `reading`, `shortest`: what holds of all programs and all numbers.

pub mod bignat;
pub mod decimal;
pub mod double;
pub mod interpreter;
pub mod laws;
pub mod parse;
pub mod reading;
pub mod shortest;
pub mod text;
