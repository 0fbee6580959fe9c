//! A verified Reverse Polish Notation (postfix) expression evaluator.
//!
//! Expressions are whitespace-separated tokens: numeric literals and the five
//! operator symbols `+ - * / %`. The library tokenizes the text and drives a
//! single operand stack; operands are carried as opaque 32-bit patterns, and
//! the caller that owns the arithmetic supplies each operator's result.

pub mod eval;
pub mod token;
pub mod tokenizer;

pub use eval::Evaluator;
pub use eval::StepOutcome;
pub use eval::check_shape;
pub use token::EvalError;
pub use token::Op;
pub use token::ScanTok;
pub use token::Token;
pub use tokenizer::tokenizer;
