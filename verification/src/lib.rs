//! A small calculator core.
//!
//! An infix arithmetic expression over decimal literals, the operators
//! `+ - * / ^` and parentheses is rewritten into postfix notation by
//! [`convert`]. A postfix string is cut into tokens by [`tokens`]; [`classify`]
//! and [`step`] decide, token by token, what a stack evaluator has to do, and
//! [`finish`] how the evaluation ends. The arithmetic itself is the caller's.

pub mod bracketed;
pub mod chars;
pub mod error;
pub mod infix;
pub mod postfix;
pub mod text;
pub mod words;

pub use crate::chars::priority;
pub use crate::error::CalcError;
pub use crate::infix::convert;
pub use crate::postfix::{classify, finish, step, tokens, Action, Operator, TokenKind};
