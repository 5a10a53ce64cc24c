//! An arithmetic expression evaluator for digits and the four binary
//! operators `+ - * /`, with an optional leading minus sign.
//!
//! An infix expression is rewritten into a space-separated postfix text by
//! the shunting-yard method, and the postfix text is then evaluated with an
//! operand stack. How a numeral is read and what an operator makes of two
//! operands is supplied by the caller, so the library fixes which operations
//! are applied to which operands and in what order, for any kind of number;
//! `evaluate` is the usual choice for a type that has the four operations.

pub mod subscript;
pub mod operators;
pub mod grammar;
pub mod tokens;
pub mod tree;
pub mod machine;
pub mod shunting;
pub mod text;
pub mod postfix;
pub mod evaluation;
pub mod arithmetic;

pub use operators::{is_operator, precedence};
pub use grammar::{validate, ParseError};
pub use postfix::to_postfix;
pub use evaluation::{calculate, try_calculate};
pub use arithmetic::evaluate;
pub use subscript::StringSubscription;
