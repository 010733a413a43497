//! A reader and a tree-walking evaluator for a small Lisp: integers, floats,
//! strings, symbols and booleans, the special forms `define`, `lambda`,
//! `if`, `cond`, `and` and `or`, and a scope of builtin procedures and
//! user definitions that one evaluation hands to the next.
//!
//! Floats are carried as the text of a literal; their arithmetic is left to
//! the caller, who records each binary64 fold that an evaluation asks for in
//! a `FloatFolds` and evaluates again.

pub mod types;
pub mod env;
pub mod natives;
pub mod interpreter;
pub mod number;
pub mod parser;
pub mod laws;

pub use env::{Scope, standard_env};
pub use interpreter::{MAX_CALL_DEPTH, interpret, interpret_with_depth};
pub use natives::{FloatFolds, addition, call_native, divide, multiply, subtract};
pub use parser::{categorize, parse, tokenize};
pub use types::{EvalError, Native, ParseTree, Primitive, SpecialForm};
