//! A tree-walking evaluator for a minimal S-expression language: integers,
//! strings, booleans, lambdas and lists, with lexically scoped closures
//! over shared environment frames and a manual trampoline that gives
//! tail-recursive calls constant stack usage.
//!
//! The meaning of every program is fixed by the definitional interpreter
//! `eval::eval_spec`; the executable evaluator is proved to compute
//! exactly that meaning, including its changes to the environment and the
//! lines printed.
pub mod binop;
pub mod env;
pub mod errors;
pub mod eval;
pub mod lexer;
pub mod object;
pub mod parser;
