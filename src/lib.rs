//! A small scripting language: lexer, parser, scoped variable storage and a
//! tree-walking evaluator.
//!
//! Source text is lexed into tokens (`lexer`), parsed into one syntax tree
//! per statement (`parser`), and each tree is evaluated against one
//! `storage::Storage` (`expressions`), whose frames give nested scopes over a
//! growing array of slots that is never reclaimed.
//!
//! The language's numbers are doubles. The library holds a number only as
//! the bit pattern its host gives it and does no floating point itself:
//! literals, arithmetic and the text of a number come from the host's
//! `expressions::Numbers`, and contracts state results as what the host's
//! methods return on the given arguments. The host's `expressions::Natives`
//! runs the native functions (such as `print`) that a program may call.

pub mod tokens;
pub mod environment;
pub mod expressions;
pub mod value;
pub mod stack;
pub mod storage;
pub mod lexer;
pub mod parser;
pub mod program;
