//! localc: a verified runtime for a small calculator language.
//!
//! The library models expressions as an abstract syntax tree over exact
//! rational numbers, and provides a function-overload table with call-frame
//! scoping, a constant-folding optimizer, a bytecode compiler, and two
//! equivalent evaluation strategies (tree walking and bytecode execution),
//! each proved against one shared mathematical interpreter.

pub mod ast;
pub mod code;
pub mod compiler;
pub mod context;
pub mod error;
pub mod lexer;
pub mod num;
pub mod ops;
pub mod optimizer;
pub mod overload;
pub mod parser;
pub mod vm;
