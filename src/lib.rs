//! Front end and Go emitter for the Interop language: a position-tracking
//! lexer with automatic semicolon insertion, the syntax tree, a
//! recursive-descent parser and a code generator, each with its contract.

pub mod ast;
pub mod codegen_go;
pub mod lexer;
pub mod parser;
pub mod pos;
pub mod text;
pub mod token;
