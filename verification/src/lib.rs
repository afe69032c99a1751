//! A toy scripting language for math: big numbers, a lexer, a compiler and a runtime.
pub mod big_num;
pub mod text;
pub mod big_uint;
pub mod var;
pub mod lexer;
pub mod error;
pub mod env;
pub mod comiler;
pub mod scope;
pub mod runtime;
pub mod laws;
