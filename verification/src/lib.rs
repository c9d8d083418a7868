//! dgen: a small language and interpreter for generating pseudo-random data.

pub mod text;
pub mod ast;
pub mod scan;
pub mod lexeme;
pub mod parser;
pub mod parse_facts;
pub mod errors;
pub mod source;
pub mod value;
pub mod context;
pub mod runtime;
pub mod prototype;
pub mod builtins;
pub mod module;
pub mod compiler;
pub mod stdlib;
pub mod interpreter;
pub mod program;
pub mod lexer;
pub mod cli;
pub mod csv;
pub mod files;
pub mod outcome;
pub mod resolve;
pub mod choice;
