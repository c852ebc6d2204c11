//! A small statically typed scripting language: reader, lexer, parser,
//! semantic checker and tree-walking interpreter, with their contracts.
#![allow(unused_imports)]
#![allow(non_snake_case)]

pub mod position;
pub mod lazy_stream_reader;
pub mod text;
pub mod tokens;
pub mod issues;
pub mod errors;
pub mod lexer_utils;
pub mod lexical;
pub mod ast;
pub mod lexer;
pub mod parser;
pub mod grammar;
pub mod value;
pub mod float;
pub mod alu;
pub mod scope_manager;
pub mod stack;
pub mod std_functions;
pub mod semantic_checker;
pub mod interpreter;
pub mod execution;
pub mod char_reader;
pub mod functions_manager;
pub mod token_stream;
