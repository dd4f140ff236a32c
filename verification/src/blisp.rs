//! The BLisp language pipeline: lexer, parser, evaluator.

pub mod lexer;
pub mod parser;
pub mod functions;
pub mod interpreter;
