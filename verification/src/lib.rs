//! A small S-expression scripting language: a tokenizer, a recursive-descent
//! parser, and a tree-walking evaluator with an abstract-type coercion system
//! for polymorphic numeric literals; alongside it, a Brainfuck tape-machine
//! interpreter with peephole-optimization passes.

pub mod blisp;
pub mod brainfuck;
pub mod error;
