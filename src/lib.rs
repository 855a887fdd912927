//! An interpreter for a tiny tape language: a parser that turns source text
//! into an instruction tree, and an executor that walks that tree over a
//! circular byte tape.
pub mod executor;
pub mod instr;
pub mod parser;
pub mod pipeline;
