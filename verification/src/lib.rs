//! A minimal virtual CPU for a teaching-scale assembly language: a parser
//! that turns line-oriented assembly text into an instruction sequence plus
//! a label table, and an execution engine that runs that sequence against a
//! register file and a flat memory with checked arithmetic and bounds
//! checking. Every function's behaviour is stated in its contract and
//! verified.

pub mod cpu;
pub mod parser;
pub mod text;
pub mod types;
