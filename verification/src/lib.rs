//! A verified interpreter for a small tape-based esoteric language.
//!
//! The pipeline has three stages: a lexer that keeps only the eight
//! instruction characters, a decoder that turns them into instructions and
//! checks bracket balance, and an executor that runs the instructions against
//! a fixed-size byte tape. Every stage carries a contract stating exactly
//! what it produces.

pub mod instructions;
pub mod laws;
pub mod lexer;
pub mod machine;
pub mod parser;
pub mod program;
