//! A verified compiler for the ASC assembly language, producing the ATC
//! binary instruction stream for a pixel-display virtual machine.
//!
//! The pipeline has two stages: [`tokenizer::tokenize`] turns source bytes
//! into a token tree, and [`compiler::compile`] walks that tree and emits
//! the binary encoding, resolving labels and inlining blocks and routines.

pub mod compiler;
pub mod errors;
pub mod tables;
pub mod tokenizer;
pub mod tokens;

pub use tokens::Token;
