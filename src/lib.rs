//! A parser and a hierarchical simulator for a small hardware-description
//! language: chips are built from a two-input NAND gate and from other
//! chips, parsed from a token stream, and evaluated on single-bit inputs.

pub mod token;
pub mod chip;
pub mod parser;
pub mod netlist;
pub mod eval;
pub mod laws;
