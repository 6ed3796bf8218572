//! A small 36-bit single-accumulator machine: a two-pass assembler from
//! symbolic source to words, a simulator that executes those words, the
//! object-text reader, and the parser of the shell's control statements.
//!
//! Every function is verified against a mathematical model: the assembler
//! against `assembler::assembled`, the simulator against `cpu::step_spec` and
//! `cpu::run_spec`.
use vstd::prelude::*;

pub mod assembler;
pub mod cpu;
pub mod loader;
pub mod number;
pub mod parser;
pub mod text;
pub mod word;

verus! {

} // verus!
