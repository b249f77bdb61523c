//! An interpreter for the eight-instruction byte-tape language: a loader that
//! encodes source characters (optionally coalescing runs), a bracket resolver
//! that patches loop jump targets, and a machine that executes the result on a
//! wrapping tape.

pub mod instruction;
pub mod loader;
pub mod brackets;
pub mod machine;
pub mod laws;

pub use instruction::{Instruction, LoadError, RuntimeError};
pub use machine::Machine;

