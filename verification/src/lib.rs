//! A two-stage toolchain for a small subset of the MIPS32 instruction set:
//! a two-pass assembler that turns textual assembly into big-endian machine
//! words, and an interpreter that executes those words against a simulated
//! 32-register CPU with a sparse word-addressed memory and two memory-mapped
//! I/O ports.

pub mod value;
pub mod instruction;
pub mod error;
pub mod parser;
pub mod resolver;
pub mod assembler;
pub mod emulator;
