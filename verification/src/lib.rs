//! A stack-based language: its parser, macro expander, peephole optimiser,
//! jump linker, x86-64 code generator and a step-wise emulator.
pub mod text;
pub mod operation;
pub mod codegen;
pub mod optimize;
pub mod machine;
pub mod link;
pub mod program;
pub mod parse;
pub mod laws;
pub mod equivalence;
