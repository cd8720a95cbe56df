//! A compiler and simulator for combinational chips written in a small
//! hardware-description language.
//!
//! Identifiers are the indices that an interner hands out; the library only
//! compares them.
pub mod ast;
pub mod primitive;
pub mod topo;
pub mod interpreter;
pub mod linker;
pub mod names;
pub mod display;

pub use interpreter::Program;
