//! An intermediate representation for lifted machine code, with the passes
//! that rewrite it: instruction expansion, peephole simplification,
//! conversion to SSA form over basic blocks, and inlining of single-use
//! definitions; and its text form, read and written.

pub mod text;
pub mod ast;
pub mod union;
pub mod visit;
pub mod expand;
pub mod simp;
pub mod names;
pub mod blocks;
pub mod flow;
pub mod ssa;
pub mod single_def;
pub mod inline;
pub mod parse;
pub mod fmt;
