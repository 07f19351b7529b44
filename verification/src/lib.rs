//! Tools for matching a rebuilt program against the one it was rebuilt from, on the strength of
//! what their executables, PDBs and object files say.
//!
//! [`rich_context`] interleaves the disassembly of every function with the source statements
//! that produced it, [`rich_objdiff`] compares one function between two object files, and
//! [`checksums`] compares the source files behind two programs.

pub mod checksums;
pub mod disasm;
pub mod error;
pub mod listing;
pub mod pe;
pub mod report;
pub mod rich_context;
pub mod rich_objdiff;
pub mod statements;
pub mod symbols;
pub mod text;
