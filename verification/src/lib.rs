//! Writer for COFF-style (`.lib`) static archives.
//!
//! The archive is assembled in two phases: members are first reserved, then a
//! single `flush` computes the global layout (member byte offsets, the
//! deduplicated long-name table, and the symbol index) and emits the whole
//! byte stream at once, because the two synthetic linker members placed at the
//! front of the file reference the final offsets of records that follow them.

pub mod bytes;
pub mod header;
pub mod name_table;
pub mod symbols;
pub mod lex;
pub mod linker;
pub mod writer;
