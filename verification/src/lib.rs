//! Splits the pass dumps that LLVM prints into one pipeline of passes per function.

pub mod available;
pub mod cli;
pub mod cutting;
pub mod demangle;
pub mod dump;
pub mod filter;
pub mod functions;
pub mod group;
pub mod order;
pub mod parser;
pub mod passes;
pub mod pattern;
pub mod report;
pub mod residue;
pub mod search;
pub mod select;
pub mod split;
pub mod table;
pub mod text;
