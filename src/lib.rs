//! A directory-tree asset compiler: it mirrors an input tree into an output tree,
//! sends script and markup files through their compilation units, copies every
//! other file, and skips files whose output is already newer than the input.
//!
//! The library holds the decisions; the program around it performs the
//! filesystem work that they ask for.

pub mod text;
pub mod config;
pub mod engine;
