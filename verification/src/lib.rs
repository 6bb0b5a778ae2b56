//! diffuse: a browser-based pager for git's diff output. This crate holds
//! the parts that decide things: the patch parser, word-level diffing, the
//! commit graph's lanes, the command-line contract, and the rules that turn
//! git's machine-readable output into the file list.

pub mod model;
pub mod text;
pub mod parse;
pub mod words;
pub mod graph;
pub mod cli;
pub mod git;
pub mod highlight;
pub mod server;
