//! Asterisk indexes the functions of a code base and the calls between them.

pub mod block;
pub mod call_graph;
pub mod call_stack;
pub mod calls;
pub mod config;
pub mod error;
pub mod grammar;
pub mod imports;
pub mod indexer;
pub mod json;
pub mod parser;
pub mod source;
pub mod string_map;
pub mod syntax;
pub mod text;
pub mod utils;
