//! Device-tree source processing: parsing into a tree of nodes and
//! properties, resolving integer handles into node paths, and rendering
//! the tree back to source text.

pub mod ast;
pub mod text;
pub mod render;
pub mod index;
pub mod resolver;
pub mod laws;
pub mod lexer;
pub mod parser;
pub mod grammar;
pub mod pipeline;
pub mod roundtrip;

pub use crate::parser::parse;
pub use crate::resolver::{first_pass_walker, second_pass_walker};
