//! Core logic of a small collaborative project-sharing tool: the rules the
//! server module applies to projects and files, the client's in-memory file
//! tree, and the helpers the command-line client relies on.

pub mod text;
pub mod project;
pub mod path;
pub mod file_tree;
pub mod client;
pub mod tree_laws;
pub mod build_law;

