//! Folder-to-folder dependency graphs from gcc `.d` dependency files.

pub mod text;
pub mod depfile;
pub mod order;
pub mod tree;
pub mod edges;
pub mod graph;
pub mod render;
pub mod cli;
