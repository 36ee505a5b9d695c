//! A token-budgeted code outline of a repository: tree-sitter tags, the
//! define/reference tables and the reference graph's inputs, the display
//! lines of each definition, and the outline fitted to a token budget.
pub mod text;
pub mod bytes;
pub mod order;
pub mod cache;
pub mod tags;
pub mod walk;
pub mod lang;
pub mod render;
pub mod index;
pub mod importance;
pub mod graph;
pub mod semantic;
pub mod repomap;
