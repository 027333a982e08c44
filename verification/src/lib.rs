//! Structural code search over tree-sitter syntax trees: the verified core.
pub mod text;
pub mod types;
pub mod order;
pub mod template;
pub mod rewrite;
pub mod tui;
pub mod parser;
pub mod query;
pub mod cli;
pub mod mcp;
pub mod lookup;
pub mod search;
