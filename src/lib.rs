//! Syntax-aware insertion of follow-up markers above declarations, and the
//! pattern searches used to find those markers again.
pub mod text;
pub mod tree_sitter_extended;
pub mod language;
pub mod tokens;
pub mod planner;
pub mod analyzer;
pub mod scanner;
pub mod commands;
pub mod pattern_search;
pub mod utils;
