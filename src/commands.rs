//! Pattern search over text: Boyer-Moore for one pattern, an automaton for several.
pub mod boyer_moore;
pub mod pattern_search;
pub mod grep;
