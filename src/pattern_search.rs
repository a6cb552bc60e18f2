//! Multi-pattern search with the automaton of the `aho-corasick` crate.
use vstd::prelude::*;
use crate::commands::pattern_search::{
    aho_corasick_starts, automaton_starts, found_starts, search_outcome, string_texts,
};

verus! {

/// A searcher for several patterns at once.
#[derive(Clone, Copy, Debug)]
pub struct PatternTree;

impl PatternTree {
    pub fn new() -> (r: Self) {
        PatternTree
    }

    /// All the places where one of `patterns` starts in `text`.
    pub fn aho_corasick_search(&self, text: &str, patterns: &Vec<String>) -> (r: (bool, Vec<usize>))
        ensures
            r.1@ == found_starts(aho_corasick_starts(text@, string_texts(patterns@))),
            r.0 == (r.1@.len() > 0),
    {
        match automaton_starts(text, patterns) {
            Some(starts) => search_outcome(starts),
            None => (false, Vec::new()),
        }
    }
}

} // verus!
