//! Choosing a search for a set of patterns, and the searches themselves.
use vstd::prelude::*;
use vstd::string::StringSliceAdditionalSpecFns;
use crate::commands::boyer_moore::{BoyerMooreSearch, SearchIn, match_list, offsets};

verus! {

/// The texts of a list of strings.
pub open spec fn string_texts(v: Seq<String>) -> Seq<Seq<char>> {
    v.map_values(|s: String| s@)
}

/// The match starts that the `aho-corasick` crate reports for `patterns` over `text`
/// (non-overlapping, with its default match semantics), or `None` where it cannot
/// build its automaton.
pub uninterp spec fn aho_corasick_starts(text: Seq<char>, patterns: Seq<Seq<char>>) -> Option<Seq<usize>>;

/// The match starts that the `regex` crate reports for `pattern` over `text`, or `None`
/// where the pattern does not compile.
pub uninterp spec fn regex_starts(text: Seq<char>, pattern: Seq<char>, ignore_case: bool) -> Option<Seq<usize>>;

/// The text that `str::to_lowercase` makes of `s`.
pub uninterp spec fn lowercase_of(s: Seq<char>) -> Seq<char>;

pub open spec fn starts_view(r: Option<Vec<usize>>) -> Option<Seq<usize>> {
    match r {
        Some(v) => Some(v@),
        None => None,
    }
}

/// What a search that could not run, or found nothing, reports.
pub open spec fn found_starts(r: Option<Seq<usize>>) -> Seq<usize> {
    match r {
        Some(s) => s,
        None => seq![],
    }
}

/// Relies on `aho_corasick::AhoCorasick::new` and `AhoCorasick::find_iter`: the start of
/// each match, in order, as the crate finds them; `None` where the automaton cannot be
/// built. The text is an unanchored input, so `find_iter` does not panic.
#[verifier::external_body]
pub(crate) fn automaton_starts(text: &str, patterns: &Vec<String>) -> (r: Option<Vec<usize>>)
    ensures
        starts_view(r) == aho_corasick_starts(text@, string_texts(patterns@)),
{
    let ac = aho_corasick::AhoCorasick::new(patterns).ok()?;
    Some(ac.find_iter(text).map(|m| m.start()).collect())
}

/// Relies on `regex::RegexBuilder` and `Regex::find_iter`: the start of each match, in
/// order; `None` where the pattern does not compile.
#[verifier::external_body]
fn regex_match_starts(text: &str, pattern: &str, ignore_case: bool) -> (r: Option<Vec<usize>>)
    ensures
        starts_view(r) == regex_starts(text@, pattern@, ignore_case),
{
    let re = regex::RegexBuilder::new(pattern).case_insensitive(ignore_case).build().ok()?;
    Some(re.find_iter(text).map(|m| m.start()).collect())
}

/// Relies on `str::to_lowercase`: the result depends on the characters alone.
#[verifier::external_body]
fn lowercase(s: &str) -> (r: String)
    ensures
        r@ == lowercase_of(s@),
{
    s.to_lowercase()
}

/// The search result: whether anything was found, and where.
pub fn search_outcome(starts: Vec<usize>) -> (r: (bool, Vec<usize>))
    ensures
        r.0 == (starts@.len() > 0),
        r.1@ == starts@,
{
    (starts.len() > 0, starts)
}

/// The byte offsets where `pat` occurs in `text`, each search going on after the last
/// match; none for an empty pattern.
pub open spec fn pattern_offsets(text: Seq<char>, pat: Seq<char>) -> Seq<int> {
    let p = vstd::utf8::encode_utf8(pat);
    if p.len() == 0 {
        seq![]
    } else {
        match_list(vstd::utf8::encode_utf8(text), p, 0, p.len() as int)
    }
}

/// Search settings: case folding, and reading the pattern as a regular expression.
#[derive(Clone, Copy, Debug)]
pub struct PatternTree {
    pub ignore_case: bool,
    pub regex_flag: bool,
}

/// The result of `selective_search`, as offsets.
pub open spec fn selected_offsets(t: PatternTree, patterns: Seq<Seq<char>>, text: Seq<char>) -> Seq<int> {
    if patterns.len() == 0 {
        seq![]
    } else if t.regex_flag {
        offsets(found_starts(regex_starts(text, patterns[0], t.ignore_case)))
    } else if patterns.len() == 1 {
        if t.ignore_case {
            pattern_offsets(lowercase_of(text), lowercase_of(patterns[0]))
        } else {
            pattern_offsets(text, patterns[0])
        }
    } else if t.ignore_case {
        offsets(
            found_starts(
                aho_corasick_starts(lowercase_of(text), patterns.map_values(|p: Seq<char>| lowercase_of(p))),
            ),
        )
    } else {
        offsets(found_starts(aho_corasick_starts(text, patterns)))
    }
}

impl PatternTree {
    pub fn new() -> (r: Self)
        ensures
            !r.ignore_case,
            !r.regex_flag,
    {
        PatternTree { ignore_case: false, regex_flag: false }
    }

    /// Searches with Boyer-Moore for one pattern and with the automaton for several;
    /// with `regex_flag` the first pattern is a regular expression.
    pub fn selective_search(&self, patterns: &Vec<String>, text: &str) -> (r: (bool, Vec<usize>))
        ensures
            offsets(r.1@) == selected_offsets(*self, string_texts(patterns@), text@),
            r.0 == (r.1@.len() > 0),
    {
        if patterns.len() == 0 {
            return (false, Vec::new());
        }
        if self.regex_flag {
            return self.regex(text, &patterns[0]);
        }
        if patterns.len() == 1 {
            if self.ignore_case {
                let lower_text = lowercase(text);
                let lower_pattern = lowercase(patterns[0].as_str());
                self.boyer_moore_search(lower_text.as_str(), &lower_pattern)
            } else {
                self.boyer_moore_search(text, &patterns[0])
            }
        } else if self.ignore_case {
            let mut lower_patterns: Vec<String> = Vec::new();
            let mut k: usize = 0;
            while k < patterns.len()
                invariant
                    k <= patterns@.len(),
                    lower_patterns@.len() == k,
                    forall|i: int| 0 <= i < k ==> #[trigger] lower_patterns@[i]@ == lowercase_of(patterns@[i]@),
                decreases patterns@.len() - k,
            {
                lower_patterns.push(lowercase(patterns[k].as_str()));
                k += 1;
            }
            assert(string_texts(lower_patterns@) =~= string_texts(patterns@).map_values(
                |p: Seq<char>| lowercase_of(p),
            ));
            self.aho_corasick_search(lowercase(text).as_str(), &lower_patterns)
        } else {
            self.aho_corasick_search(text, patterns)
        }
    }

    /// All the places where one of `patterns` starts in `text`, found by the automaton.
    pub fn aho_corasick_search(&self, text: &str, patterns: &Vec<String>) -> (r: (bool, Vec<usize>))
        ensures
            r.1@ == found_starts(aho_corasick_starts(text@, string_texts(patterns@))),
            r.0 == (r.1@.len() > 0),
    {
        match automaton_starts(text, patterns) {
            Some(starts) => search_outcome(starts),
            None => (false, Vec::new()),
        }
    }

    /// The byte offsets of the non-overlapping occurrences of `pattern` in `text`.
    pub fn boyer_moore_search(&self, text: &str, pattern: &String) -> (r: (bool, Vec<usize>))
        ensures
            offsets(r.1@) == pattern_offsets(text@, pattern@),
            r.0 == (r.1@.len() > 0),
    {
        let p = pattern.as_str().as_bytes();
        let t = text.as_bytes();
        if p.len() == 0 {
            return (false, Vec::new());
        }
        let searcher = BoyerMooreSearch::new(p);
        let found = searcher.find_in(t).collect();
        search_outcome(found)
    }

    /// The places where the regular expression `pattern` matches in `text`.
    pub fn regex(&self, text: &str, pattern: &String) -> (r: (bool, Vec<usize>))
        ensures
            r.1@ == found_starts(regex_starts(text@, pattern@, self.ignore_case)),
            r.0 == (r.1@.len() > 0),
    {
        match regex_match_starts(text, pattern.as_str(), self.ignore_case) {
            Some(starts) => search_outcome(starts),
            None => (false, Vec::new()),
        }
    }
}

} // verus!
