//! Suggesting the subcommand meant by a mistyped word.
use vstd::prelude::*;
use crate::language::kind_texts;

verus! {

/// The Levenshtein distance of two texts: the least number of single-character
/// insertions, deletions and substitutions that turn `a` into `b`.
pub open spec fn edit_distance(a: Seq<char>, b: Seq<char>) -> nat
    decreases a.len() + b.len(),
{
    if a.len() == 0 {
        b.len()
    } else if b.len() == 0 {
        a.len()
    } else {
        let substitute = edit_distance(a.drop_last(), b.drop_last()) + if a.last() == b.last() {
            0nat
        } else {
            1nat
        };
        let delete = edit_distance(a.drop_last(), b) + 1;
        let insert = edit_distance(a, b.drop_last()) + 1;
        if substitute <= delete && substitute <= insert {
            substitute
        } else if delete <= insert {
            delete
        } else {
            insert
        }
    }
}

/// Relies on `strsim::levenshtein`: the Levenshtein distance of the two strings,
/// counted over their characters.
#[verifier::external_body]
fn levenshtein(a: &str, b: &str) -> (r: usize)
    ensures
        r == edit_distance(a@, b@),
{
    strsim::levenshtein(a, b)
}

/// The greatest distance at which a word is still suggested.
pub const SUGGESTION_THRESHOLD: usize = 3;

/// The distance a suggestion must beat at first.
pub const NO_SUGGESTION_DISTANCE: usize = 80;

pub open spec fn dictionary_words() -> Seq<Seq<char>> {
    seq!["init"@, "reset"@, "grep"@, "help"@, "file"@, "pattern"@, "format"@, "json"@, "plain"@]
}

/// The words that a mistyped word may be taken for.
pub fn subcommand_dictionary() -> (r: Vec<&'static str>)
    ensures
        kind_texts(r@) == dictionary_words(),
{
    let r = vec!["init", "reset", "grep", "help", "file", "pattern", "format", "json", "plain"];
    assert(kind_texts(r@) =~= dictionary_words());
    r
}

/// Going through the distances `ds[..k]`: the index of the closest word within the
/// threshold so far (the first one at the least distance), and that distance.
pub open spec fn closest_so_far(ds: Seq<usize>, k: int) -> (Option<int>, int)
    decreases k,
{
    if k <= 0 {
        (None, NO_SUGGESTION_DISTANCE as int)
    } else {
        let (c, best) = closest_so_far(ds, k - 1);
        let d = ds[k - 1] as int;
        if 1 <= d <= SUGGESTION_THRESHOLD && d < best {
            (Some(k - 1), d)
        } else {
            (c, best)
        }
    }
}

/// The index of the word to suggest for the distances `ds`: none where a word matches
/// exactly.
pub open spec fn closest_index(ds: Seq<usize>) -> Option<int> {
    if ds.contains(0) {
        None
    } else {
        closest_so_far(ds, ds.len() as int).0
    }
}

/// Picks the word to suggest from the distances of the input to each word.
pub fn closest_word(distances: &Vec<usize>) -> (r: Option<usize>)
    ensures
        match r {
            Some(i) => closest_index(distances@) == Some(i as int),
            None => closest_index(distances@) is None,
        },
        r matches Some(i) ==> i < distances@.len(),
{
    let mut closest: Option<usize> = None;
    let mut smallest: usize = NO_SUGGESTION_DISTANCE;
    let mut k: usize = 0;
    while k < distances.len()
        invariant
            k <= distances@.len(),
            !distances@.subrange(0, k as int).contains(0),
            closest matches Some(i) ==> i < k,
            closest_so_far(distances@, k as int) == (
                match closest {
                    Some(i) => Some(i as int),
                    None => None,
                },
                smallest as int,
            ),
        decreases distances@.len() - k,
    {
        let distance = distances[k];
        if distance == 0 {
            assert(distances@[k as int] == 0);
            return None;
        }
        if 1 <= distance && distance <= SUGGESTION_THRESHOLD && distance < smallest {
            smallest = distance;
            closest = Some(k);
        }
        k += 1;
        assert(distances@.subrange(0, k as int) =~= distances@.subrange(0, k - 1).push(distance));
    }
    assert(distances@.subrange(0, distances@.len() as int) =~= distances@);
    closest
}

/// The distances of `input` to each word.
pub open spec fn word_distances(input: Seq<char>) -> Seq<usize> {
    dictionary_words().map_values(|w: Seq<char>| edit_distance(input, w) as usize)
}

/// The subcommand that a mistyped `input` most likely meant: the first word of the
/// dictionary at the least edit distance, if that is 1 to 3; none where `input` is a
/// word itself.
pub fn suggest_subcommand(input: &str) -> (r: Option<String>)
    ensures
        match closest_index(word_distances(input@)) {
            Some(i) => r matches Some(w) && w@ == dictionary_words()[i],
            None => r is None,
        },
{
    let words = subcommand_dictionary();
    let mut distances: Vec<usize> = Vec::new();
    let mut k: usize = 0;
    while k < words.len()
        invariant
            kind_texts(words@) == dictionary_words(),
            k <= words@.len(),
            distances@.len() == k,
            forall|i: int| 0 <= i < k ==> #[trigger] distances@[i] == edit_distance(input@, words@[i]@),
        decreases words@.len() - k,
    {
        distances.push(levenshtein(input, words[k]));
        k += 1;
    }
    assert(distances@ =~= word_distances(input@));
    match closest_word(&distances) {
        Some(i) => Some(words[i].to_owned()),
        None => None,
    }
}

} // verus!
