//! Boyer-Moore search of one byte pattern, with the bad-character and good-suffix
//! shift tables.
use vstd::prelude::*;

verus! {

/// `pat` occurs in `text` at byte offset `p`.
pub open spec fn matches_at(text: Seq<u8>, pat: Seq<u8>, p: int) -> bool {
    0 <= p && p + pat.len() <= text.len() && text.subrange(p, p + pat.len()) == pat
}

/// The first offset from `from` on where `pat` occurs in `text`.
pub open spec fn first_match(text: Seq<u8>, pat: Seq<u8>, from: int) -> Option<int>
    decreases text.len() + 1 - from,
{
    if from < 0 || from + pat.len() > text.len() {
        None
    } else if matches_at(text, pat, from) {
        Some(from)
    } else {
        first_match(text, pat, from + 1)
    }
}

/// The offsets where `pat` occurs in `text` from `from` on, each search going on
/// `advance` bytes after the start of the last match found.
pub open spec fn match_list(text: Seq<u8>, pat: Seq<u8>, from: int, advance: int) -> Seq<int>
    decreases text.len() + 1 - from,
{
    match first_match(text, pat, from) {
        Some(p) => if from < p + advance <= text.len() + 1 {
            seq![p] + match_list(text, pat, p + advance, advance)
        } else {
            seq![p]
        },
        None => seq![],
    }
}

/// Offsets as integers.
pub open spec fn offsets(v: Seq<usize>) -> Seq<int> {
    v.map_values(|x: usize| x as int)
}

/// The last index below `k` where `c` stands in `pat`, or -1.
pub open spec fn last_before(pat: Seq<u8>, c: u8, k: int) -> int
    decreases k,
{
    if k <= 0 {
        -1
    } else if pat[k - 1] == c {
        k - 1
    } else {
        last_before(pat, c, k - 1)
    }
}

/// The bad-character shift of byte `c`: the distance from its last place in the pattern,
/// the last byte left out, to the pattern's end; the pattern's length where it is absent.
pub open spec fn bad_shift(pat: Seq<u8>, c: u8) -> int {
    let last = last_before(pat, c, pat.len() - 1);
    if last >= 0 {
        pat.len() - 1 - last
    } else {
        pat.len() as int
    }
}

/// The `k` bytes of `pat` that end at index `e` are its last `k` bytes.
pub open spec fn common_suffix(pat: Seq<u8>, e: int, k: int) -> bool {
    0 <= k <= e + 1 && forall|t: int| 0 <= t < k ==> #[trigger] pat[e - t] == pat[pat.len() - 1 - t]
}

/// `k` is the length of the longest run of bytes ending at index `e` that is also a
/// suffix of `pat`.
pub open spec fn is_suffix_len(pat: Seq<u8>, e: int, k: int) -> bool {
    common_suffix(pat, e, k) && (k == e + 1 || pat[e - k] != pat[pat.len() - 1 - k])
}

/// After a mismatch at index `j` of `pat`, with the bytes after `j` matched, shifting
/// the pattern by `s` agrees with all that is known of the text.
pub open spec fn consistent_shift(pat: Seq<u8>, j: int, s: int) -> bool {
    &&& forall|k: int| j < k < pat.len() && k >= s ==> #[trigger] pat[k - s] == pat[k]
    &&& (s <= j ==> pat[j - s] != pat[j])
}

/// `s` is the good-suffix shift after a mismatch at index `j`: the least shift that agrees
/// with the matched suffix and not with the mismatched byte; 1 at the last index.
pub open spec fn is_good_shift(pat: Seq<u8>, j: int, s: int) -> bool {
    if j == pat.len() - 1 {
        s == 1
    } else {
        &&& 1 <= s <= pat.len()
        &&& consistent_shift(pat, j, s)
        &&& forall|s2: int| 1 <= s2 < s ==> !#[trigger] consistent_shift(pat, j, s2)
    }
}

/// The good-suffix shift after a mismatch at index `j`.
pub open spec fn good_shift(pat: Seq<u8>, j: int) -> int {
    choose|s: int| is_good_shift(pat, j, s)
}

/// The shift after a mismatch at index `j` with `c` under the window's last byte: the
/// larger of the bad-character and the good-suffix shift.
pub open spec fn boyer_moore_shift(pat: Seq<u8>, c: u8, j: int) -> int {
    let b = bad_shift(pat, c);
    let g = good_shift(pat, j);
    if b > g {
        b
    } else {
        g
    }
}

/// Only one shift is the good-suffix shift of an index.
pub proof fn lemma_good_shift_unique(pat: Seq<u8>, j: int, s1: int, s2: int)
    requires
        is_good_shift(pat, j, s1),
        is_good_shift(pat, j, s2),
    ensures
        s1 == s2,
{
    if j != pat.len() - 1 {
        if s1 < s2 {
            assert(!consistent_shift(pat, j, s1));
        } else if s2 < s1 {
            assert(!consistent_shift(pat, j, s2));
        }
    }
}

/// Where the next byte `pattern` is found in `chars` after index `start`, counted from
/// `start`; 0 where it is not.
pub fn find_pending_character_index(chars: &[char], start: usize, pattern: &char) -> (r: usize)
    ensures
        r == 0 ==> forall|i: int| start < i < chars@.len() ==> chars@[i] != *pattern,
        r > 0 ==> start + r < chars@.len() && chars@[start + r] == *pattern && forall|i: int|
            start < i < start + r ==> chars@[i] != *pattern,
{
    if start >= chars.len() {
        return 0;
    }
    let mut i: usize = start + 1;
    while i < chars.len()
        invariant
            start < i <= chars@.len() || (i == start + 1 && start < chars@.len()),
            forall|k: int| start < k < i ==> chars@[k] != *pattern,
        decreases chars@.len() - i,
    {
        if chars[i] == *pattern {
            return i - start;
        }
        i += 1;
    }
    0
}


proof fn lemma_last_before(pat: Seq<u8>, c: u8, k: int)
    requires
        0 <= k <= pat.len(),
    ensures
        -1 <= last_before(pat, c, k) < k,
        last_before(pat, c, k) >= 0 ==> pat[last_before(pat, c, k)] == c,
        forall|i: int| last_before(pat, c, k) < i < k ==> pat[i] != c,
    decreases k,
{
    if k > 0 {
        lemma_last_before(pat, c, k - 1);
    }
}

/// The bad-character table of a pattern: for each byte value, its shift.
pub fn build_bad_chars_table(needle: &[u8]) -> (r: [usize; 256])
    requires
        needle@.len() > 0,
    ensures
        forall|c: u8| #[trigger] r@[c as int] == bad_shift(needle@, c),
{
    let m = needle.len();
    let mut table: [usize; 256] = [m; 256];
    let mut i: usize = 0;
    while i < m - 1
        invariant
            m == needle@.len(),
            m > 0,
            i <= m - 1,
            table@.len() == 256,
            forall|c: u8| #[trigger] table@[c as int] == (if last_before(needle@, c, i as int) >= 0 {
                m - 1 - last_before(needle@, c, i as int)
            } else {
                m as int
            }),
        decreases m - 1 - i,
    {
        let c = needle[i];
        let ghost prev = table@;
        table.set(c as usize, m - i - 1);
        i += 1;
        assert forall|d: u8| #[trigger] table@[d as int] == (if last_before(needle@, d, i as int) >= 0 {
            m - 1 - last_before(needle@, d, i as int)
        } else {
            m as int
        }) by {
            if d != c {
                assert(table@[d as int] == prev[d as int]) by {
                    assert((c as int) != (d as int));
                }
            }
        }
    }
    table
}


/// For each index `e` but the last, the length of the longest run of bytes ending at `e`
/// that is also a suffix of the pattern; 0 at the last index.
pub fn get_suffix_table(pattern: &[u8]) -> (r: Vec<usize>)
    ensures
        r@.len() == pattern@.len(),
        forall|e: int| 0 <= e < pattern@.len() - 1 ==> is_suffix_len(pattern@, e, #[trigger] r@[e] as int),
        pattern@.len() > 0 ==> r@[pattern@.len() - 1] == 0,
{
    let m = pattern.len();
    let mut suffixes: Vec<usize> = Vec::new();
    let mut e: usize = 0;
    while e + 1 < m
        invariant
            m == pattern@.len(),
            e <= m,
            e + 1 < m ==> suffixes@.len() == e,
            e + 1 >= m ==> suffixes@.len() == e && (m == 0 || e == m - 1),
            forall|x: int| 0 <= x < e ==> is_suffix_len(pattern@, x, #[trigger] suffixes@[x] as int),
        decreases m - e,
    {
        let mut k: usize = 0;
        while k <= e && pattern[e - k] == pattern[m - 1 - k]
            invariant
                m == pattern@.len(),
                e + 1 < m,
                k <= e + 1,
                common_suffix(pattern@, e as int, k as int),
            decreases e + 1 - k,
        {
            k += 1;
        }
        suffixes.push(k);
        e += 1;
    }
    if m > 0 {
        suffixes.push(0);
    }
    suffixes
}

proof fn lemma_suffix_len_unique(pat: Seq<u8>, e: int, k: int, k2: int)
    requires
        0 <= e < pat.len() - 1,
        is_suffix_len(pat, e, k),
        common_suffix(pat, e, k2),
        k2 == e + 1 || pat[e - k2] != pat[pat.len() - 1 - k2],
    ensures
        k == k2,
{
    if k < k2 {
        assert(pat[e - k] == pat[pat.len() - 1 - k]);
    } else if k > k2 {
        assert(pat[e - k2] == pat[pat.len() - 1 - k2]);
    }
}

/// The test on the suffix table that tells whether a shift agrees with a mismatch.
pub open spec fn shift_fits(m: int, suff: Seq<usize>, j: int, s: int) -> bool {
    if s <= j {
        suff[m - 1 - s] == m - 1 - j
    } else {
        s == m || suff[m - 1 - s] == m - s
    }
}

proof fn lemma_shift_fits(pat: Seq<u8>, suff: Seq<usize>, j: int, s: int)
    requires
        suff.len() == pat.len(),
        forall|e: int| 0 <= e < pat.len() - 1 ==> is_suffix_len(pat, e, #[trigger] suff[e] as int),
        0 <= j < pat.len() - 1,
        1 <= s <= pat.len(),
    ensures
        shift_fits(pat.len() as int, suff, j, s) == consistent_shift(pat, j, s),
{
    let m = pat.len() as int;
    if s < m {
        let e = m - 1 - s;
        let kk = suff[e] as int;
        assert(is_suffix_len(pat, e, kk));
        if s <= j {
            if consistent_shift(pat, j, s) {
                assert forall|t: int| 0 <= t < m - 1 - j implies #[trigger] pat[e - t] == pat[m - 1 - t] by {
                    let k = m - 1 - t;
                    assert(pat[k - s] == pat[k]);
                }
                assert(common_suffix(pat, e, m - 1 - j));
                lemma_suffix_len_unique(pat, e, kk, m - 1 - j);
            }
            if shift_fits(m, suff, j, s) {
                assert forall|k: int| j < k < pat.len() && k >= s implies #[trigger] pat[k - s] == pat[k] by {
                    let t = m - 1 - k;
                    assert(pat[e - t] == pat[m - 1 - t]);
                }
            }
        } else {
            if consistent_shift(pat, j, s) {
                assert forall|t: int| 0 <= t < e + 1 implies #[trigger] pat[e - t] == pat[m - 1 - t] by {
                    let k = m - 1 - t;
                    assert(pat[k - s] == pat[k]);
                }
                assert(common_suffix(pat, e, e + 1));
                lemma_suffix_len_unique(pat, e, kk, e + 1);
            }
            if shift_fits(m, suff, j, s) {
                assert forall|k: int| j < k < pat.len() && k >= s implies #[trigger] pat[k - s] == pat[k] by {
                    let t = m - 1 - k;
                    assert(pat[e - t] == pat[m - 1 - t]);
                }
            }
        }
    }
}

/// The good-suffix table of a pattern: for each index of a mismatch, its shift.
pub fn build_suffixes_table(pattern: &[u8]) -> (r: Vec<usize>)
    requires
        pattern@.len() > 0,
    ensures
        r@.len() == pattern@.len(),
        forall|j: int| 0 <= j < pattern@.len() ==> is_good_shift(pattern@, j, #[trigger] r@[j] as int),
{
    let suffixes = get_suffix_table(pattern);
    let m = pattern.len();
    let mut table: Vec<usize> = Vec::new();
    let mut j: usize = 0;
    while j < m - 1
        invariant
            m == pattern@.len(),
            m > 0,
            j <= m - 1,
            table@.len() == j,
            suffixes@.len() == m,
            forall|e: int| 0 <= e < m - 1 ==> is_suffix_len(pattern@, e, #[trigger] suffixes@[e] as int),
            forall|x: int| 0 <= x < j ==> is_good_shift(pattern@, x, #[trigger] table@[x] as int),
        decreases m - 1 - j,
    {
        let mut s: usize = 1;
        loop
            invariant
                m == pattern@.len(),
                j < m - 1,
                1 <= s <= m,
                suffixes@.len() == m,
                forall|e: int| 0 <= e < m - 1 ==> is_suffix_len(pattern@, e, #[trigger] suffixes@[e] as int),
                forall|s2: int| 1 <= s2 < s ==> !#[trigger] consistent_shift(pattern@, j as int, s2),
            ensures
                1 <= s <= m,
                consistent_shift(pattern@, j as int, s as int),
                forall|s2: int| 1 <= s2 < s ==> !#[trigger] consistent_shift(pattern@, j as int, s2),
            decreases m - s,
        {
            proof {
                lemma_shift_fits(pattern@, suffixes@, j as int, s as int);
            }
            let fits = if s <= j {
                suffixes[m - 1 - s] == m - 1 - j
            } else {
                s == m || suffixes[m - 1 - s] == m - s
            };
            if fits {
                break;
            }
            assert(s < m);
            s += 1;
        }
        table.push(s);
        j += 1;
    }
    table.push(1);
    table
}


proof fn lemma_first_match(text: Seq<u8>, pat: Seq<u8>, from: int)
    requires
        pat.len() > 0,
        from >= 0,
    ensures
        match first_match(text, pat, from) {
            Some(p) => from <= p && matches_at(text, pat, p) && forall|q: int|
                from <= q < p ==> !#[trigger] matches_at(text, pat, q),
            None => forall|q: int| from <= q ==> !#[trigger] matches_at(text, pat, q),
        },
    decreases text.len() + 1 - from,
{
    if from + pat.len() <= text.len() && !matches_at(text, pat, from) {
        lemma_first_match(text, pat, from + 1);
    }
}

/// The offsets that a search reports from `from` on are occurrences of the pattern, in
/// ascending order and at least `advance` apart; searching on one byte after each match
/// (`advance` 1) reports every occurrence.
pub proof fn lemma_match_list(text: Seq<u8>, pat: Seq<u8>, from: int, advance: int)
    requires
        pat.len() > 0,
        from >= 0,
        1 <= advance <= pat.len(),
    ensures
        forall|k: int|
            0 <= k < match_list(text, pat, from, advance).len() ==> from <= #[trigger] match_list(
                text,
                pat,
                from,
                advance,
            )[k] && matches_at(text, pat, match_list(text, pat, from, advance)[k]),
        forall|k: int, m: int|
            0 <= k < m < match_list(text, pat, from, advance).len() ==> #[trigger] match_list(
                text,
                pat,
                from,
                advance,
            )[k] + advance <= #[trigger] match_list(text, pat, from, advance)[m],
        advance == 1 ==> forall|q: int|
            from <= q && #[trigger] matches_at(text, pat, q) ==> match_list(text, pat, from, advance).contains(q),
    decreases text.len() + 1 - from,
{
    lemma_first_match(text, pat, from);
    if let Some(p) = first_match(text, pat, from) {
        let rest = match_list(text, pat, p + advance, advance);
        lemma_match_list(text, pat, p + advance, advance);
        let all = match_list(text, pat, from, advance);
        assert(all == seq![p] + rest);
        assert forall|k: int, m: int| 0 <= k < m < all.len() implies #[trigger] all[k] + advance <= #[trigger] all[m] by {
            if k > 0 {
                assert(all[k] == rest[k - 1] && all[m] == rest[m - 1]);
            } else {
                assert(all[m] == rest[m - 1]);
            }
        }
        assert forall|k: int| 0 <= k < all.len() implies from <= #[trigger] all[k] && matches_at(text, pat, all[k]) by {
            if k > 0 {
                assert(all[k] == rest[k - 1]);
            }
        }
        if advance == 1 {
            assert forall|q: int| from <= q && #[trigger] matches_at(text, pat, q) implies all.contains(q) by {
                if q == p {
                    assert(all[0] == q);
                } else {
                    assert(q > p);
                    assert(rest.contains(q));
                    let j = choose|j: int| 0 <= j < rest.len() && rest[j] == q;
                    assert(all[j + 1] == q);
                }
            }
        }
    }
}

/// Skipping ahead after a mismatch, as a search over a pattern does.
pub trait SkipSearch {
    /// The pattern searched for.
    spec fn skip_pattern(&self) -> Seq<u8>;

    /// The shift tables agree with the pattern.
    spec fn skip_ready(&self) -> bool;

    /// The shift after a mismatch at `pattern_pos` with `bad_char` under the window's
    /// last byte.
    spec fn skip_for(&self, bad_char: u8, pattern_pos: int) -> int;

    /// How far the window at `text_pos` may move after a mismatch at `pattern_pos`,
    /// with `bad_char` the text byte under the window's last byte: no occurrence is
    /// skipped.
    fn skip_offset(&self, bad_char: u8, pattern_pos: usize, text: &[u8], text_pos: usize) -> (r: usize)
        requires
            self.skip_ready(),
            text_pos + self.skip_pattern().len() <= text@.len(),
            pattern_pos < self.skip_pattern().len(),
            bad_char == text@[text_pos + self.skip_pattern().len() - 1],
            text@[text_pos + pattern_pos] != self.skip_pattern()[pattern_pos as int],
            forall|k: int|
                pattern_pos < k < self.skip_pattern().len() ==> #[trigger] text@[text_pos + k]
                    == self.skip_pattern()[k],
        ensures
            r == self.skip_for(bad_char, pattern_pos as int),
            1 <= r <= self.skip_pattern().len(),
            forall|s: int| 0 <= s < r ==> !#[trigger] matches_at(text@, self.skip_pattern(), text_pos + s),
    ;

    fn len(&self) -> (r: usize)
        requires
            self.skip_ready(),
        ensures
            r == self.skip_pattern().len(),
    ;

    fn at(&self, index: usize) -> (r: u8)
        requires
            self.skip_ready(),
            index < self.skip_pattern().len(),
        ensures
            r == self.skip_pattern()[index as int],
    ;

    fn is_empty(&self) -> (r: bool)
        requires
            self.skip_ready(),
        ensures
            r == (self.skip_pattern().len() == 0),
    ;
}

/// The first offset from `position` on where the pattern occurs in `text`.
pub fn find_from_position<U: SkipSearch>(pattern: &U, text: &[u8], position: usize) -> (r: Option<usize>)
    requires
        pattern.skip_ready(),
        pattern.skip_pattern().len() > 0,
    ensures
        r matches Some(p) ==> first_match(text@, pattern.skip_pattern(), position as int) == Some(p as int),
        r is None ==> first_match(text@, pattern.skip_pattern(), position as int) is None,
{
    let ghost pat = pattern.skip_pattern();
    let ghost start = position as int;
    let m = pattern.len();
    proof {
        lemma_first_match(text@, pat, start);
    }
    if m > text.len() {
        return None;
    }
    let n = text.len();
    let max_position = n - m;
    if position > max_position {
        assert forall|q: int| start <= q implies !#[trigger] matches_at(text@, pat, q) by {}
        return None;
    }
    let mut pos = position;
    while pos <= max_position
        invariant
            pattern.skip_ready(),
            pat == pattern.skip_pattern(),
            m == pat.len(),
            m > 0,
            max_position + m == text@.len(),
            n == text@.len(),
            start == position as int,
            start <= pos,
            pos <= text@.len(),
            forall|q: int| start <= q < pos ==> !#[trigger] matches_at(text@, pat, q),
            match first_match(text@, pat, start) {
                Some(p) => start <= p && matches_at(text@, pat, p) && forall|q: int|
                    start <= q < p ==> !#[trigger] matches_at(text@, pat, q),
                None => forall|q: int| start <= q ==> !#[trigger] matches_at(text@, pat, q),
            },
        decreases text@.len() - pos,
    {
        let mut pattern_pos: usize = m - 1;
        while text[pos + pattern_pos] == pattern.at(pattern_pos)
            invariant
                pattern.skip_ready(),
                pat == pattern.skip_pattern(),
                m == pat.len(),
                pos + m <= text@.len(),
                max_position + m == text@.len(),
                n == text@.len(),
                start == position as int,
                pos <= max_position,
                pattern_pos < m,
                start <= pos,
                forall|q: int| start <= q < pos ==> !#[trigger] matches_at(text@, pat, q),
                match first_match(text@, pat, start) {
                    Some(p) => start <= p && matches_at(text@, pat, p) && forall|q: int|
                        start <= q < p ==> !#[trigger] matches_at(text@, pat, q),
                    None => forall|q: int| start <= q ==> !#[trigger] matches_at(text@, pat, q),
                },
                forall|k: int| pattern_pos < k < m ==> #[trigger] text@[pos + k] == pat[k],
            decreases pattern_pos,
        {
            if pattern_pos == 0 {
                assert forall|k: int| 0 <= k < m implies #[trigger] text@.subrange(pos as int, pos + m)[k] == pat[k] by {
                    if k > 0 {
                        assert(text@[pos + k] == pat[k]);
                    }
                }
                assert(text@.subrange(pos as int, pos + m) =~= pat);
                assert(matches_at(text@, pat, pos as int));
                proof {
                    match first_match(text@, pat, start) {
                        Some(p) => {
                            if p < pos {
                                assert(!matches_at(text@, pat, p));
                            } else if p > pos {
                                assert(!matches_at(text@, pat, pos as int));
                            }
                        },
                        None => {
                            assert(!matches_at(text@, pat, pos as int));
                        },
                    }
                    assert(first_match(text@, pat, start) == Some(pos as int));
                }
                return Some(pos);
            }
            pattern_pos -= 1;
        }
        let bad_char = text[pos + m - 1];
        let shift = pattern.skip_offset(bad_char, pattern_pos, text, pos);
        assert forall|q: int| start <= q < pos + shift implies !#[trigger] matches_at(text@, pat, q) by {
            if q >= pos {
                assert(!matches_at(text@, pat, pos + (q - pos)));
            }
        }
        pos += shift;
    }
    assert forall|q: int| start <= q implies !#[trigger] matches_at(text@, pat, q) by {}
    None
}


/// A pattern prepared for Boyer-Moore search.
pub struct BoyerMooreSearch<'a> {
    pattern: &'a [u8],
    bad_character_table: [usize; 256],
    good_suffixes_table: Vec<usize>,
}

impl<'a> View for BoyerMooreSearch<'a> {
    type V = Seq<u8>;

    /// The pattern searched for.
    closed spec fn view(&self) -> Seq<u8> {
        self.pattern@
    }
}

impl<'a> BoyerMooreSearch<'a> {
    /// The pattern is not empty and both tables were built from it.
    pub closed spec fn wf(&self) -> bool {
        &&& self.pattern@.len() > 0
        &&& forall|c: u8| #[trigger] self.bad_character_table@[c as int] == bad_shift(self.pattern@, c)
        &&& self.good_suffixes_table@.len() == self.pattern@.len()
        &&& forall|j: int|
            0 <= j < self.pattern@.len() ==> is_good_shift(
                self.pattern@,
                j,
                #[trigger] self.good_suffixes_table@[j] as int,
            )
    }

    pub fn new(pattern: &'a [u8]) -> (r: BoyerMooreSearch<'a>)
        requires
            pattern@.len() > 0,
        ensures
            r.wf(),
            r@ == pattern@,
    {
        BoyerMooreSearch {
            pattern,
            bad_character_table: build_bad_chars_table(pattern),
            good_suffixes_table: build_suffixes_table(pattern),
        }
    }
}

proof fn lemma_bad_shift_safe(pat: Seq<u8>, c: u8, s: int)
    requires
        pat.len() > 0,
        1 <= s < bad_shift(pat, c),
    ensures
        pat[pat.len() - 1 - s] != c,
{
    lemma_last_before(pat, c, pat.len() - 1);
}

impl<'a> SkipSearch for BoyerMooreSearch<'a> {
    open spec fn skip_pattern(&self) -> Seq<u8> {
        self@
    }

    open spec fn skip_ready(&self) -> bool {
        self.wf()
    }

    open spec fn skip_for(&self, bad_char: u8, pattern_pos: int) -> int {
        boyer_moore_shift(self@, bad_char, pattern_pos)
    }

    fn skip_offset(&self, bad_char: u8, pattern_pos: usize, text: &[u8], text_pos: usize) -> (r: usize) {
        let bad_char_shift = self.bad_character_table[bad_char as usize];
        let good_suffix_shift = self.good_suffixes_table[pattern_pos];
        let ghost pat = self.pattern@;
        let ghost m = pat.len() as int;
        let ghost j = pattern_pos as int;
        proof {
            lemma_last_before(pat, bad_char, m - 1);
            assert(bad_char_shift == bad_shift(pat, bad_char));
            assert(is_good_shift(pat, j, good_suffix_shift as int));
            lemma_good_shift_unique(pat, j, good_suffix_shift as int, good_shift(pat, j));
            assert forall|s: int| 0 <= s < bad_char_shift || 0 <= s < good_suffix_shift implies !#[trigger] matches_at(text@, pat, text_pos + s) by {
                if matches_at(text@, pat, text_pos + s) {
                    let q = text_pos + s;
                    assert forall|i: int| 0 <= i < m implies #[trigger] text@[q + i] == pat[i] by {
                        assert(text@.subrange(q, q + m)[i] == pat[i]);
                    }
                    if s == 0 {
                        assert(text@[q + j] == pat[j]);
                    } else if s < bad_char_shift {
                        lemma_bad_shift_safe(pat, bad_char, s);
                        assert(text@[q + (m - 1 - s)] == pat[m - 1 - s]);
                    } else {
                        assert(j != m - 1);
                        assert forall|k: int| j < k < m && k >= s implies #[trigger] pat[k - s] == pat[k] by {
                            assert(text@[q + (k - s)] == pat[k - s]);
                            assert(text@[text_pos + k] == pat[k]);
                        }
                        if s <= j {
                            assert(text@[q + (j - s)] == pat[j - s]);
                        }
                        assert(consistent_shift(pat, j, s));
                    }
                }
            }
        }
        if bad_char_shift > good_suffix_shift {
            bad_char_shift
        } else {
            good_suffix_shift
        }
    }

    fn len(&self) -> (r: usize) {
        self.pattern.len()
    }

    fn at(&self, index: usize) -> (r: u8) {
        self.pattern[index]
    }

    fn is_empty(&self) -> (r: bool) {
        self.pattern.len() == 0
    }
}


/// An offset as an integer, if there is one.
pub open spec fn offset_of(r: Option<usize>) -> Option<int> {
    match r {
        Some(p) => Some(p as int),
        None => None,
    }
}

/// The occurrences of a pattern in a text, found one at a time.
pub struct BoyerMooreIter<'a> {
    searcher: &'a BoyerMooreSearch<'a>,
    text: &'a [u8],
    pos: usize,
    overlap_match: bool,
}

impl<'a> BoyerMooreIter<'a> {
    pub closed spec fn wf(&self) -> bool {
        self.searcher.wf() && self.pos <= self.text@.len()
    }

    /// How much of the text is left to search.
    pub closed spec fn rest_len(&self) -> int {
        self.text@.len() - self.pos
    }

    /// The offsets still to come, in ascending order.
    pub closed spec fn remaining(&self) -> Seq<int> {
        let pat = self.searcher.pattern@;
        match_list(self.text@, pat, self.pos as int, if self.overlap_match { 1 } else { pat.len() as int })
    }

    /// The next occurrence.
    pub fn next(&mut self) -> (r: Option<usize>)
        requires
            old(self).wf(),
        ensures
            final(self).wf(),
            0 <= final(self).rest_len(),
            r is Some ==> final(self).rest_len() < old(self).rest_len(),
            old(self).remaining().len() == 0 ==> r is None && final(self).remaining().len() == 0,
            old(self).remaining().len() > 0 ==> r is Some && r->0 as int == old(self).remaining()[0]
                && final(self).remaining() == old(self).remaining().drop_first(),
    {
        let ghost pat = self.searcher.pattern@;
        let ghost adv: int = if self.overlap_match { 1 } else { pat.len() as int };
        proof {
            lemma_first_match(self.text@, pat, self.pos as int);
        }
        match find_from_position(self.searcher, self.text, self.pos) {
            Some(p) => {
                let m = self.searcher.pattern.len();
                let n = self.text.len();
                assert(matches_at(self.text@, pat, p as int));
                if self.overlap_match {
                    self.pos = p + 1;
                } else {
                    self.pos = p + m;
                }
                assert(old(self).remaining() =~= seq![p as int] + self.remaining());
                Some(p)
            },
            None => None,
        }
    }

    /// All the occurrences still to come.
    pub fn collect(self) -> (r: Vec<usize>)
        requires
            self.wf(),
        ensures
            offsets(r@) == self.remaining(),
    {
        let ghost all = self.remaining();
        let mut it = self;
        let mut r: Vec<usize> = Vec::new();
        loop
            invariant
                it.wf(),
                all == self.remaining(),
                offsets(r@) + it.remaining() == all,
            decreases it.rest_len(),
        {
            let ghost before = it.remaining();
            match it.next() {
                Some(p) => {
                    r.push(p);
                    assert(offsets(r@) =~= offsets(r@.drop_last()).push(p as int));
                    assert(before =~= seq![before[0]] + before.drop_first());
                },
                None => {
                    assert(before.len() == 0);
                    assert(offsets(r@) =~= all);
                    return r;
                },
            }
        }
    }
}


/// Searching a text for a prepared pattern.
pub trait SearchIn<'a> {
    /// The pattern searched for.
    spec fn searched(&self) -> Seq<u8>;

    spec fn ready(&self) -> bool;

    /// The occurrences that do not overlap, each search going on after the last match.
    fn find_in(&'a self, text: &'a [u8]) -> (r: BoyerMooreIter<'a>)
        requires
            self.ready(),
        ensures
            r.wf(),
            r.remaining() == match_list(text@, self.searched(), 0, self.searched().len() as int),
    ;

    /// All the occurrences, overlapping ones included.
    fn find_overlapping_in(&'a self, text: &'a [u8]) -> (r: BoyerMooreIter<'a>)
        requires
            self.ready(),
        ensures
            r.wf(),
            r.remaining() == match_list(text@, self.searched(), 0, 1),
    ;

    /// The first occurrence.
    fn find_first_position(&'a self, text: &'a [u8]) -> (r: Option<usize>)
        requires
            self.ready(),
        ensures
            offset_of(r) == first_match(text@, self.searched(), 0),
    ;
}

impl<'a> SearchIn<'a> for BoyerMooreSearch<'a> {
    open spec fn searched(&self) -> Seq<u8> {
        self@
    }

    open spec fn ready(&self) -> bool {
        self.wf()
    }

    fn find_in(&'a self, text: &'a [u8]) -> (r: BoyerMooreIter<'a>) {
        BoyerMooreIter { searcher: self, text, pos: 0, overlap_match: false }
    }

    fn find_overlapping_in(&'a self, text: &'a [u8]) -> (r: BoyerMooreIter<'a>) {
        BoyerMooreIter { searcher: self, text, pos: 0, overlap_match: true }
    }

    fn find_first_position(&'a self, text: &'a [u8]) -> (r: Option<usize>) {
        find_from_position(self, text, 0)
    }
}

} // verus!
