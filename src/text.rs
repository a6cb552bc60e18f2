//! Small verified helpers on text: comparison, lookup in kind lists, byte lines.
use vstd::prelude::*;
use vstd::string::StringSliceAdditionalSpecFns;

verus! {

/// Whether two string slices hold the same characters.
pub fn same_text(a: &str, b: &str) -> (r: bool)
    ensures
        r == (a@ == b@),
{
    let x = a.to_owned();
    let y = b.to_owned();
    x == y
}

/// Whether `kind` is one of `kinds`.
pub fn contains_kind(kinds: &Vec<&str>, kind: &str) -> (r: bool)
    ensures
        r == kinds@.map_values(|s: &str| s@).contains(kind@),
{
    let mut i: usize = 0;
    while i < kinds.len()
        invariant
            i <= kinds.len(),
            forall|j: int| 0 <= j < i ==> kinds@[j]@ != kind@,
        decreases kinds.len() - i,
    {
        if same_text(kinds[i], kind) {
            assert(kinds@.map_values(|s: &str| s@)[i as int] == kind@);
            return true;
        }
        i += 1;
    }
    proof {
        let texts = kinds@.map_values(|s: &str| s@);
        assert forall|j: int| 0 <= j < texts.len() implies #[trigger] texts[j] != kind@ by {}
    }
    false
}


/// The text of a list of byte lines.
pub open spec fn byte_lines(v: Seq<Vec<u8>>) -> Seq<Seq<u8>> {
    v.map_values(|x: Vec<u8>| x@)
}

/// `p` is the start of `s`.
pub open spec fn is_prefix_of(p: Seq<u8>, s: Seq<u8>) -> bool {
    p.len() <= s.len() && s.subrange(0, p.len() as int) == p
}

/// A copy of a byte string.
pub fn copy_bytes(v: &Vec<u8>) -> (r: Vec<u8>)
    ensures
        r@ == v@,
{
    vstd::slice::slice_to_vec(v.as_slice())
}

/// The bytes of `v` from `from` up to `to`.
pub fn sub_bytes(v: &Vec<u8>, from: usize, to: usize) -> (r: Vec<u8>)
    requires
        from <= to <= v@.len(),
    ensures
        r@ == v@.subrange(from as int, to as int),
{
    vstd::slice::slice_to_vec(vstd::slice::slice_subrange(v.as_slice(), from, to))
}

/// Whether two byte strings are equal.
pub fn same_bytes(a: &Vec<u8>, b: &Vec<u8>) -> (r: bool)
    ensures
        r == (a@ == b@),
{
    if a.len() != b.len() {
        return false;
    }
    let mut i: usize = 0;
    while i < a.len()
        invariant
            a@.len() == b@.len(),
            i <= a@.len(),
            forall|j: int| 0 <= j < i ==> a@[j] == b@[j],
        decreases a@.len() - i,
    {
        if a[i] != b[i] {
            return false;
        }
        i += 1;
    }
    assert(a@ =~= b@);
    true
}

/// Whether `s` starts with `p`.
pub fn starts_with_bytes(s: &Vec<u8>, p: &Vec<u8>) -> (r: bool)
    ensures
        r == is_prefix_of(p@, s@),
{
    if p.len() > s.len() {
        return false;
    }
    let mut i: usize = 0;
    while i < p.len()
        invariant
            p@.len() <= s@.len(),
            i <= p@.len(),
            forall|j: int| 0 <= j < i ==> s@[j] == p@[j],
        decreases p@.len() - i,
    {
        if s[i] != p[i] {
            assert(s@.subrange(0, p@.len() as int)[i as int] != p@[i as int]);
            return false;
        }
        i += 1;
    }
    assert(s@.subrange(0, p@.len() as int) =~= p@);
    true
}

/// Appends a copy of `src` to `dst`.
pub fn extend_bytes(dst: &mut Vec<u8>, src: &Vec<u8>)
    ensures
        final(dst)@ == old(dst)@ + src@,
{
    let mut c = copy_bytes(src);
    dst.append(&mut c);
}


/// A line without the carriage return that ended it.
pub open spec fn strip_cr(line: Seq<u8>) -> Seq<u8> {
    if line.len() > 0 && line.last() == 13u8 {
        line.drop_last()
    } else {
        line
    }
}

/// The lines finished within the first `n` bytes of `b`, and the bytes of the line
/// still open.
pub open spec fn split_state(b: Seq<u8>, n: int) -> (Seq<Seq<u8>>, Seq<u8>)
    decreases n,
{
    if n <= 0 {
        (seq![], seq![])
    } else {
        let (done, cur) = split_state(b, n - 1);
        if b[n - 1] == 10u8 {
            (done.push(strip_cr(cur)), seq![])
        } else {
            (done, cur.push(b[n - 1]))
        }
    }
}

/// The lines of a text: split at each `\n`, a `\r` before it dropped; the last line
/// needs no line ending, and an empty rest after the last one is no line.
pub open spec fn source_lines(b: Seq<u8>) -> Seq<Seq<u8>> {
    let (done, cur) = split_state(b, b.len() as int);
    if cur.len() > 0 {
        done.push(cur)
    } else {
        done
    }
}

/// The lines of `text`, as bytes.
pub fn split_lines(text: &str) -> (r: Vec<Vec<u8>>)
    ensures
        byte_lines(r@) == source_lines(text.spec_bytes()),
{
    let b = text.as_bytes();
    let mut done: Vec<Vec<u8>> = Vec::new();
    let mut cur: Vec<u8> = Vec::new();
    let mut i: usize = 0;
    while i < b.len()
        invariant
            i <= b@.len(),
            b@ == text.spec_bytes(),
            (byte_lines(done@), cur@) == split_state(b@, i as int),
        decreases b@.len() - i,
    {
        if b[i] == 10u8 {
            let n = cur.len();
            if n > 0 && cur[n - 1] == 13u8 {
                cur.pop();
            }
            let ghost before = done@;
            done.push(cur);
            assert(byte_lines(done@) =~= byte_lines(before).push(done@.last()@));
            cur = Vec::new();
        } else {
            cur.push(b[i]);
        }
        i += 1;
    }
    if cur.len() > 0 {
        let ghost before = done@;
        done.push(cur);
        assert(byte_lines(done@) =~= byte_lines(before).push(done@.last()@));
    }
    done
}

/// The text that `String::from_utf8_lossy` makes of a byte string.
pub uninterp spec fn lossy_text(b: Seq<u8>) -> Seq<char>;

/// Relies on `String::from_utf8_lossy`: valid UTF-8 is decoded as it stands, and the
/// result depends on the bytes alone.
#[verifier::external_body]
pub(crate) fn text_of_bytes(b: &Vec<u8>) -> (r: String)
    ensures
        r@ == lossy_text(b@),
        vstd::utf8::valid_utf8(b@) ==> r@ == vstd::utf8::decode_utf8(b@),
{
    String::from_utf8_lossy(b).into_owned()
}

} // verus!
