//! The new content of an annotated file.
use vstd::prelude::*;
use crate::analyzer::{Analyzer, analysis};
use crate::text::{byte_lines, extend_bytes, lossy_text, text_of_bytes};
use crate::tree_sitter_extended::{AnalyzeError, SyntaxTree};

verus! {

/// Lines joined by line feeds.
pub open spec fn joined_lines(lines: Seq<Seq<u8>>) -> Seq<u8>
    decreases lines.len(),
{
    if lines.len() == 0 {
        seq![]
    } else if lines.len() == 1 {
        lines[0]
    } else {
        joined_lines(lines.drop_last()) + seq![10u8] + lines.last()
    }
}

/// The content of a file made of `lines`: joined by line feeds, with an empty last
/// line where the file it came from ended with a line feed.
pub open spec fn file_content(lines: Seq<Seq<u8>>, ends_with_newline: bool) -> Seq<u8> {
    if ends_with_newline {
        joined_lines(lines.push(seq![]))
    } else {
        joined_lines(lines)
    }
}

/// Rewrites whole files.
pub struct Scanner;

/// Joins lines with line feeds.
fn join_lines(lines: &Vec<Vec<u8>>) -> (r: Vec<u8>)
    ensures
        r@ == joined_lines(byte_lines(lines@)),
{
    let ghost ls = byte_lines(lines@);
    let mut r: Vec<u8> = Vec::new();
    let mut k: usize = 0;
    while k < lines.len()
        invariant
            k <= lines@.len(),
            ls == byte_lines(lines@),
            r@ == joined_lines(ls.subrange(0, k as int)),
        decreases lines@.len() - k,
    {
        if k > 0 {
            r.push(10u8);
        }
        extend_bytes(&mut r, &lines[k]);
        k += 1;
        assert(ls.subrange(0, k as int).drop_last() =~= ls.subrange(0, k - 1));
        if k == 1 {
            assert(r@ =~= joined_lines(ls.subrange(0, k as int)));
        }
    }
    assert(ls.subrange(0, lines@.len() as int) =~= ls);
    r
}

impl Scanner {
    /// The new content of a file whose text is the analyzer's source and whose syntax
    /// tree is `tree`.
    pub fn rewrite_source(analyzer: &Analyzer, tree: &SyntaxTree) -> (r: Result<String, AnalyzeError>)
        ensures
            match analysis(analyzer.language, vstd::utf8::encode_utf8(analyzer.source_code@), *tree) {
                Ok(lines) => {
                    let content = file_content(
                        lines,
                        analyzer.source_code@.len() > 0 && analyzer.source_code@.last() == '\n',
                    );
                    &&& r matches Ok(s)
                    &&& r->Ok_0@ == lossy_text(content)
                    &&& vstd::utf8::valid_utf8(content) ==> r->Ok_0@ == vstd::utf8::decode_utf8(content)
                },
                Err(e) => r == Err::<String, AnalyzeError>(e),
            },
    {
        let mut lines = analyzer.analyze_lines(tree)?;
        let text = analyzer.source_code.as_str();
        let n = vstd::string::StrSliceExecFns::unicode_len(text);
        let ghost ls = byte_lines(lines@);
        if n > 0 && vstd::string::StrSliceExecFns::get_char(text, n - 1) == '\n' {
            lines.push(Vec::new());
            assert(byte_lines(lines@) =~= ls.push(seq![]));
        }
        let content = join_lines(&lines);
        Ok(text_of_bytes(&content))
    }
}

} // verus!
