//! The line rewriter: inserts a marker comment above each declaration of a file.
use vstd::prelude::*;
use crate::language::{Language, decorator_kind, ignorable_kinds, nested_kinds};
use crate::planner::{all_named, ids_distinct, plan, scannable_nodes, sorted_by_row};
use crate::text::{
    byte_lines, contains_kind, copy_bytes, extend_bytes, is_prefix_of, lossy_text, same_bytes,
    same_text, source_lines, split_lines, starts_with_bytes, sub_bytes, text_of_bytes,
};
use crate::tokens::{CommentToken, token_of, token_text};
use crate::tree_sitter_extended::{
    AnalyzeError, MembershipCheck, Point, Range, SyntaxTree, point_within,
};

verus! {

/// A node picked for the rewrite: its id in the tree, its kind, its range, and where
/// its name stands (row, first column, end column).
#[derive(Debug)]
pub struct ScannedNode {
    pub id: usize,
    pub kind: String,
    pub range: Range,
    pub identifier: (usize, usize, usize),
}

pub open spec fn spaces(n: nat) -> Seq<u8> {
    Seq::new(n, |_i: int| 32u8)
}

/// The bytes of an ASCII text.
pub open spec fn ascii_bytes(s: Seq<char>) -> Seq<u8> {
    s.map_values(|c: char| c as u8)
}

/// Spaces per nesting level.
pub open spec fn indent_width(l: Language) -> nat {
    match l {
        Language::Ruby => 2,
        _ => 4,
    }
}

/// `depth` levels of indentation.
pub open spec fn indentation(l: Language, depth: nat) -> Seq<u8>
    decreases depth,
{
    if depth == 0 {
        seq![]
    } else {
        indentation(l, (depth - 1) as nat) + spaces(indent_width(l))
    }
}

/// The marker comment at nesting depth `depth`, without a name.
pub open spec fn comment_prefix(l: Language, depth: nat) -> Seq<u8> {
    indentation(l, depth) + ascii_bytes(token_text(token_of(l)))
}

/// The marker comment at nesting depth `depth`, as text.
pub open spec fn comment_text(l: Language, depth: nat) -> Seq<char> {
    Seq::new(indent_width(l) * depth, |_i: int| ' ') + token_text(token_of(l))
}

/// The marker comment is ASCII text, and its bytes are those of `comment_prefix`.
pub proof fn lemma_comment_prefix_encodes(l: Language, depth: nat)
    ensures
        comment_prefix(l, depth) == vstd::utf8::encode_utf8(comment_text(l, depth)),
        vstd::utf8::valid_utf8(comment_prefix(l, depth)),
        vstd::utf8::decode_utf8(comment_prefix(l, depth)) == comment_text(l, depth),
{
    reveal_strlit("/// [TODO]");
    reveal_strlit("// [TODO]");
    reveal_strlit("# [TODO]");
    let text = comment_text(l, depth);
    let tok = token_text(token_of(l));
    let w = indent_width(l) * depth;
    assert(vstd::utf8::is_ascii_chars(tok));
    assert(vstd::utf8::is_ascii_chars(text)) by {
        assert forall|i: int| 0 <= i < text.len() implies '\0' <= #[trigger] text[i] <= '\u{7f}' by {
            if i >= w {
                assert(text[i] == tok[i - w]);
            }
        }
    }
    vstd::utf8::is_ascii_chars_encode_utf8(text);
    lemma_indentation_is_spaces(l, depth);
    assert(comment_prefix(l, depth) =~= vstd::utf8::encode_utf8(text)) by {
        assert forall|i: int| 0 <= i < text.len() implies #[trigger] comment_prefix(l, depth)[i]
            == vstd::utf8::encode_utf8(text)[i] by {
            assert(text[i] as u8 == vstd::utf8::encode_utf8(text)[i]);
        }
    }
    vstd::utf8::encode_utf8_valid_utf8(text);
    vstd::utf8::encode_utf8_decode_utf8(text);
}

/// The separator between the names of a breadcrumb: ` > `.
pub open spec fn crumb_separator() -> Seq<u8> {
    seq![32u8, 62u8, 32u8]
}

/// The names of the open scopes, outermost first, each followed by the separator.
pub open spec fn scope_path(scopes: Seq<(usize, Seq<u8>)>) -> Seq<u8>
    decreases scopes.len(),
{
    if scopes.len() == 0 {
        seq![]
    } else {
        scope_path(scopes.drop_last()) + scopes.last().1 + crumb_separator()
    }
}

/// The breadcrumb of a node named `name` inside the open scopes.
pub open spec fn breadcrumb(scopes: Seq<(usize, Seq<u8>)>, name: Seq<u8>) -> Seq<u8> {
    scope_path(scopes) + name
}

/// The marker line of a node named `name` inside the open scopes: indentation by the
/// number of open scopes, the marker, then a space and the breadcrumb when there is one.
pub open spec fn annotation(l: Language, scopes: Seq<(usize, Seq<u8>)>, name: Seq<u8>) -> Seq<u8> {
    let crumb = breadcrumb(scopes, name);
    if crumb.len() == 0 {
        comment_prefix(l, scopes.len())
    } else {
        comment_prefix(l, scopes.len()) + seq![32u8] + crumb
    }
}

/// The name of a node in the source lines.
pub open spec fn node_name(lines: Seq<Seq<u8>>, node: ScannedNode) -> Seq<u8> {
    let (row, from, to) = node.identifier;
    lines[row as int].subrange(from as int, to as int)
}

/// The node's name lies inside the source lines.
pub open spec fn name_in_bounds(lines: Seq<Seq<u8>>, node: ScannedNode) -> bool {
    let (row, from, to) = node.identifier;
    row < lines.len() && from <= to <= lines[row as int].len()
}

pub open spec fn names_in_bounds(lines: Seq<Seq<u8>>, nodes: Seq<ScannedNode>) -> bool {
    forall|k: int| 0 <= k < nodes.len() ==> name_in_bounds(lines, #[trigger] nodes[k])
}

/// The state of the rewrite between two source lines.
pub ghost struct RewriteState {
    /// The lines written so far.
    pub out: Seq<Seq<u8>>,
    /// Attribute lines waiting for the declaration they belong to.
    pub pending: Seq<Seq<u8>>,
    /// The index of the next node to be met.
    pub next: int,
    /// The open scopes, outermost first: the row where each ends, and its name.
    pub scopes: Seq<(usize, Seq<u8>)>,
    /// The last line seen outside any node that starts with the marker, and its row.
    pub latest: Option<(Seq<u8>, int)>,
}

pub open spec fn initial_state() -> RewriteState {
    RewriteState { out: seq![], pending: seq![], next: 0, scopes: seq![], latest: None }
}

/// The scopes left open at row `row`: the innermost one closes once the row reaches
/// its end.
pub open spec fn close_scope(scopes: Seq<(usize, Seq<u8>)>, row: int) -> Seq<(usize, Seq<u8>)> {
    if scopes.len() > 0 && row >= scopes.last().0 {
        scopes.drop_last()
    } else {
        scopes
    }
}

/// The position at the end of line `i`.
pub open spec fn line_end(i: int, line: Seq<u8>) -> Point {
    Point { row: i as usize, column: line.len() as usize }
}

/// A re-export from another module (`export * from './x'`): its planned name is the
/// empty sentinel.
pub open spec fn is_re_export(node: ScannedNode) -> bool {
    node.kind@ == "export_statement"@ && node.identifier == (0usize, 0usize, 0usize)
}

/// A node whose line is written as it is, with the attributes waiting before it: a
/// one-line module, a re-export, or an ignorable kind.
pub open spec fn passes_through(l: Language, node: ScannedNode) -> bool {
    (node.kind@ == "mod_item"@ && node.range.start_point.row == node.range.end_point.row)
        || is_re_export(node) || ignorable_kinds(l).contains(node.kind@)
}

/// The last marker line seen is `note`.
pub open spec fn repeats_latest(latest: Option<(Seq<u8>, int)>, note: Seq<u8>) -> bool {
    match latest {
        Some((t, _)) => t == note,
        None => false,
    }
}

/// What happens on line `i` of the source.
pub open spec fn step(
    l: Language,
    lines: Seq<Seq<u8>>,
    nodes: Seq<ScannedNode>,
    st: RewriteState,
    i: int,
) -> RewriteState {
    let line = lines[i];
    if st.next >= nodes.len() {
        RewriteState { out: st.out.push(line), ..st }
    } else {
        let node = nodes[st.next];
        let cursor = line_end(i, line);
        let kind = node.kind@;
        if point_within(cursor, node.range) {
            if passes_through(l, node) {
                RewriteState {
                    out: st.out + st.pending + seq![line],
                    pending: seq![],
                    next: st.next + 1,
                    ..st
                }
            } else {
                let name = node_name(lines, node);
                let is_decorator = kind == decorator_kind(l);
                let note = annotation(l, st.scopes, name);
                let closed = close_scope(st.scopes, i);
                let nested = nested_kinds(l).contains(kind);
                RewriteState {
                    out: if is_decorator {
                        st.out
                    } else if repeats_latest(st.latest, note) {
                        st.out + st.pending + seq![line]
                    } else {
                        st.out.push(note) + st.pending + seq![line]
                    },
                    pending: if is_decorator {
                        st.pending.push(line)
                    } else {
                        seq![]
                    },
                    next: if !is_decorator || nested || cursor == node.range.end_point {
                        st.next + 1
                    } else {
                        st.next
                    },
                    scopes: if nested {
                        closed.push((node.range.end_point.row, name))
                    } else {
                        closed
                    },
                    latest: st.latest,
                }
            }
        } else {
            let closed = close_scope(st.scopes, i);
            if st.latest == Some((line, i - 1)) {
                RewriteState { scopes: closed, ..st }
            } else {
                let starts = is_prefix_of(comment_prefix(l, closed.len()), line);
                RewriteState {
                    out: st.out.push(line),
                    scopes: closed,
                    latest: if starts {
                        Some((line, i))
                    } else {
                        st.latest
                    },
                    ..st
                }
            }
        }
    }
}

/// The state after the first `n` source lines.
pub open spec fn run(l: Language, lines: Seq<Seq<u8>>, nodes: Seq<ScannedNode>, n: int) -> RewriteState
    decreases n,
{
    if n <= 0 {
        initial_state()
    } else {
        step(l, lines, nodes, run(l, lines, nodes, n - 1), n - 1)
    }
}

/// The rewritten file: what was written, then the attribute lines still waiting at
/// the end of the file.
pub open spec fn rewritten(l: Language, lines: Seq<Seq<u8>>, nodes: Seq<ScannedNode>) -> Seq<Seq<u8>> {
    let last = run(l, lines, nodes, lines.len() as int);
    last.out + last.pending
}


/// The open scopes as the rewrite holds them.
pub open spec fn scope_view(v: Seq<(usize, Vec<u8>)>) -> Seq<(usize, Seq<u8>)> {
    v.map_values(|p: (usize, Vec<u8>)| (p.0, p.1@))
}

/// The marker comment of `language` at nesting depth `depth`.
pub fn indent_comment(language: &Language, depth: usize) -> (r: Vec<u8>)
    ensures
        r@ == comment_prefix(*language, depth as nat),
{
    let width: usize = match language {
        Language::Ruby => 2,
        _ => 4,
    };
    let mut r: Vec<u8> = Vec::new();
    let mut level: usize = 0;
    while level < depth
        invariant
            level <= depth,
            width == indent_width(*language),
            r@ == indentation(*language, level as nat),
        decreases depth - level,
    {
        let ghost before = r@;
        let mut k: usize = 0;
        while k < width
            invariant
                k <= width,
                r@ == before + spaces(k as nat),
            decreases width - k,
        {
            r.push(32u8);
            k += 1;
            assert(r@ =~= before + spaces(k as nat));
        }
        level += 1;
    }
    let token = CommentToken::from_language(language).to_str();
    let bytes = token.as_bytes();
    proof {
        vstd::string::is_ascii_spec_bytes(token);
        assert(bytes@ =~= ascii_bytes(token@));
    }
    let mut tail = vstd::slice::slice_to_vec(bytes);
    r.append(&mut tail);
    r
}

/// The marker line of a node named `name` inside the open scopes `scopes`.
pub fn build_annotation(language: &Language, scopes: &Vec<(usize, Vec<u8>)>, name: &Vec<u8>) -> (r: Vec<u8>)
    ensures
        r@ == annotation(*language, scope_view(scopes@), name@),
{
    let ghost sv = scope_view(scopes@);
    let mut crumb: Vec<u8> = Vec::new();
    let mut k: usize = 0;
    while k < scopes.len()
        invariant
            k <= scopes@.len(),
            sv == scope_view(scopes@),
            crumb@ == scope_path(sv.subrange(0, k as int)),
        decreases scopes@.len() - k,
    {
        extend_bytes(&mut crumb, &scopes[k].1);
        crumb.push(32u8);
        crumb.push(62u8);
        crumb.push(32u8);
        k += 1;
        assert(sv.subrange(0, k as int).drop_last() =~= sv.subrange(0, k - 1));
        assert(crumb@ =~= scope_path(sv.subrange(0, k as int)));
    }
    assert(sv.subrange(0, scopes@.len() as int) =~= sv);
    extend_bytes(&mut crumb, name);
    let mut r = indent_comment(language, scopes.len());
    if crumb.len() > 0 {
        r.push(32u8);
        r.append(&mut crumb);
    }
    r
}


/// The last marker line seen as the rewrite holds it.
pub open spec fn latest_view(v: Option<(Vec<u8>, usize)>) -> Option<(Seq<u8>, int)> {
    match v {
        Some((t, r)) => Some((t@, r as int)),
        None => None,
    }
}

/// Closes the innermost scope once row `row` reaches its end.
fn close_scope_at(scopes: &mut Vec<(usize, Vec<u8>)>, row: usize)
    ensures
        scope_view(final(scopes)@) == close_scope(scope_view(old(scopes)@), row as int),
{
    let n = scopes.len();
    if n > 0 && row >= scopes[n - 1].0 {
        scopes.pop();
        assert(scope_view(scopes@) =~= scope_view(old(scopes)@).drop_last());
    }
}

/// Rewrites the source lines, given the nodes to meet in source order: each
/// declaration gets its marker line above it and above its attributes.
#[verifier::spinoff_prover]
#[verifier::rlimit(40)]
pub fn rewrite_lines(language: &Language, lines: &Vec<Vec<u8>>, nodes: &Vec<ScannedNode>) -> (r: Vec<Vec<u8>>)
    requires
        names_in_bounds(byte_lines(lines@), nodes@),
    ensures
        byte_lines(r@) == rewritten(*language, byte_lines(lines@), nodes@),
{
    let ghost ls = byte_lines(lines@);
    let ghost l = *language;
    let ignorable = language.ignorable_node_types();
    let nested = language.nested_traversable_symbols();
    let decorator = language.decorator_node_type();
    let mut out: Vec<Vec<u8>> = Vec::new();
    let mut pending: Vec<Vec<u8>> = Vec::new();
    let mut next: usize = 0;
    let mut scopes: Vec<(usize, Vec<u8>)> = Vec::new();
    let mut latest: Option<(Vec<u8>, usize)> = None;
    let mut i: usize = 0;
    assert(byte_lines(out@) =~= seq![]);
    assert(byte_lines(pending@) =~= seq![]);
    assert(scope_view(scopes@) =~= seq![]);
    while i < lines.len()
        invariant
            i <= lines@.len(),
            ls == byte_lines(lines@),
            l == *language,
            names_in_bounds(ls, nodes@),
            crate::language::kind_texts(ignorable@) == ignorable_kinds(l),
            crate::language::kind_texts(nested@) == nested_kinds(l),
            decorator@ == decorator_kind(l),
            next <= nodes@.len(),
            latest matches Some((_, r)) ==> r < i,
            run(l, ls, nodes@, i as int) == (RewriteState {
                out: byte_lines(out@),
                pending: byte_lines(pending@),
                next: next as int,
                scopes: scope_view(scopes@),
                latest: latest_view(latest),
            }),
        decreases lines@.len() - i,
    {
        let ghost st = run(l, ls, nodes@, i as int);
        let line = &lines[i];
        assert(line@ == ls[i as int]);
        if next >= nodes.len() {
            out.push(copy_bytes(line));
            assert(byte_lines(out@) =~= st.out.push(ls[i as int]));
        } else {
            let node = &nodes[next];
            let cursor = Point { row: i, column: line.len() };
            assert(cursor == line_end(i as int, ls[i as int]));
            if cursor.is_member_of(node.range) {
                let kind = node.kind.as_str();
                let inline_module = same_text(kind, "mod_item") && node.range.start_point.row
                    == node.range.end_point.row;
                let re_export = same_text(kind, "export_statement") && node.identifier.0 == 0
                    && node.identifier.1 == 0 && node.identifier.2 == 0;
                if inline_module || re_export || contains_kind(&ignorable, kind) {
                    out.append(&mut pending);
                    out.push(copy_bytes(line));
                    next += 1;
                    assert(byte_lines(out@) =~= st.out + st.pending + seq![ls[i as int]]);
                    assert(byte_lines(pending@) =~= seq![]);
                } else {
                    let (row, from, to) = node.identifier;
                    assert(name_in_bounds(ls, nodes@[next as int]));
                    let name = sub_bytes(&lines[row], from, to);
                    assert(name@ == node_name(ls, nodes@[next as int]));
                    let is_decorator = same_text(kind, decorator);
                    let mut pop = false;
                    if is_decorator {
                        pending.push(copy_bytes(line));
                        assert(byte_lines(pending@) =~= st.pending.push(ls[i as int]));
                    } else {
                        let note = build_annotation(language, &scopes, &name);
                        let repeated = match &latest {
                            Some((t, _)) => same_bytes(t, &note),
                            None => false,
                        };
                        if !repeated {
                            out.push(note);
                        }
                        out.append(&mut pending);
                        out.push(copy_bytes(line));
                        pop = true;
                        if repeated {
                            assert(byte_lines(out@) =~= st.out + st.pending + seq![ls[i as int]]);
                        } else {
                            assert(byte_lines(out@) =~= st.out.push(note@) + st.pending + seq![
                                ls[i as int],
                            ]);
                        }
                        assert(byte_lines(pending@) =~= seq![]);
                    }
                    close_scope_at(&mut scopes, i);
                    if contains_kind(&nested, kind) {
                        let ghost before = scopes@;
                        scopes.push((node.range.end_point.row, name));
                        assert(scope_view(scopes@) =~= scope_view(before).push(
                            (node.range.end_point.row, name@),
                        ));
                        pop = true;
                    }
                    if cursor == node.range.end_point {
                        pop = true;
                    }
                    if pop {
                        next += 1;
                    }
                }
            } else {
                close_scope_at(&mut scopes, i);
                let repeated = match &latest {
                    Some((t, r)) => *r + 1 == i && same_bytes(t, line),
                    None => false,
                };
                if !repeated {
                    let prefix = indent_comment(language, scopes.len());
                    if starts_with_bytes(line, &prefix) {
                        latest = Some((copy_bytes(line), i));
                    }
                    out.push(copy_bytes(line));
                    assert(byte_lines(out@) =~= st.out.push(ls[i as int]));
                }
            }
        }
        i += 1;
    }
    let ghost fin = byte_lines(out@) + byte_lines(pending@);
    out.append(&mut pending);
    assert(byte_lines(out@) =~= fin);
    out
}


/// A source file and its language, to be annotated.
pub struct Analyzer {
    pub source_code: String,
    pub language: Language,
}

/// Levels of indentation for which the marker comments are prepared.
pub const MAX_INDENT_LEVEL: usize = 100;

/// The outcome of annotating source bytes `src` in language `l` with syntax tree `t`:
/// the lines of the new file, or why there are none.
pub open spec fn analysis(l: Language, src: Seq<u8>, t: SyntaxTree) -> Result<Seq<Seq<u8>>, AnalyzeError> {
    let lines = source_lines(src);
    if !t.wf() {
        Err(AnalyzeError::MalformedTree)
    } else if !all_named(l, t) {
        Err(AnalyzeError::MissingIdentifier)
    } else if lines.len() > 0 && !names_in_bounds(lines, plan(l, t)) {
        Err(AnalyzeError::IdentifierOutOfRange)
    } else {
        Ok(rewritten(l, lines, plan(l, t)))
    }
}

/// The texts of lines of bytes.
pub open spec fn texts_of(lines: Seq<Seq<u8>>) -> Seq<Seq<char>> {
    lines.map_values(|b: Seq<u8>| lossy_text(b))
}

/// Checks that every planned name lies inside the source lines.
fn check_names(lines: &Vec<Vec<u8>>, nodes: &Vec<ScannedNode>) -> (r: bool)
    ensures
        r == names_in_bounds(byte_lines(lines@), nodes@),
{
    let mut k: usize = 0;
    while k < nodes.len()
        invariant
            k <= nodes@.len(),
            forall|m: int| 0 <= m < k ==> name_in_bounds(byte_lines(lines@), #[trigger] nodes@[m]),
        decreases nodes@.len() - k,
    {
        let (row, from, to) = nodes[k].identifier;
        if row >= lines.len() || from > to || to > lines[row].len() {
            assert(!name_in_bounds(byte_lines(lines@), nodes@[k as int]));
            return false;
        }
        k += 1;
    }
    true
}

impl Analyzer {
    /// The marker comment at each nesting level below `MAX_INDENT_LEVEL`.
    pub fn get_indent_comment_pool(&self) -> (r: Vec<String>)
        ensures
            r@.len() == MAX_INDENT_LEVEL,
            forall|level: int|
                0 <= level < MAX_INDENT_LEVEL ==> #[trigger] r@[level]@ == comment_text(
                    self.language,
                    level as nat,
                ),
    {
        let mut r: Vec<String> = Vec::new();
        let mut level: usize = 0;
        while level < MAX_INDENT_LEVEL
            invariant
                level <= MAX_INDENT_LEVEL,
                r@.len() == level,
                forall|k: int|
                    0 <= k < level ==> #[trigger] r@[k]@ == comment_text(self.language, k as nat),
            decreases MAX_INDENT_LEVEL - level,
        {
            let prefix = indent_comment(&self.language, level);
            proof {
                lemma_comment_prefix_encodes(self.language, level as nat);
            }
            r.push(text_of_bytes(&prefix));
            level += 1;
        }
        r
    }

    /// The nodes that the rewrite meets, in source order, with where their names stand.
    pub fn get_scannable_nodes(&self, tree: &SyntaxTree) -> (r: Result<Vec<ScannedNode>, AnalyzeError>)
        ensures
            !tree.wf() ==> r == Err::<Vec<ScannedNode>, AnalyzeError>(AnalyzeError::MalformedTree),
            tree.wf() ==> (r is Ok <==> all_named(self.language, *tree)),
            tree.wf() ==> (r matches Err(e) ==> e == AnalyzeError::MissingIdentifier),
            r matches Ok(v) ==> v@ == plan(self.language, *tree) && sorted_by_row(v@) && ids_distinct(
                v@,
            ),
    {
        if !tree.is_well_formed() {
            return Err(AnalyzeError::MalformedTree);
        }
        scannable_nodes(&self.language, tree)
    }

    /// The lines of the source, as bytes, with a marker line above each declaration
    /// that `tree` shows.
    pub fn analyze_lines(&self, tree: &SyntaxTree) -> (r: Result<Vec<Vec<u8>>, AnalyzeError>)
        ensures
            match analysis(self.language, vstd::utf8::encode_utf8(self.source_code@), *tree) {
                Ok(lines) => r matches Ok(v) && byte_lines(v@) == lines,
                Err(e) => r == Err::<Vec<Vec<u8>>, AnalyzeError>(e),
            },
    {
        let lines = split_lines(self.source_code.as_str());
        let nodes = self.get_scannable_nodes(tree)?;
        if lines.len() > 0 && !check_names(&lines, &nodes) {
            return Err(AnalyzeError::IdentifierOutOfRange);
        }
        if lines.len() == 0 {
            let empty: Vec<Vec<u8>> = Vec::new();
            assert(byte_lines(empty@) =~= rewritten(self.language, byte_lines(lines@), nodes@));
            return Ok(empty);
        }
        Ok(rewrite_lines(&self.language, &lines, &nodes))
    }

    /// The lines of the source with a marker line above each declaration that `tree`
    /// shows, to be joined with line feeds.
    pub fn analyze(&self, tree: &SyntaxTree) -> (r: Result<Vec<String>, AnalyzeError>)
        ensures
            match analysis(self.language, vstd::utf8::encode_utf8(self.source_code@), *tree) {
                Ok(lines) => r matches Ok(v) && v@.map_values(|s: String| s@) == texts_of(lines)
                    && forall|i: int|
                    0 <= i < lines.len() && vstd::utf8::valid_utf8(lines[i]) ==> #[trigger] v@[i]@
                        == vstd::utf8::decode_utf8(lines[i]),
                Err(e) => r == Err::<Vec<String>, AnalyzeError>(e),
            },
    {
        let out = self.analyze_lines(tree)?;
        let mut texts: Vec<String> = Vec::new();
        let mut k: usize = 0;
        while k < out.len()
            invariant
                k <= out@.len(),
                texts@.len() == k,
                forall|m: int| 0 <= m < k ==> #[trigger] texts@[m]@ == lossy_text(out@[m]@),
                forall|m: int|
                    0 <= m < k && vstd::utf8::valid_utf8(out@[m]@) ==> #[trigger] texts@[m]@
                        == vstd::utf8::decode_utf8(out@[m]@),
            decreases out@.len() - k,
        {
            texts.push(text_of_bytes(&out[k]));
            k += 1;
        }
        assert(texts@.map_values(|s: String| s@) =~= texts_of(byte_lines(out@)));
        Ok(texts)
    }
}


/// Names joined by the separator ` > `, outermost first.
pub open spec fn joined(names: Seq<Seq<u8>>) -> Seq<u8>
    decreases names.len(),
{
    if names.len() == 0 {
        seq![]
    } else if names.len() == 1 {
        names[0]
    } else {
        joined(names.drop_last()) + crumb_separator() + names.last()
    }
}

/// The names of the open scopes, outermost first.
pub open spec fn scope_names(scopes: Seq<(usize, Seq<u8>)>) -> Seq<Seq<u8>> {
    scopes.map_values(|p: (usize, Seq<u8>)| p.1)
}

/// The breadcrumb of a node is the chain of the names of the scopes around it,
/// outermost first, then its own name, joined by ` > `.
pub proof fn lemma_breadcrumb_is_scope_chain(scopes: Seq<(usize, Seq<u8>)>, name: Seq<u8>)
    ensures
        breadcrumb(scopes, name) == joined(scope_names(scopes).push(name)),
    decreases scopes.len(),
{
    if scopes.len() == 0 {
        assert(scope_names(scopes).push(name) =~= seq![name]);
        assert(breadcrumb(scopes, name) =~= name);
    } else {
        let init = scopes.drop_last();
        lemma_breadcrumb_is_scope_chain(init, scopes.last().1);
        assert(scope_names(scopes).push(name).drop_last() =~= scope_names(scopes));
        assert(scope_names(init).push(scopes.last().1) =~= scope_names(scopes));
        assert(breadcrumb(scopes, name) =~= breadcrumb(init, scopes.last().1) + crumb_separator()
            + name);
    }
}

/// `depth` levels of indentation are `depth` times the indentation width in spaces.
pub proof fn lemma_indentation_is_spaces(l: Language, depth: nat)
    ensures
        indentation(l, depth) == spaces(indent_width(l) * depth),
    decreases depth,
{
    if depth > 0 {
        lemma_indentation_is_spaces(l, (depth - 1) as nat);
        assert(indent_width(l) * (depth - 1) + indent_width(l) == indent_width(l) * depth)
            by (nonlinear_arith);
        assert(indentation(l, depth) =~= spaces(indent_width(l) * depth));
    }
}

/// A marker line at nesting depth `d` starts with exactly `d` times the indentation
/// width in spaces (four, two for Ruby), followed by the comment marker.
pub proof fn lemma_marker_indentation(l: Language, scopes: Seq<(usize, Seq<u8>)>, name: Seq<u8>)
    ensures
        ({
            let note = annotation(l, scopes, name);
            let w = indent_width(l) * scopes.len();
            &&& note.len() > w
            &&& note.subrange(0, w as int) == spaces(w)
            &&& note[w as int] != 32u8
        }),
{
    let d = scopes.len();
    lemma_indentation_is_spaces(l, d);
    let w = indent_width(l) * d;
    let tok = ascii_bytes(token_text(token_of(l)));
    reveal_strlit("/// [TODO]");
    reveal_strlit("// [TODO]");
    reveal_strlit("# [TODO]");
    assert(tok.len() > 0 && tok[0] != 32u8);
    let note = annotation(l, scopes, name);
    assert(note.subrange(0, w as int) =~= spaces(w));
    assert(note[w as int] == tok[0]);
}

/// When the rewrite meets a declaration, it writes the declaration's marker line (left
/// out only where it repeats the last marker line seen), then the attribute lines that
/// wait for it in their order, then the declaration's own line; nothing waits after.
pub proof fn lemma_attributes_follow_marker(
    l: Language,
    lines: Seq<Seq<u8>>,
    nodes: Seq<ScannedNode>,
    i: int,
)
    requires
        0 <= i < lines.len(),
        run(l, lines, nodes, i).next < nodes.len(),
        point_within(line_end(i, lines[i]), nodes[run(l, lines, nodes, i).next].range),
        !passes_through(l, nodes[run(l, lines, nodes, i).next]),
        nodes[run(l, lines, nodes, i).next].kind@ != decorator_kind(l),
    ensures
        ({
            let st = run(l, lines, nodes, i);
            let after = run(l, lines, nodes, i + 1);
            let note = annotation(l, st.scopes, node_name(lines, nodes[st.next]));
            &&& after.pending == Seq::<Seq<u8>>::empty()
            &&& repeats_latest(st.latest, note) ==> after.out == st.out + st.pending + seq![lines[i]]
            &&& !repeats_latest(st.latest, note) ==> after.out == st.out + seq![note] + st.pending
                + seq![lines[i]]
        }),
{
    let st = run(l, lines, nodes, i);
    let note = annotation(l, st.scopes, node_name(lines, nodes[st.next]));
    assert(run(l, lines, nodes, i + 1) == step(l, lines, nodes, st, i));
    assert(st.out.push(note) =~= st.out + seq![note]);
}

/// Node `k` of the plan opens the scope `scope`: a scope-opening kind, ending at the
/// scope's row and named by its name.
pub open spec fn opens_scope(l: Language, lines: Seq<Seq<u8>>, node: ScannedNode, scope: (usize, Seq<u8>)) -> bool {
    &&& nested_kinds(l).contains(node.kind@)
    &&& scope == (node.range.end_point.row, node_name(lines, node))
}

/// Each open scope, and so each name of a breadcrumb but the last, belongs to a
/// scope-opening node of the plan that the rewrite has already met, outermost first.
pub proof fn lemma_scopes_are_met_nodes(l: Language, lines: Seq<Seq<u8>>, nodes: Seq<ScannedNode>, n: int)
    requires
        0 <= n <= lines.len(),
    ensures
        0 <= run(l, lines, nodes, n).next,
        forall|s: int|
            0 <= s < run(l, lines, nodes, n).scopes.len() ==> exists|k: int|
                0 <= k < run(l, lines, nodes, n).next && k < nodes.len() && opens_scope(
                    l,
                    lines,
                    nodes[k],
                    #[trigger] run(l, lines, nodes, n).scopes[s],
                ),
    decreases n,
{
    if n > 0 {
        let i = n - 1;
        lemma_scopes_are_met_nodes(l, lines, nodes, i);
        let st = run(l, lines, nodes, i);
        let after = run(l, lines, nodes, n);
        assert(after == step(l, lines, nodes, st, i));
        assert(after.next >= st.next);
        let closed = close_scope(st.scopes, i);
        assert(closed.len() <= st.scopes.len());
        assert forall|s: int| 0 <= s < closed.len() implies closed[s] == st.scopes[s] by {}
        assert(after.scopes == st.scopes || after.scopes == closed || (st.next < nodes.len()
            && after.next == st.next + 1 && after.scopes == closed.push(
            (nodes[st.next].range.end_point.row, node_name(lines, nodes[st.next])),
        ) && nested_kinds(l).contains(nodes[st.next].kind@)));
        assert forall|s: int| 0 <= s < after.scopes.len() implies exists|k: int|
            0 <= k < after.next && k < nodes.len() && opens_scope(l, lines, nodes[k], #[trigger] after.scopes[s]) by {
            let pushed = !(after.scopes == st.scopes || after.scopes == closed);
            if !pushed || s < closed.len() {
                assert(after.scopes[s] == st.scopes[s]);
                let k = choose|k: int|
                    0 <= k < st.next && k < nodes.len() && opens_scope(l, lines, nodes[k], #[trigger] st.scopes[s]);
                assert(0 <= k < after.next && k < nodes.len() && opens_scope(l, lines, nodes[k], after.scopes[s]));
            } else {
                let k = st.next;
                assert(st.next < nodes.len() && after.next == st.next + 1);
                let entry = (nodes[k].range.end_point.row, node_name(lines, nodes[k]));
                assert(after.scopes == closed.push(entry));
                assert(s == closed.len());
                assert(after.scopes[s] == entry);
                assert(nested_kinds(l).contains(nodes[k].kind@));
                assert(0 <= k < after.next && k < nodes.len() && opens_scope(l, lines, nodes[k], after.scopes[s]));
            }
        }
    }
}

/// An attribute line that the rewrite meets waits, after the ones already waiting,
/// and nothing is written for it yet.
pub proof fn lemma_attribute_waits(l: Language, lines: Seq<Seq<u8>>, nodes: Seq<ScannedNode>, i: int)
    requires
        0 <= i < lines.len(),
        run(l, lines, nodes, i).next < nodes.len(),
        point_within(line_end(i, lines[i]), nodes[run(l, lines, nodes, i).next].range),
        !passes_through(l, nodes[run(l, lines, nodes, i).next]),
        nodes[run(l, lines, nodes, i).next].kind@ == decorator_kind(l),
    ensures
        run(l, lines, nodes, i + 1).pending == run(l, lines, nodes, i).pending.push(lines[i]),
        run(l, lines, nodes, i + 1).out == run(l, lines, nodes, i).out,
{
    assert(run(l, lines, nodes, i + 1) == step(l, lines, nodes, run(l, lines, nodes, i), i));
}

/// The rewrite never changes or drops what it has written, and keeps each source
/// line: it is written last, or waits last, or it is skipped as a repeat of the marker
/// line right above it. Waiting lines stay waiting, or are all written, in their order,
/// just before the current line.
pub proof fn lemma_source_lines_kept(l: Language, lines: Seq<Seq<u8>>, nodes: Seq<ScannedNode>, i: int)
    requires
        0 <= i < lines.len(),
    ensures
        ({
            let st = run(l, lines, nodes, i);
            let after = run(l, lines, nodes, i + 1);
            &&& st.out.len() <= after.out.len()
            &&& after.out.subrange(0, st.out.len() as int) == st.out
            &&& {
                ||| (after.out.len() > 0 && after.out.last() == lines[i])
                ||| (after.out == st.out && after.pending == st.pending.push(lines[i]))
                ||| (after.out == st.out && st.latest == Some((lines[i], i - 1)))
            }
            &&& {
                ||| after.pending.subrange(0, st.pending.len() as int) == st.pending
                    && st.pending.len() <= after.pending.len()
                ||| after.out.subrange(
                    after.out.len() - st.pending.len() - 1,
                    after.out.len() - 1,
                ) == st.pending && after.out.len() >= st.pending.len() + 1
            }
        }),
{
    let st = run(l, lines, nodes, i);
    let after = run(l, lines, nodes, i + 1);
    assert(after == step(l, lines, nodes, st, i));
    let line = lines[i];
    assert(st.out.push(line).subrange(0, st.out.len() as int) =~= st.out);
    assert((st.out + st.pending + seq![line]).subrange(0, st.out.len() as int) =~= st.out);
    assert((st.out + st.pending + seq![line]).subrange(
        st.out.len() as int,
        (st.out.len() + st.pending.len()) as int,
    ) =~= st.pending);
    if st.next < nodes.len() {
        let node = nodes[st.next];
        let note = annotation(l, st.scopes, node_name(lines, node));
        assert((st.out.push(note) + st.pending + seq![line]).subrange(0, st.out.len() as int)
            =~= st.out);
        assert((st.out.push(note) + st.pending + seq![line]).subrange(
            (st.out.len() + 1) as int,
            (st.out.len() + 1 + st.pending.len()) as int,
        ) =~= st.pending);
        assert(st.pending.push(line).subrange(0, st.pending.len() as int) =~= st.pending);
    }
    assert(st.pending.subrange(0, st.pending.len() as int) =~= st.pending);
}


/// Line `i` is left out as a repeat of the marker line written right above it.
pub open spec fn skipped(l: Language, lines: Seq<Seq<u8>>, nodes: Seq<ScannedNode>, i: int) -> bool {
    let st = run(l, lines, nodes, i);
    &&& st.next < nodes.len()
    &&& !point_within(line_end(i, lines[i]), nodes[st.next].range)
    &&& st.latest == Some((lines[i], i - 1))
}

/// The first `n` source lines but the skipped ones, in order.
pub open spec fn kept_lines(l: Language, lines: Seq<Seq<u8>>, nodes: Seq<ScannedNode>, n: int) -> Seq<Seq<u8>>
    decreases n,
{
    if n <= 0 {
        seq![]
    } else if skipped(l, lines, nodes, n - 1) {
        kept_lines(l, lines, nodes, n - 1)
    } else {
        kept_lines(l, lines, nodes, n - 1).push(lines[n - 1])
    }
}

/// `f` places each line of `a` in `b`, in order: `a` is a subsequence of `b`.
pub open spec fn embeds(a: Seq<Seq<u8>>, b: Seq<Seq<u8>>, f: Seq<int>) -> bool {
    &&& f.len() == a.len()
    &&& forall|k: int| 0 <= k < f.len() ==> 0 <= #[trigger] f[k] < b.len() && b[f[k]] == a[k]
    &&& forall|k: int, m: int| 0 <= k < m < f.len() ==> f[k] < f[m]
}

/// Every attribute line is followed right away by the lines of the node it belongs to:
/// while attribute lines wait, each line lies inside the node being met.
pub open spec fn attributes_adjacent(l: Language, lines: Seq<Seq<u8>>, nodes: Seq<ScannedNode>) -> bool {
    forall|i: int|
        0 <= i < lines.len() && #[trigger] run(l, lines, nodes, i).pending.len() > 0 ==> {
            let st = run(l, lines, nodes, i);
            st.next < nodes.len() && point_within(line_end(i, lines[i]), nodes[st.next].range)
        }
}

/// `x` is a marker line of language `l`.
pub open spec fn is_marker_line(l: Language, x: Seq<u8>) -> bool {
    exists|scopes: Seq<(usize, Seq<u8>)>, name: Seq<u8>| x == #[trigger] annotation(l, scopes, name)
}

/// Every line of `b` that `f` does not place a line on is a marker line.
pub open spec fn others_are_markers(l: Language, b: Seq<Seq<u8>>, f: Seq<int>) -> bool {
    forall|j: int| 0 <= j < b.len() && !f.contains(j) ==> is_marker_line(l, #[trigger] b[j])
}

proof fn lemma_kept_in_order_upto(l: Language, lines: Seq<Seq<u8>>, nodes: Seq<ScannedNode>, n: int) -> (f: Seq<int>)
    requires
        0 <= n <= lines.len(),
        attributes_adjacent(l, lines, nodes),
    ensures
        embeds(
            kept_lines(l, lines, nodes, n),
            run(l, lines, nodes, n).out + run(l, lines, nodes, n).pending,
            f,
        ),
        others_are_markers(l, run(l, lines, nodes, n).out + run(l, lines, nodes, n).pending, f),
    decreases n,
{
    if n == 0 {
        assert(run(l, lines, nodes, 0).out + run(l, lines, nodes, 0).pending =~= seq![]);
        seq![]
    } else {
        let i = n - 1;
        let g = lemma_kept_in_order_upto(l, lines, nodes, i);
        let st = run(l, lines, nodes, i);
        let after = run(l, lines, nodes, n);
        assert(after == step(l, lines, nodes, st, i));
        let b = st.out + st.pending;
        let b2 = after.out + after.pending;
        let a = kept_lines(l, lines, nodes, i);
        let line = lines[i];
        if skipped(l, lines, nodes, i) {
            assert(b2 =~= b);
            assert(kept_lines(l, lines, nodes, n) == a);
            g
        } else {
            let member = st.next < nodes.len() && point_within(line_end(i, line), nodes[st.next].range);
            if member && !passes_through(l, nodes[st.next]) && nodes[st.next].kind@ != decorator_kind(l)
                && !repeats_latest(st.latest, annotation(l, st.scopes, node_name(lines, nodes[st.next]))) {
                let note = annotation(l, st.scopes, node_name(lines, nodes[st.next]));
                let o = st.out.len() as int;
                assert(b2 =~= st.out + seq![note] + st.pending + seq![line]);
                let f = g.map_values(|j: int| if j < o { j } else { j + 1 }).push(b2.len() - 1);
                assert forall|k: int| 0 <= k < f.len() implies 0 <= #[trigger] f[k] < b2.len() && b2[f[k]]
                    == kept_lines(l, lines, nodes, n)[k] by {
                    if k < g.len() {
                        if g[k] < o {
                            assert(b2[g[k]] == b[g[k]]);
                        } else {
                            assert(b2[g[k] + 1] == b[g[k]]);
                        }
                    }
                }
                assert forall|k: int, m: int| 0 <= k < m < f.len() implies f[k] < f[m] by {
                    if m < g.len() {
                        assert(g[k] < g[m]);
                    }
                }
                assert forall|j: int| 0 <= j < b2.len() && !f.contains(j) implies is_marker_line(
                    l,
                    #[trigger] b2[j],
                ) by {
                    if j == o {
                        assert(b2[j] == annotation(l, st.scopes, node_name(lines, nodes[st.next])));
                    } else if j < o {
                        assert(b2[j] == b[j]);
                        if g.contains(j) {
                            let k = choose|k: int| 0 <= k < g.len() && g[k] == j;
                            assert(f[k] == j);
                        }
                    } else {
                        assert(j < b2.len() - 1) by {
                            assert(f[f.len() - 1] == b2.len() - 1);
                        }
                        assert(b2[j] == b[j - 1]);
                        if g.contains(j - 1) {
                            let k = choose|k: int| 0 <= k < g.len() && g[k] == j - 1;
                            assert(f[k] == j);
                        }
                    }
                }
                f
            } else {
                if !member {
                    assert(st.pending.len() == 0);
                }
                assert(b2 =~= b.push(line));
                let f = g.push(b.len() as int);
                assert forall|k: int| 0 <= k < f.len() implies 0 <= #[trigger] f[k] < b2.len() && b2[f[k]]
                    == kept_lines(l, lines, nodes, n)[k] by {
                    if k < g.len() {
                        assert(b2[g[k]] == b[g[k]]);
                    }
                }
                assert forall|j: int| 0 <= j < b2.len() && !f.contains(j) implies is_marker_line(
                    l,
                    #[trigger] b2[j],
                ) by {
                    if j == b.len() {
                        assert(f[f.len() - 1] == j);
                    } else {
                        assert(b2[j] == b[j]);
                        if g.contains(j) {
                            let k = choose|k: int| 0 <= k < g.len() && g[k] == j;
                            assert(f[k] == j);
                        }
                    }
                }
                f
            }
        }
    }
}

/// Rewriting keeps every source line but the repeats of a marker line right above
/// them, in their order, and every other line it writes is a marker line, where each
/// attribute line is followed right away by its declaration.
pub proof fn lemma_source_lines_in_order(l: Language, lines: Seq<Seq<u8>>, nodes: Seq<ScannedNode>)
    requires
        attributes_adjacent(l, lines, nodes),
    ensures
        exists|f: Seq<int>|
            embeds(kept_lines(l, lines, nodes, lines.len() as int), rewritten(l, lines, nodes), f)
                && others_are_markers(l, rewritten(l, lines, nodes), f),
{
    let f = lemma_kept_in_order_upto(l, lines, nodes, lines.len() as int);
    assert(embeds(kept_lines(l, lines, nodes, lines.len() as int), rewritten(l, lines, nodes), f)
        && others_are_markers(l, rewritten(l, lines, nodes), f));
}

proof fn lemma_kept_written_upto(l: Language, lines: Seq<Seq<u8>>, nodes: Seq<ScannedNode>, n: int)
    requires
        0 <= n <= lines.len(),
    ensures
        forall|k: int|
            0 <= k < kept_lines(l, lines, nodes, n).len() ==> (run(l, lines, nodes, n).out + run(
                l,
                lines,
                nodes,
                n,
            ).pending).contains(#[trigger] kept_lines(l, lines, nodes, n)[k]),
    decreases n,
{
    if n > 0 {
        let i = n - 1;
        lemma_kept_written_upto(l, lines, nodes, i);
        let st = run(l, lines, nodes, i);
        let after = run(l, lines, nodes, n);
        assert(after == step(l, lines, nodes, st, i));
        let b = st.out + st.pending;
        let b2 = after.out + after.pending;
        let a = kept_lines(l, lines, nodes, i);
        let line = lines[i];
        let o = st.out.len() as int;
        let shifted = st.out.push(line) + st.pending;
        let kept_place = b.push(line);
        let member = st.next < nodes.len() && point_within(line_end(i, line), nodes[st.next].range);
        if st.next < nodes.len() && member && !passes_through(l, nodes[st.next]) && nodes[st.next].kind@
            != decorator_kind(l) && !repeats_latest(
            st.latest,
            annotation(l, st.scopes, node_name(lines, nodes[st.next])),
        ) {
            let note = annotation(l, st.scopes, node_name(lines, nodes[st.next]));
            assert(b2 =~= st.out.push(note) + st.pending + seq![line]);
        } else if st.next < nodes.len() && member {
            assert(b2 =~= kept_place);
        } else if skipped(l, lines, nodes, i) {
            assert(b2 =~= b);
        } else {
            assert(b2 =~= shifted);
        }
        assert forall|x: Seq<u8>| b.contains(x) implies #[trigger] b2.contains(x) by {
            let j = choose|j: int| 0 <= j < b.len() && b[j] == x;
            if j < o {
                assert(b2[j] == b[j]);
            } else if b2.len() == b.len() + 2 || b2 == shifted {
                assert(b2[j + 1] == b[j]);
            } else {
                assert(b2[j] == b[j]);
            }
        }
        assert forall|k: int| 0 <= k < kept_lines(l, lines, nodes, n).len() implies b2.contains(
            #[trigger] kept_lines(l, lines, nodes, n)[k],
        ) by {
            if k < a.len() {
                assert(kept_lines(l, lines, nodes, n)[k] == a[k]);
                assert(b.contains(a[k]));
            } else {
                assert(kept_lines(l, lines, nodes, n)[k] == lines[i]);
                if after.out.len() > 0 && after.out.last() == lines[i] {
                    assert(b2[after.out.len() - 1] == lines[i]);
                } else {
                    assert(after.pending.last() == lines[i]);
                    assert(b2[b2.len() - 1] == lines[i]);
                }
            }
        }
    }
}

/// Rewriting writes every source line but the repeats of a marker line right above
/// them, whatever the input.
pub proof fn lemma_source_lines_written(l: Language, lines: Seq<Seq<u8>>, nodes: Seq<ScannedNode>)
    ensures
        forall|k: int|
            0 <= k < kept_lines(l, lines, nodes, lines.len() as int).len() ==> rewritten(
                l,
                lines,
                nodes,
            ).contains(#[trigger] kept_lines(l, lines, nodes, lines.len() as int)[k]),
{
    lemma_kept_written_upto(l, lines, nodes, lines.len() as int);
}

} // verus!
