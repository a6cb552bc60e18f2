//! The scan planner: picks, breadth first, the nodes that the rewrite meets, and
//! puts them in source order.
use vstd::prelude::*;
use crate::analyzer::ScannedNode;
use crate::language::{
    Language, kind_texts, nested_kinds, scannable_kinds, top_level_kind,
};
use crate::text::{contains_kind, same_text};
use crate::tree_sitter_extended::{
    AnalyzeError, ResolveSymbol, SyntaxTree, field_from, field_of, identifier_spec,
};

verus! {

pub open spec fn is_scannable(l: Language, t: SyntaxTree, id: usize) -> bool {
    scannable_kinds(l).contains(t.spec_kind(id as int))
}

/// The scannable ones among `ids`.
pub open spec fn scannable_among(l: Language, t: SyntaxTree, ids: Seq<usize>) -> Seq<usize> {
    ids.filter(|c: usize| is_scannable(l, t, c))
}

/// A node whose children are walked: the root kind, or a kind that opens a scope.
pub open spec fn is_traversed(l: Language, t: SyntaxTree, id: usize) -> bool {
    nested_kinds(l).contains(t.spec_kind(id as int)) || t.spec_kind(id as int) == top_level_kind(l)
}

/// The nodes that the walk queues below node `id`: its scannable children, then the
/// scannable children of its body. In Ruby the root gives only its children and the
/// other nodes only their body's children.
pub open spec fn expand(l: Language, t: SyntaxTree, id: usize) -> Seq<usize> {
    if !is_traversed(l, t, id) {
        seq![]
    } else {
        let is_top = t.spec_kind(id as int) == top_level_kind(l);
        let direct = if l is Ruby && !is_top {
            seq![]
        } else {
            scannable_among(l, t, t.nodes@[id as int].children@)
        };
        let body = if l is Ruby && is_top {
            seq![]
        } else {
            match field_of(t, id as int, "body"@) {
                Some(b) => scannable_among(l, t, t.nodes@[b as int].children@),
                None => seq![],
            }
        };
        direct + body
    }
}

/// The next level of the walk, in queue order.
pub open spec fn expand_all(l: Language, t: SyntaxTree, frontier: Seq<usize>) -> Seq<usize>
    decreases frontier.len(),
{
    if frontier.len() == 0 {
        seq![]
    } else {
        expand_all(l, t, frontier.drop_last()) + expand(l, t, frontier.last())
    }
}

/// The nodes picked by a breadth-first walk from `frontier`, level by level, for at
/// most `fuel` levels.
pub open spec fn walk(l: Language, t: SyntaxTree, frontier: Seq<usize>, fuel: nat) -> Seq<usize>
    decreases fuel,
{
    if fuel == 0 || frontier.len() == 0 {
        seq![]
    } else {
        scannable_among(l, t, frontier) + walk(l, t, expand_all(l, t, frontier), (fuel - 1) as nat)
    }
}

/// The nodes picked from the whole tree, in the order of the walk. Ids grow along
/// every edge, so the walk ends within as many levels as there are nodes.
pub open spec fn picked(l: Language, t: SyntaxTree) -> Seq<usize> {
    walk(l, t, seq![0usize], (t.nodes@.len() + 1) as nat)
}

/// The planned entry of node `id`.
pub open spec fn planned(t: SyntaxTree, id: usize) -> ScannedNode {
    ScannedNode {
        id,
        kind: t.nodes@[id as int].kind,
        range: t.nodes@[id as int].range,
        identifier: identifier_spec(t, id as int)->Ok_0,
    }
}

pub open spec fn start_row(n: ScannedNode) -> usize {
    n.range.start_point.row
}

/// Where `row` goes in `s`: after every entry that does not start below it.
pub open spec fn insert_pos(s: Seq<ScannedNode>, row: usize) -> int
    decreases s.len(),
{
    if s.len() == 0 || start_row(s.last()) <= row {
        s.len() as int
    } else {
        insert_pos(s.drop_last(), row)
    }
}

/// `s` sorted by start row, entries with equal rows in their order in `s`.
pub open spec fn sort_by_row(s: Seq<ScannedNode>) -> Seq<ScannedNode>
    decreases s.len(),
{
    if s.len() == 0 {
        seq![]
    } else {
        let rest = sort_by_row(s.drop_last());
        rest.insert(insert_pos(rest, start_row(s.last())), s.last())
    }
}

pub open spec fn sorted_by_row(s: Seq<ScannedNode>) -> bool {
    forall|a: int, b: int| 0 <= a < b < s.len() ==> start_row(s[a]) <= start_row(s[b])
}


proof fn lemma_insert_pos(s: Seq<ScannedNode>, row: usize)
    requires
        sorted_by_row(s),
    ensures
        0 <= insert_pos(s, row) <= s.len(),
        forall|i: int| 0 <= i < insert_pos(s, row) ==> start_row(#[trigger] s[i]) <= row,
        forall|i: int| insert_pos(s, row) <= i < s.len() ==> start_row(#[trigger] s[i]) > row,
    decreases s.len(),
{
    if s.len() > 0 && start_row(s.last()) > row {
        let init = s.drop_last();
        assert(sorted_by_row(init));
        lemma_insert_pos(init, row);
        assert forall|i: int| insert_pos(s, row) <= i < s.len() implies start_row(#[trigger] s[i]) > row by {
            if i < s.len() - 1 {
                assert(s[i] == init[i]);
            }
        }
        assert forall|i: int| 0 <= i < insert_pos(s, row) implies start_row(#[trigger] s[i]) <= row by {
            assert(s[i] == init[i]);
        }
    }
}

/// Sorting by row gives entries in ascending order of their start rows.
pub proof fn lemma_sort_by_row_sorted(s: Seq<ScannedNode>)
    ensures
        sorted_by_row(sort_by_row(s)),
        sort_by_row(s).len() == s.len(),
    decreases s.len(),
{
    if s.len() > 0 {
        let rest = sort_by_row(s.drop_last());
        lemma_sort_by_row_sorted(s.drop_last());
        let x = s.last();
        let p = insert_pos(rest, start_row(x));
        lemma_insert_pos(rest, start_row(x));
        let r = rest.insert(p, x);
        assert forall|a: int, b: int| 0 <= a < b < r.len() implies start_row(r[a]) <= start_row(r[b]) by {
            if b < p {
                assert(r[a] == rest[a] && r[b] == rest[b]);
            } else if b == p {
                assert(r[a] == rest[a]);
            } else if a < p {
                assert(r[a] == rest[a] && r[b] == rest[b - 1]);
            } else if a == p {
                assert(r[b] == rest[b - 1]);
            } else {
                assert(r[a] == rest[a - 1] && r[b] == rest[b - 1]);
            }
        }
    }
}

/// Appends to `out` the scannable children of node `id`.
fn push_scannable_children(
    tree: &SyntaxTree,
    id: usize,
    scannable: &Vec<&str>,
    out: &mut Vec<usize>,
    language: &Language,
)
    requires
        tree.wf(),
        id < tree.nodes@.len(),
        kind_texts(scannable@) == scannable_kinds(*language),
    ensures
        final(out)@ == old(out)@ + scannable_among(*language, *tree, tree.nodes@[id as int].children@),
{
    let children = &tree.nodes[id].children;
    let ghost cs = children@;
    let mut k: usize = 0;
    while k < children.len()
        invariant
            tree.wf(),
            id < tree.nodes@.len(),
            cs == tree.nodes@[id as int].children@,
            *children == tree.nodes@[id as int].children,
            kind_texts(scannable@) == scannable_kinds(*language),
            k <= cs.len(),
            out@ == old(out)@ + scannable_among(*language, *tree, cs.subrange(0, k as int)),
        decreases cs.len() - k,
    {
        let c = children[k];
        assert(tree.nodes@[id as int].children@[k as int] == c);
        proof {
            reveal(Seq::filter);
            assert(cs.subrange(0, k + 1).drop_last() =~= cs.subrange(0, k as int));
        }
        if contains_kind(scannable, tree.nodes[c].kind.as_str()) {
            out.push(c);
        }
        k += 1;
        proof {
            reveal(Seq::filter);
        }
    }
    assert(cs.subrange(0, cs.len() as int) =~= cs);
}

/// Appends to `out` the nodes that the walk queues below node `id`.
fn push_expansion(
    tree: &SyntaxTree,
    id: usize,
    language: &Language,
    scannable: &Vec<&str>,
    nested: &Vec<&str>,
    top: &str,
    out: &mut Vec<usize>,
)
    requires
        tree.wf(),
        id < tree.nodes@.len(),
        kind_texts(scannable@) == scannable_kinds(*language),
        kind_texts(nested@) == nested_kinds(*language),
        top@ == top_level_kind(*language),
    ensures
        final(out)@ == old(out)@ + expand(*language, *tree, id),
{
    let kind = tree.nodes[id].kind.as_str();
    let is_top = same_text(kind, top);
    if !contains_kind(nested, kind) && !is_top {
        assert(old(out)@ + expand(*language, *tree, id) =~= old(out)@);
        return;
    }
    let is_ruby = matches!(language, Language::Ruby);
    let ghost start = out@;
    if !(is_ruby && !is_top) {
        push_scannable_children(tree, id, scannable, out, language);
    }
    let ghost mid = out@;
    if !(is_ruby && is_top) {
        if let Some(body) = tree.child_by_field_name(id, "body") {
            push_scannable_children(tree, body, scannable, out, language);
        }
    }
    assert(out@ =~= start + expand(*language, *tree, id));
}

/// Where an entry starting at `row` goes in the row-sorted `s`.
fn find_insert_pos(s: &Vec<ScannedNode>, row: usize) -> (r: usize)
    ensures
        r as int == insert_pos(s@, row),
        r <= s@.len(),
{
    let mut j: usize = s.len();
    assert(s@.subrange(0, s@.len() as int) =~= s@);
    while j > 0 && s[j - 1].range.start_point.row > row
        invariant
            j <= s@.len(),
            insert_pos(s@, row) == insert_pos(s@.subrange(0, j as int), row),
        decreases j,
    {
        assert(s@.subrange(0, j as int).drop_last() =~= s@.subrange(0, j - 1));
        j -= 1;
    }
    assert(s@.subrange(0, 0) =~= Seq::<ScannedNode>::empty());
    j
}

/// Sorts `items` by start row; entries on the same row keep their order.
pub fn sort_nodes_by_row(items: Vec<ScannedNode>) -> (r: Vec<ScannedNode>)
    ensures
        r@ == sort_by_row(items@),
{
    let mut items = items;
    let ghost all = items@;
    let total = items.len();
    assert(all.len() == total);
    let mut rev: Vec<ScannedNode> = Vec::new();
    while items.len() > 0
        invariant
            items@.len() + rev@.len() == all.len(),
            all.len() <= usize::MAX,
            items@ == all.subrange(0, items@.len() as int),
            forall|k: int| 0 <= k < rev@.len() ==> rev@[k] == all[all.len() - 1 - k],
        decreases items@.len(),
    {
        let x = items.pop().unwrap();
        rev.push(x);
    }
    let mut sorted: Vec<ScannedNode> = Vec::new();
    let mut k: usize = 0;
    while rev.len() > 0
        invariant
            k + rev@.len() == all.len(),
            all.len() <= usize::MAX,
            forall|m: int| 0 <= m < rev@.len() ==> rev@[m] == all[all.len() - 1 - m],
            sorted@ == sort_by_row(all.subrange(0, k as int)),
        decreases rev@.len(),
    {
        let x = rev.pop().unwrap();
        assert(x == all[k as int]);
        let pos = find_insert_pos(&sorted, x.range.start_point.row);
        proof {
            assert(all.subrange(0, k + 1).drop_last() =~= all.subrange(0, k as int));
        }
        sorted.insert(pos, x);
        k += 1;
    }
    assert(all.subrange(0, all.len() as int) =~= all);
    sorted
}


proof fn lemma_field_from_bounds(t: SyntaxTree, id: int, name: Seq<char>, k: int)
    requires
        t.wf(),
        0 <= id < t.nodes@.len(),
        0 <= k,
    ensures
        field_from(t.nodes@[id].fields@, name, k) matches Some(c) ==> id < c < t.nodes@.len(),
    decreases t.nodes@[id].fields@.len() - k,
{
    let fs = t.nodes@[id].fields@;
    if k < fs.len() {
        assert(id < fs[k].1 < t.nodes@.len());
        lemma_field_from_bounds(t, id, name, k + 1);
    }
}

proof fn lemma_children_bounds(l: Language, t: SyntaxTree, id: int)
    requires
        t.wf(),
        0 <= id < t.nodes@.len(),
    ensures
        forall|x: usize|
            #[trigger] scannable_among(l, t, t.nodes@[id].children@).contains(x) ==> id < x
                < t.nodes@.len(),
{
    let cs = t.nodes@[id].children@;
    assert forall|x: usize| #[trigger]
        scannable_among(l, t, cs).contains(x) implies id < x < t.nodes@.len() by {
        cs.lemma_filter_contains_rev(|c: usize| is_scannable(l, t, c), x);
        let j = choose|j: int| 0 <= j < cs.len() && cs[j] == x;
        assert(id < t.nodes@[id].children@[j]);
    }
}

/// Every node queued below `id` comes after it.
proof fn lemma_expand_bounds(l: Language, t: SyntaxTree, id: usize)
    requires
        t.wf(),
        id < t.nodes@.len(),
    ensures
        forall|k: int|
            0 <= k < expand(l, t, id).len() ==> id < #[trigger] expand(l, t, id)[k] < t.nodes@.len(),
{
    let e = expand(l, t, id);
    lemma_children_bounds(l, t, id as int);
    lemma_field_from_bounds(t, id as int, "body"@, 0);
    if let Some(b) = field_of(t, id as int, "body"@) {
        lemma_children_bounds(l, t, b as int);
    }
    if is_traversed(l, t, id) {
        let is_top = t.spec_kind(id as int) == top_level_kind(l);
        let direct = if l is Ruby && !is_top {
            seq![]
        } else {
            scannable_among(l, t, t.nodes@[id as int].children@)
        };
        let body = if l is Ruby && is_top {
            seq![]
        } else {
            match field_of(t, id as int, "body"@) {
                Some(b) => scannable_among(l, t, t.nodes@[b as int].children@),
                None => seq![],
            }
        };
        assert(e == direct + body);
        assert forall|k: int| 0 <= k < e.len() implies id < #[trigger] e[k] < t.nodes@.len() by {
            if k < direct.len() {
                assert(direct.contains(direct[k]));
            } else {
                assert(body.contains(body[k - direct.len()]));
            }
        }
    }
}

/// All the nodes picked by the walk have a name where one is needed.
pub open spec fn all_named(l: Language, t: SyntaxTree) -> bool {
    forall|k: int|
        0 <= k < picked(l, t).len() ==> identifier_spec(t, #[trigger] picked(l, t)[k] as int) is Ok
}

/// The node ids of planned entries.
pub open spec fn node_ids(s: Seq<ScannedNode>) -> Seq<usize> {
    s.map_values(|x: ScannedNode| x.id)
}

/// No node is planned twice.
pub open spec fn ids_distinct(s: Seq<ScannedNode>) -> bool {
    forall|i: int, j: int| 0 <= i < j < s.len() ==> #[trigger] s[i].id != #[trigger] s[j].id
}

/// The entries of `s` without those whose node came earlier, in their order.
pub open spec fn first_of_each(s: Seq<ScannedNode>) -> Seq<ScannedNode>
    decreases s.len(),
{
    if s.len() == 0 {
        seq![]
    } else {
        let d = first_of_each(s.drop_last());
        if node_ids(d).contains(s.last().id) {
            d
        } else {
            d.push(s.last())
        }
    }
}

/// The planned entries of the picked nodes, each node once, in source order.
pub open spec fn plan(l: Language, t: SyntaxTree) -> Seq<ScannedNode> {
    sort_by_row(first_of_each(picked(l, t).map_values(|id: usize| planned(t, id))))
}

proof fn lemma_first_of_each_distinct(s: Seq<ScannedNode>)
    ensures
        ids_distinct(first_of_each(s)),
    decreases s.len(),
{
    if s.len() > 0 {
        let d = first_of_each(s.drop_last());
        lemma_first_of_each_distinct(s.drop_last());
        if !node_ids(d).contains(s.last().id) {
            let r = d.push(s.last());
            assert forall|i: int, j: int| 0 <= i < j < r.len() implies #[trigger] r[i].id != #[trigger] r[j].id by {
                if j == d.len() {
                    assert(node_ids(d)[i] == d[i].id);
                }
            }
        }
    }
}

/// Sorting by row keeps the entries, and keeps them with distinct nodes.
pub proof fn lemma_sort_by_row_keeps(s: Seq<ScannedNode>)
    ensures
        forall|y: ScannedNode| #[trigger] sort_by_row(s).contains(y) ==> s.contains(y),
        ids_distinct(s) ==> ids_distinct(sort_by_row(s)),
    decreases s.len(),
{
    if s.len() > 0 {
        let init = s.drop_last();
        let rest = sort_by_row(init);
        lemma_sort_by_row_keeps(init);
        lemma_sort_by_row_sorted(init);
        let x = s.last();
        lemma_insert_pos(rest, start_row(x));
        let p = insert_pos(rest, start_row(x));
        let r = rest.insert(p, x);
        assert forall|y: ScannedNode| #[trigger] r.contains(y) implies s.contains(y) by {
            let k = choose|k: int| 0 <= k < r.len() && r[k] == y;
            if k == p {
                assert(s[s.len() - 1] == y);
            } else {
                let m = if k < p { k } else { k - 1 };
                assert(rest[m] == y);
                assert(rest.contains(y));
                assert(init.contains(y));
                let q = choose|q: int| 0 <= q < init.len() && init[q] == y;
                assert(s[q] == y);
            }
        }
        if ids_distinct(s) {
            assert(ids_distinct(init)) by {
                assert forall|i: int, j: int| 0 <= i < j < init.len() implies #[trigger] init[i].id
                    != #[trigger] init[j].id by {
                    assert(init[i] == s[i] && init[j] == s[j]);
                }
            }
            assert forall|k: int| 0 <= k < rest.len() implies #[trigger] rest[k].id != x.id by {
                assert(rest.contains(rest[k]));
                let q = choose|q: int| 0 <= q < init.len() && init[q] == rest[k];
                assert(s[q] == rest[k]);
            }
            assert forall|i: int, j: int| 0 <= i < j < r.len() implies #[trigger] r[i].id != #[trigger] r[j].id by {
                if i == p {
                    assert(r[j] == rest[j - 1]);
                } else if j == p {
                    assert(r[i] == rest[i]);
                } else {
                    let a = if i < p { i } else { i - 1 };
                    let b = if j < p { j } else { j - 1 };
                    assert(r[i] == rest[a] && r[j] == rest[b]);
                }
            }
        }
    }
}

/// Whether a node with id `id` is among `s`.
fn has_node(s: &Vec<ScannedNode>, id: usize) -> (r: bool)
    ensures
        r == node_ids(s@).contains(id),
{
    let mut k: usize = 0;
    while k < s.len()
        invariant
            k <= s@.len(),
            forall|m: int| 0 <= m < k ==> s@[m].id != id,
        decreases s@.len() - k,
    {
        if s[k].id == id {
            assert(node_ids(s@)[k as int] == id);
            return true;
        }
        k += 1;
    }
    assert forall|m: int| 0 <= m < node_ids(s@).len() implies #[trigger] node_ids(s@)[m] != id by {
        assert(node_ids(s@)[m] == s@[m].id);
    }
    false
}

/// Keeps the first entry of each node.
fn keep_first_of_each(items: Vec<ScannedNode>) -> (r: Vec<ScannedNode>)
    ensures
        r@ == first_of_each(items@),
{
    let mut items = items;
    let ghost all = items@;
    let total = items.len();
    let mut rev: Vec<ScannedNode> = Vec::new();
    while items.len() > 0
        invariant
            items@.len() + rev@.len() == all.len(),
            all.len() == total,
            items@ == all.subrange(0, items@.len() as int),
            forall|k: int| 0 <= k < rev@.len() ==> rev@[k] == all[all.len() - 1 - k],
        decreases items@.len(),
    {
        let x = items.pop().unwrap();
        rev.push(x);
    }
    let mut out: Vec<ScannedNode> = Vec::new();
    let mut k: usize = 0;
    assert(all.subrange(0, 0) =~= Seq::<ScannedNode>::empty());
    while rev.len() > 0
        invariant
            k + rev@.len() == all.len(),
            all.len() == total,
            forall|m: int| 0 <= m < rev@.len() ==> rev@[m] == all[all.len() - 1 - m],
            out@ == first_of_each(all.subrange(0, k as int)),
        decreases rev@.len(),
    {
        let x = rev.pop().unwrap();
        assert(x == all[k as int]);
        assert(all.subrange(0, k + 1).drop_last() =~= all.subrange(0, k as int));
        if !has_node(&out, x.id) {
            out.push(x);
        }
        k += 1;
    }
    assert(all.subrange(0, all.len() as int) =~= all);
    out
}

/// Walks the tree breadth first from the root and returns the scannable nodes with the
/// place of their names, sorted by start row; fails where a node has no name to read.
pub fn scannable_nodes(language: &Language, tree: &SyntaxTree) -> (r: Result<Vec<ScannedNode>, AnalyzeError>)
    requires
        tree.wf(),
    ensures
        r is Ok <==> all_named(*language, *tree),
        r matches Ok(v) ==> v@ == plan(*language, *tree) && sorted_by_row(v@) && ids_distinct(v@),
        r matches Err(e) ==> e == AnalyzeError::MissingIdentifier,
{
    let ghost l = *language;
    let ghost t = *tree;
    let n = tree.nodes.len();
    let scannable = language.scannable_node_types();
    let nested = language.nested_traversable_symbols();
    let top = language.top_level_node_type();
    let mut result: Vec<ScannedNode> = Vec::new();
    let mut frontier: Vec<usize> = vec![0];
    let mut depth: usize = 0;
    let ghost mut done: Seq<usize> = seq![];
    assert(frontier@ =~= seq![0usize]);
    while frontier.len() > 0
        invariant
            tree.wf(),
            n == tree.nodes@.len(),
            l == *language,
            t == *tree,
            kind_texts(scannable@) == scannable_kinds(l),
            kind_texts(nested@) == nested_kinds(l),
            top@ == top_level_kind(l),
            depth <= n + 1,
            forall|k: int| 0 <= k < frontier@.len() ==> depth <= #[trigger] frontier@[k] < n,
            picked(l, t) == done + walk(l, t, frontier@, (n + 1 - depth) as nat),
            result@ == done.map_values(|id: usize| planned(t, id)),
            forall|k: int| 0 <= k < done.len() ==> identifier_spec(t, #[trigger] done[k] as int) is Ok,
        decreases n + 1 - depth,
    {
        assert(depth <= frontier@[0] < n);
        let ghost f = frontier@;
        let ghost fuel = (n + 1 - depth) as nat;
        let ghost done0 = done;
        let mut next: Vec<usize> = Vec::new();
        let mut idx: usize = 0;
        while idx < frontier.len()
            invariant
                tree.wf(),
                n == tree.nodes@.len(),
                l == *language,
                t == *tree,
                kind_texts(scannable@) == scannable_kinds(l),
                kind_texts(nested@) == nested_kinds(l),
                top@ == top_level_kind(l),
                f == frontier@,
                idx <= f.len(),
                depth < n,
                forall|k: int| 0 <= k < f.len() ==> depth <= #[trigger] f[k] < n,
                forall|k: int| 0 <= k < next@.len() ==> depth < #[trigger] next@[k] < n,
                next@ == expand_all(l, t, f.subrange(0, idx as int)),
                done == done0 + scannable_among(l, t, f.subrange(0, idx as int)),
                picked(l, t) == done0 + walk(l, t, f, fuel),
                fuel > 0,
                result@ == done.map_values(|id: usize| planned(t, id)),
                forall|k: int| 0 <= k < done.len() ==> identifier_spec(t, #[trigger] done[k] as int) is Ok,
            decreases f.len() - idx,
        {
            let id = frontier[idx];
            let ghost before = next@;
            proof {
                reveal(Seq::filter);
                assert(f.subrange(0, idx + 1).drop_last() =~= f.subrange(0, idx as int));
                assert(f.subrange(0, idx + 1).last() == id);
            }
            if contains_kind(&scannable, tree.nodes[id].kind.as_str()) {
                match tree.identifier_range(id) {
                    Ok(identifier) => {
                        let entry = ScannedNode {
                            id,
                            kind: tree.nodes[id].kind.clone(),
                            range: tree.nodes[id].range,
                            identifier,
                        };
                        result.push(entry);
                        proof {
                            done = done.push(id);
                            assert(result@ =~= done.map_values(|id: usize| planned(t, id)));
                        }
                    },
                    Err(e) => {
                        proof {
                            let a = f.subrange(0, idx + 1);
                            let b = f.subrange(idx + 1, f.len() as int);
                            assert(f =~= a + b);
                            Seq::filter_distributes_over_add(a, b, |c: usize| is_scannable(l, t, c));
                            let w = walk(l, t, expand_all(l, t, f), (fuel - 1) as nat);
                            let sa = scannable_among(l, t, a);
                            assert(picked(l, t) == done0 + scannable_among(l, t, f) + w);
                            assert(picked(l, t) =~= done0 + sa + (scannable_among(l, t, b) + w));
                            let pos = done0.len() + sa.len() - 1;
                            assert(sa.last() == id);
                            assert(picked(l, t)[pos] == id);
                        }
                        return Err(e);
                    },
                }
            }
            proof {
                lemma_expand_bounds(l, t, id);
            }
            push_expansion(tree, id, language, &scannable, &nested, top, &mut next);
            idx += 1;
            proof {
                assert(next@ =~= expand_all(l, t, f.subrange(0, idx as int)));
            }
        }
        proof {
            assert(f.subrange(0, f.len() as int) =~= f);
            assert(picked(l, t) =~= done + walk(l, t, next@, (fuel - 1) as nat));
        }
        frontier = next;
        depth += 1;
    }
    proof {
        assert(picked(l, t) =~= done);
        assert(result@ =~= picked(l, t).map_values(|id: usize| planned(t, id)));
    }
    let unique = keep_first_of_each(result);
    proof {
        lemma_first_of_each_distinct(picked(l, t).map_values(|id: usize| planned(t, id)));
        lemma_sort_by_row_sorted(unique@);
        lemma_sort_by_row_keeps(unique@);
    }
    Ok(sort_nodes_by_row(unique))
}

} // verus!
