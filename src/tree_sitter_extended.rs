//! Positions and ranges in source text, and where a cursor stands against a range.
use vstd::prelude::*;
use crate::text::{contains_kind, same_text};

verus! {

/// A position in source text: a zero-based row and a byte column within that row.
#[derive(Clone, Copy, Debug, PartialEq, Eq, Structural)]
pub struct Point {
    pub row: usize,
    pub column: usize,
}

/// A source range with inclusive start and end points.
#[derive(Clone, Copy, Debug, PartialEq, Eq, Structural)]
pub struct Range {
    pub start_byte: usize,
    pub end_byte: usize,
    pub start_point: Point,
    pub end_point: Point,
}

/// The cursor comes strictly before the start of the range.
pub open spec fn point_before(p: Point, r: Range) -> bool {
    p.row < r.start_point.row || (p.row == r.start_point.row && p.column < r.start_point.column)
}

/// The cursor comes strictly after the end of the range.
pub open spec fn point_after(p: Point, r: Range) -> bool {
    p.row > r.end_point.row || (p.row == r.end_point.row && p.column > r.end_point.column)
}

/// The cursor lies inside the range, both boundaries included.
pub open spec fn point_within(p: Point, r: Range) -> bool {
    !point_before(p, r) && !point_after(p, r)
}

/// Where a cursor stands against a source range.
pub trait MembershipCheck {
    /// The position this value stands for.
    spec fn cursor(&self) -> Point;

    fn is_before(&self, range: Range) -> (r: bool)
        ensures
            r == point_before(self.cursor(), range),
    ;

    fn is_after(&self, range: Range) -> (r: bool)
        ensures
            r == point_after(self.cursor(), range),
    ;

    fn is_member_of(&self, range: Range) -> (r: bool)
        ensures
            r == point_within(self.cursor(), range),
    ;
}

impl MembershipCheck for Point {
    open spec fn cursor(&self) -> Point {
        *self
    }

    fn is_before(&self, range: Range) -> (r: bool) {
        let start_point = range.start_point;
        if self.row < start_point.row {
            return true;
        }
        if self.row > start_point.row {
            return false;
        }
        self.column < start_point.column
    }

    fn is_after(&self, range: Range) -> (r: bool) {
        let end_point = range.end_point;
        if self.row < end_point.row {
            return false;
        }
        if self.row > end_point.row {
            return true;
        }
        self.column > end_point.column
    }

    fn is_member_of(&self, range: Range) -> (r: bool) {
        if self.is_before(range) {
            return false;
        }
        if self.is_after(range) {
            return false;
        }
        true
    }
}


/// A node of a parsed syntax tree: its kind, its range, the ids of its children in
/// source order, and its named fields, each naming one node of the same tree.
#[derive(Clone, Debug)]
pub struct SyntaxNode {
    pub kind: String,
    pub range: Range,
    pub children: Vec<usize>,
    pub fields: Vec<(String, usize)>,
}

/// A parsed syntax tree, held as an arena of nodes; node 0 is the root.
#[derive(Clone, Debug)]
pub struct SyntaxTree {
    pub nodes: Vec<SyntaxNode>,
}

/// Why a file cannot be annotated.
#[derive(Clone, Copy, Debug, PartialEq, Eq, Structural)]
pub enum AnalyzeError {
    /// The tree has no root, or a node names a node that does not come after it.
    MalformedTree,
    /// A node that must be named has no name to read.
    MissingIdentifier,
    /// A node's name lies outside the source text.
    IdentifierOutOfRange,
}

impl SyntaxTree {
    /// Every child and field of a node is a node that comes after it in the arena.
    pub open spec fn wf(&self) -> bool {
        &&& self.nodes@.len() > 0
        &&& forall|i: int, j: int|
            0 <= i < self.nodes@.len() && 0 <= j < self.nodes@[i].children@.len() ==> i
                < #[trigger] self.nodes@[i].children@[j] < self.nodes@.len()
        &&& forall|i: int, j: int|
            0 <= i < self.nodes@.len() && 0 <= j < self.nodes@[i].fields@.len() ==> i
                < #[trigger] self.nodes@[i].fields@[j].1 < self.nodes@.len()
    }

    pub open spec fn spec_kind(&self, id: int) -> Seq<char> {
        self.nodes@[id].kind@
    }

    /// Checks the arena's shape.
    pub fn is_well_formed(&self) -> (r: bool)
        ensures
            r == self.wf(),
    {
        let n = self.nodes.len();
        if n == 0 {
            return false;
        }
        let mut i: usize = 0;
        while i < n
            invariant
                n == self.nodes@.len(),
                i <= n,
                forall|a: int, j: int|
                    0 <= a < i && 0 <= j < self.nodes@[a].children@.len() ==> a
                        < #[trigger] self.nodes@[a].children@[j] < n,
                forall|a: int, j: int|
                    0 <= a < i && 0 <= j < self.nodes@[a].fields@.len() ==> a
                        < #[trigger] self.nodes@[a].fields@[j].1 < n,
            decreases n - i,
        {
            let node = &self.nodes[i];
            let mut j: usize = 0;
            while j < node.children.len()
                invariant
                    n == self.nodes@.len(),
                    i < n,
                    *node == self.nodes@[i as int],
                    j <= node.children@.len(),
                    forall|b: int| 0 <= b < j ==> i < #[trigger] node.children@[b] < n,
                decreases node.children@.len() - j,
            {
                let c = node.children[j];
                if c <= i || c >= n {
                    return false;
                }
                j += 1;
            }
            let mut j: usize = 0;
            while j < node.fields.len()
                invariant
                    n == self.nodes@.len(),
                    i < n,
                    *node == self.nodes@[i as int],
                    j <= node.fields@.len(),
                    forall|b: int| 0 <= b < j ==> i < #[trigger] node.fields@[b].1 < n,
                decreases node.fields@.len() - j,
            {
                let c = node.fields[j].1;
                if c <= i || c >= n {
                    return false;
                }
                j += 1;
            }
            i += 1;
        }
        true
    }
}

/// The first field of `fields` called `name`, looked for from index `k` on.
pub open spec fn field_from(fields: Seq<(String, usize)>, name: Seq<char>, k: int) -> Option<usize>
    decreases fields.len() - k,
{
    if k < 0 || k >= fields.len() {
        None
    } else if fields[k].0@ == name {
        Some(fields[k].1)
    } else {
        field_from(fields, name, k + 1)
    }
}

/// The node that field `name` of node `id` names, if it has one.
pub open spec fn field_of(t: SyntaxTree, id: int, name: Seq<char>) -> Option<usize> {
    field_from(t.nodes@[id].fields@, name, 0)
}

/// Kinds whose nodes carry no name worth showing.
pub open spec fn unnamed_kinds() -> Seq<Seq<char>> {
    seq![
        "attribute_item"@,
        "use_declaration"@,
        "macro_invocation"@,
        "expression_statement"@,
        "foreign_mod_item"@,
    ]
}

/// The node holding the name of node `id`, by the kind of `id`; `None` also where the
/// kind needs a field that is missing.
pub open spec fn name_node(t: SyntaxTree, id: int) -> Option<usize> {
    let k = t.spec_kind(id);
    if k == "decorated_definition"@ {
        match field_of(t, id, "definition"@) {
            Some(d) => field_of(t, d as int, "name"@),
            None => None,
        }
    } else if k == "impl_item"@ {
        match field_of(t, id, "trait"@) {
            Some(n) => Some(n),
            None => field_of(t, id, "type"@),
        }
    } else if k == "function_definition"@ && field_of(t, id, "declarator"@) is Some {
        field_of(t, field_of(t, id, "declarator"@)->0 as int, "declarator"@)
    } else if k == "export_statement"@ && field_of(t, id, "declaration"@) is Some {
        field_of(t, field_of(t, id, "declaration"@)->0 as int, "name"@)
    } else {
        field_of(t, id, "name"@)
    }
}

/// Where the name of node `id` stands: the row of the name's end, and the columns of
/// its start and end. `(0, 0, 0)` stands for a node shown without a name.
pub open spec fn identifier_spec(t: SyntaxTree, id: int) -> Result<(usize, usize, usize), AnalyzeError> {
    let k = t.spec_kind(id);
    if unnamed_kinds().contains(k) {
        Ok((0, 0, 0))
    } else if k == "namespace_definition"@ && field_of(t, id, "name"@) is None {
        Ok((0, 0, 0))
    } else if k == "export_statement"@ && field_of(t, id, "source"@) is Some {
        Ok((0, 0, 0))
    } else {
        match name_node(t, id) {
            Some(n) => {
                let r = t.nodes@[n as int].range;
                Ok((r.end_point.row, r.start_point.column, r.end_point.column))
            },
            None => Err(AnalyzeError::MissingIdentifier),
        }
    }
}

/// Finding the text that names a node.
pub trait ResolveSymbol {
    spec fn holds_node(&self, id: int) -> bool;

    spec fn identifier_of(&self, id: int) -> Result<(usize, usize, usize), AnalyzeError>;

    fn identifier_range(&self, id: usize) -> (r: Result<(usize, usize, usize), AnalyzeError>)
        requires
            self.holds_node(id as int),
        ensures
            r == self.identifier_of(id as int),
    ;
}

impl SyntaxTree {
    /// The node that field `name` of node `id` names.
    pub fn child_by_field_name(&self, id: usize, name: &str) -> (r: Option<usize>)
        requires
            self.wf(),
            id < self.nodes@.len(),
        ensures
            r == field_of(*self, id as int, name@),
            r matches Some(c) ==> id < c < self.nodes@.len(),
    {
        let fields = &self.nodes[id].fields;
        let mut k: usize = fields.len();
        let mut found: Option<usize> = None;
        while k > 0
            invariant
                *fields == self.nodes@[id as int].fields,
                k <= fields@.len(),
                found == field_from(fields@, name@, k as int),
                self.wf(),
                id < self.nodes@.len(),
                found matches Some(c) ==> id < c < self.nodes@.len(),
            decreases k,
        {
            k -= 1;
            if same_text(fields[k].0.as_str(), name) {
                found = Some(fields[k].1);
            }
        }
        found
    }
}

impl ResolveSymbol for SyntaxTree {
    open spec fn holds_node(&self, id: int) -> bool {
        self.wf() && 0 <= id < self.nodes@.len()
    }

    open spec fn identifier_of(&self, id: int) -> Result<(usize, usize, usize), AnalyzeError> {
        identifier_spec(*self, id)
    }

    fn identifier_range(&self, id: usize) -> (r: Result<(usize, usize, usize), AnalyzeError>) {
        let simple_cases = vec![
            "attribute_item",
            "use_declaration",
            "macro_invocation",
            "expression_statement",
            "foreign_mod_item",
        ];
        let kind = self.nodes[id].kind.as_str();
        proof {
            reveal_strlit("namespace_definition");
            reveal_strlit("function_definition");
            reveal_strlit("decorated_definition");
            reveal_strlit("impl_item");
            reveal_strlit("export_statement");
            assert("namespace_definition"@[0] != "decorated_definition"@[0]);
            assert("function_definition"@.len() == 19);
            assert("decorated_definition"@.len() == 20);
            assert("namespace_definition"@.len() == 20);
            assert("impl_item"@.len() == 9);
            assert("export_statement"@.len() == 16);
        }
        assert(simple_cases@.map_values(|s: &str| s@) =~= unnamed_kinds());
        if contains_kind(&simple_cases, kind) {
            return Ok((0, 0, 0));
        }
        let mut node = self.child_by_field_name(id, "name");
        if same_text(kind, "namespace_definition") && node.is_none() {
            return Ok((0, 0, 0));
        }
        if same_text(kind, "function_definition") {
            if let Some(child) = self.child_by_field_name(id, "declarator") {
                node = self.child_by_field_name(child, "declarator");
            }
        }
        if same_text(kind, "decorated_definition") {
            match self.child_by_field_name(id, "definition") {
                Some(definition) => {
                    node = self.child_by_field_name(definition, "name");
                },
                None => {
                    return Err(AnalyzeError::MissingIdentifier);
                },
            }
        }
        if same_text(kind, "impl_item") {
            node = self.child_by_field_name(id, "trait");
            if node.is_none() {
                node = self.child_by_field_name(id, "type");
            }
        }
        if same_text(kind, "export_statement") {
            if self.child_by_field_name(id, "source").is_some() {
                return Ok((0, 0, 0));
            }
            if let Some(child) = self.child_by_field_name(id, "declaration") {
                node = self.child_by_field_name(child, "name");
            }
        }
        match node {
            Some(n) => {
                let r = self.nodes[n].range;
                Ok((r.end_point.row, r.start_point.column, r.end_point.column))
            },
            None => Err(AnalyzeError::MissingIdentifier),
        }
    }
}

/// Making a range out of a node.
pub trait RangeFactory: Sized {
    spec fn range_of(node: SyntaxNode) -> Self;

    fn from_node(node: &SyntaxNode) -> (r: Self)
        ensures
            r == Self::range_of(*node),
    ;
}

impl RangeFactory for Range {
    open spec fn range_of(node: SyntaxNode) -> Range {
        node.range
    }

    fn from_node(node: &SyntaxNode) -> (r: Range) {
        node.range
    }
}

} // verus!
