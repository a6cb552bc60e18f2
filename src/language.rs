//! Languages and the per-language classification of syntax node kinds.
use vstd::prelude::*;
use crate::text::same_text;

verus! {

/// A source language, decided by a file's extension or a language name.
#[derive(Debug)]
pub enum Language {
    Rust,
    Python,
    Ruby,
    Cpp,
    TypeScript,
    JavaScript,
    Other(String),
}

/// The texts of a list of node kinds.
pub open spec fn kind_texts(v: Seq<&str>) -> Seq<Seq<char>> {
    v.map_values(|s: &str| s@)
}

/// The name a language goes by; an unknown language keeps the name it was given.
pub open spec fn language_name(l: Language) -> Seq<char> {
    match l {
        Language::Rust => "rust"@,
        Language::Python => "python"@,
        Language::Ruby => "ruby"@,
        Language::Cpp => "cpp"@,
        Language::TypeScript => "typescript"@,
        Language::JavaScript => "javascript"@,
        Language::Other(s) => s@,
    }
}

/// `l` is the language that the file extension `ext` stands for.
pub open spec fn is_language_of_extension(ext: Seq<char>, l: Language) -> bool {
    match l {
        Language::Rust => ext == "rs"@,
        Language::Python => ext == "py"@,
        Language::Ruby => ext == "rb"@,
        Language::Cpp => ext == "cpp"@ || ext == "h"@ || ext == "hpp"@,
        Language::TypeScript => ext == "ts"@,
        Language::JavaScript => ext == "js"@,
        Language::Other(s) => s@ == ext && ext != "rs"@ && ext != "py"@ && ext != "rb"@
            && ext != "cpp"@ && ext != "h"@ && ext != "hpp"@ && ext != "ts"@ && ext != "js"@,
    }
}

/// `l` is the language called `name`.
pub open spec fn is_language_named(name: Seq<char>, l: Language) -> bool {
    match l {
        Language::Other(s) => s@ == name && name != "rust"@ && name != "python"@ && name
            != "ruby"@ && name != "cpp"@ && name != "typescript"@ && name != "javascript"@,
        _ => name == language_name(l),
    }
}

pub open spec fn top_level_kind(l: Language) -> Seq<char> {
    match l {
        Language::Rust => "source_file"@,
        Language::Python => "module"@,
        Language::Ruby | Language::JavaScript | Language::TypeScript => "program"@,
        Language::Cpp => "translation_unit"@,
        _ => ""@,
    }
}

pub open spec fn decorator_kind(l: Language) -> Seq<char> {
    match l {
        Language::Rust => "attribute_item"@,
        Language::Python | Language::Ruby | Language::Cpp => "null"@,
        Language::TypeScript | Language::JavaScript => "decorator"@,
        _ => ""@,
    }
}

pub open spec fn comment_kind(l: Language) -> Seq<char> {
    match l {
        Language::Rust => "line_comment"@,
        Language::Other(_) => ""@,
        _ => "comment"@,
    }
}

pub open spec fn ignorable_kinds(l: Language) -> Seq<Seq<char>> {
    match l {
        Language::Rust => seq![
            "type_item"@,
            "static_item"@,
            "extern_crate_declaration"@,
            "const_item"@,
            "use_declaration"@,
            "expression_statement"@,
            "macro_invocation"@,
            "foreign_mod_item"@,
        ],
        Language::TypeScript | Language::JavaScript => seq![
            "string_fragment"@,
            "import_specifier"@,
            "named_imports"@,
        ],
        _ => seq![],
    }
}

pub open spec fn commentable_kinds(l: Language) -> Seq<Seq<char>> {
    match l {
        Language::Rust => seq![
            "attribute_item"@,
            "mod_item"@,
            "enum_item"@,
            "impl_item"@,
            "function_item"@,
            "struct_item"@,
            "trait_item"@,
            "macro_definition"@,
        ],
        Language::Python => seq![
            "class_definition"@,
            "function_definition"@,
            "decorated_definition"@,
        ],
        Language::Ruby => seq!["class"@, "method"@, "function"@, "module"@],
        Language::Cpp => seq![
            "namespace_definition"@,
            "function_definition"@,
            "class_specifier"@,
        ],
        Language::TypeScript | Language::JavaScript => seq![
            "enum_declaration"@,
            "function_declaration"@,
            "class_declaration"@,
            "method_definition"@,
            "interface_declaration"@,
            "export_statement"@,
            "expression_statement"@,
        ],
        _ => seq![],
    }
}

/// Kinds that are annotated and also open a scope whose name prefixes those inside.
pub open spec fn nested_kinds(l: Language) -> Seq<Seq<char>> {
    match l {
        Language::Rust => seq!["mod_item"@, "impl_item"@],
        Language::Python => seq!["class_definition"@],
        Language::Ruby => seq!["class"@, "module"@],
        Language::Cpp => seq!["namespace_definition"@, "class_specifier"@],
        Language::TypeScript | Language::JavaScript => seq![
            "class_declaration"@,
            "expression_statement"@,
        ],
        _ => seq![],
    }
}

/// Every kind that opens a named scope also receives a marker, in every language.
pub proof fn lemma_nested_kinds_are_commentable(l: Language)
    ensures
        forall|k: int|
            0 <= k < nested_kinds(l).len() ==> commentable_kinds(l).contains(#[trigger] nested_kinds(l)[k]),
{
    let n = nested_kinds(l);
    let c = commentable_kinds(l);
    assert forall|k: int| 0 <= k < n.len() implies c.contains(#[trigger] n[k]) by {
        match l {
            Language::Rust => {
                if k == 0 {
                    assert(c[1] == n[k]);
                } else {
                    assert(c[3] == n[k]);
                }
            },
            Language::Python => {
                assert(c[0] == n[k]);
            },
            Language::Ruby => {
                if k == 0 {
                    assert(c[0] == n[k]);
                } else {
                    assert(c[3] == n[k]);
                }
            },
            Language::Cpp => {
                if k == 0 {
                    assert(c[0] == n[k]);
                } else {
                    assert(c[2] == n[k]);
                }
            },
            Language::TypeScript | Language::JavaScript => {
                if k == 0 {
                    assert(c[2] == n[k]);
                } else {
                    assert(c[6] == n[k]);
                }
            },
            Language::Other(_) => {},
        }
    }
}

/// Kinds that the planner collects: the ignorable ones, then the annotated ones.
pub open spec fn scannable_kinds(l: Language) -> Seq<Seq<char>> {
    ignorable_kinds(l) + commentable_kinds(l)
}

impl Language {
    pub fn as_str(&self) -> (r: &str)
        ensures
            r@ == language_name(*self),
    {
        match self {
            Language::Rust => "rust",
            Language::Python => "python",
            Language::Ruby => "ruby",
            Language::Cpp => "cpp",
            Language::TypeScript => "typescript",
            Language::JavaScript => "javascript",
            Language::Other(language) => language.as_str(),
        }
    }

    pub fn from_extension(extension: &str) -> (r: Self)
        ensures
            is_language_of_extension(extension@, r),
    {
        if same_text(extension, "rs") {
            Language::Rust
        } else if same_text(extension, "py") {
            Language::Python
        } else if same_text(extension, "rb") {
            Language::Ruby
        } else if same_text(extension, "cpp") || same_text(extension, "h") || same_text(
            extension,
            "hpp",
        ) {
            Language::Cpp
        } else if same_text(extension, "ts") {
            Language::TypeScript
        } else if same_text(extension, "js") {
            Language::JavaScript
        } else {
            Language::Other(extension.to_owned())
        }
    }

    /// The language called `language_name`; any other name gives `Other`.
    pub fn from_name(language_name: &str) -> (r: Self)
        ensures
            is_language_named(language_name@, r),
    {
        if same_text(language_name, "rust") {
            Language::Rust
        } else if same_text(language_name, "python") {
            Language::Python
        } else if same_text(language_name, "ruby") {
            Language::Ruby
        } else if same_text(language_name, "cpp") {
            Language::Cpp
        } else if same_text(language_name, "typescript") {
            Language::TypeScript
        } else if same_text(language_name, "javascript") {
            Language::JavaScript
        } else {
            Language::Other(language_name.to_owned())
        }
    }

    /// The kind of the root node of a whole file.
    pub fn top_level_node_type(&self) -> (r: &'static str)
        ensures
            r@ == top_level_kind(*self),
    {
        match self {
            Language::Rust => "source_file",
            Language::Python => "module",
            Language::Ruby | Language::JavaScript | Language::TypeScript => "program",
            Language::Cpp => "translation_unit",
            _ => "",
        }
    }

    /// The kind of an attribute or decorator, carried along with the declaration below it.
    pub fn decorator_node_type(&self) -> (r: &'static str)
        ensures
            r@ == decorator_kind(*self),
    {
        match self {
            Language::Rust => "attribute_item",
            Language::Python | Language::Ruby | Language::Cpp => "null",
            Language::TypeScript | Language::JavaScript => "decorator",
            _ => "",
        }
    }

    pub fn comment_node_type(&self) -> (r: &'static str)
        ensures
            r@ == comment_kind(*self),
    {
        match self {
            Language::Rust => "line_comment",
            Language::Python | Language::Ruby | Language::Cpp | Language::TypeScript
            | Language::JavaScript => "comment",
            _ => "",
        }
    }

    pub fn scannable_node_types(&self) -> (r: Vec<&'static str>)
        ensures
            kind_texts(r@) == scannable_kinds(*self),
    {
        let mut scannable = self.ignorable_node_types();
        let mut commentable = self.commentable_node_types();
        scannable.append(&mut commentable);
        assert(kind_texts(scannable@) =~= scannable_kinds(*self));
        scannable
    }

    /// Kinds that are walked past but never annotated.
    pub fn ignorable_node_types(&self) -> (r: Vec<&'static str>)
        ensures
            kind_texts(r@) == ignorable_kinds(*self),
    {
        let r = match self {
            Language::Rust => vec![
                "type_item",
                "static_item",
                "extern_crate_declaration",
                "const_item",
                "use_declaration",
                "expression_statement",
                "macro_invocation",
                "foreign_mod_item",
            ],
            Language::TypeScript | Language::JavaScript => vec![
                "string_fragment",
                "import_specifier",
                "named_imports",
            ],
            _ => vec![],
        };
        assert(kind_texts(r@) =~= ignorable_kinds(*self));
        r
    }

    /// Kinds that receive a marker.
    pub fn commentable_node_types(&self) -> (r: Vec<&'static str>)
        ensures
            kind_texts(r@) == commentable_kinds(*self),
    {
        let r = match self {
            Language::Rust => vec![
                "attribute_item",
                "mod_item",
                "enum_item",
                "impl_item",
                "function_item",
                "struct_item",
                "trait_item",
                "macro_definition",
            ],
            Language::Python => vec![
                "class_definition",
                "function_definition",
                "decorated_definition",
            ],
            Language::Ruby => vec!["class", "method", "function", "module"],
            Language::Cpp => vec![
                "namespace_definition",
                "function_definition",
                "class_specifier",
            ],
            Language::TypeScript | Language::JavaScript => vec![
                "enum_declaration",
                "function_declaration",
                "class_declaration",
                "method_definition",
                "interface_declaration",
                "export_statement",
                "expression_statement",
            ],
            _ => vec![],
        };
        assert(kind_texts(r@) =~= commentable_kinds(*self));
        r
    }

    /// Kinds that receive a marker and open a named scope.
    pub fn nested_traversable_symbols(&self) -> (r: Vec<&'static str>)
        ensures
            kind_texts(r@) == nested_kinds(*self),
    {
        let r = match self {
            Language::Rust => vec!["mod_item", "impl_item"],
            Language::Python => vec!["class_definition"],
            Language::Ruby => vec!["class", "module"],
            Language::Cpp => vec!["namespace_definition", "class_specifier"],
            Language::TypeScript | Language::JavaScript => vec![
                "class_declaration",
                "expression_statement",
            ],
            _ => vec![],
        };
        assert(kind_texts(r@) =~= nested_kinds(*self));
        r
    }
}

/// The variant of a language, as a number.
pub open spec fn variant_of(l: Language) -> u8 {
    match l {
        Language::Rust => 0,
        Language::Python => 1,
        Language::Ruby => 2,
        Language::Cpp => 3,
        Language::TypeScript => 4,
        Language::JavaScript => 5,
        Language::Other(_) => 6,
    }
}

/// Two languages are equal when they are the same variant, and for `Other` hold the same name.
pub open spec fn same_language(a: Language, b: Language) -> bool {
    variant_of(a) == variant_of(b) && (a is Other ==> a->Other_0@ == b->Other_0@)
}

impl Language {
    fn variant(&self) -> (r: u8)
        ensures
            r == variant_of(*self),
    {
        match self {
            Language::Rust => 0,
            Language::Python => 1,
            Language::Ruby => 2,
            Language::Cpp => 3,
            Language::TypeScript => 4,
            Language::JavaScript => 5,
            Language::Other(_) => 6,
        }
    }
}

impl PartialEq for Language {
    fn eq(&self, other: &Language) -> (r: bool) {
        if self.variant() != other.variant() {
            return false;
        }
        match self {
            Language::Other(x) => match other {
                Language::Other(y) => same_text(x.as_str(), y.as_str()),
                _ => false,
            },
            _ => true,
        }
    }
}

impl vstd::std_specs::cmp::PartialEqSpecImpl for Language {
    open spec fn obeys_eq_spec() -> bool {
        true
    }

    open spec fn eq_spec(&self, other: &Language) -> bool {
        same_language(*self, *other)
    }
}

impl From<&str> for Language {
    fn from(language_name: &str) -> (r: Self)
        ensures
            is_language_named(language_name@, r),
    {
        Language::from_name(language_name)
    }
}

/// An unknown name gives a language that holds a `String`, which no spec function can
/// build; `from` states its result in its own `ensures` instead.
impl vstd::std_specs::convert::FromSpecImpl<&str> for Language {
    open spec fn obeys_from_spec() -> bool {
        false
    }

    open spec fn from_spec(v: &str) -> Language {
        Language::Rust
    }
}

} // verus!
