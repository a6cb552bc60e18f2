//! The marker text that each language's comments start with.
use vstd::prelude::*;
use crate::language::Language;

verus! {

/// The marker comment used for a language.
#[derive(Clone, Copy, Debug, PartialEq, Eq, Structural)]
pub enum CommentToken {
    TripleSlashTODO,
    DoubleSlashTODO,
    HashTODO,
    Other,
}

pub open spec fn token_of(l: Language) -> CommentToken {
    match l {
        Language::Rust | Language::Cpp => CommentToken::TripleSlashTODO,
        Language::Python | Language::Ruby => CommentToken::HashTODO,
        Language::JavaScript | Language::TypeScript => CommentToken::DoubleSlashTODO,
        _ => CommentToken::Other,
    }
}

pub open spec fn token_text(t: CommentToken) -> Seq<char> {
    match t {
        CommentToken::TripleSlashTODO => "/// [TODO]"@,
        CommentToken::DoubleSlashTODO => "// [TODO]"@,
        CommentToken::HashTODO => "# [TODO]"@,
        CommentToken::Other => "// [TODO]"@,
    }
}

impl CommentToken {
    pub fn from_language(language: &Language) -> (r: Self)
        ensures
            r == token_of(*language),
    {
        match language {
            Language::Rust | Language::Cpp => CommentToken::TripleSlashTODO,
            Language::Python | Language::Ruby => CommentToken::HashTODO,
            Language::JavaScript | Language::TypeScript => CommentToken::DoubleSlashTODO,
            _ => CommentToken::Other,
        }
    }

    pub fn to_str(&self) -> (r: &'static str)
        ensures
            r@ == token_text(*self),
            vstd::string::is_ascii(r),
    {
        proof {
            reveal_strlit("/// [TODO]");
            reveal_strlit("// [TODO]");
            reveal_strlit("# [TODO]");
        }
        match self {
            CommentToken::TripleSlashTODO => "/// [TODO]",
            CommentToken::DoubleSlashTODO => "// [TODO]",
            CommentToken::HashTODO => "# [TODO]",
            CommentToken::Other => "// [TODO]",
        }
    }
}

} // verus!
