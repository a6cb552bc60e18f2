use balpan::language::Language;
use balpan::tokens::CommentToken;
use balpan::utils::suggest_subcommand;

#[test]
fn extensions_pick_languages() {
    assert!(matches!(Language::from_extension("rs"), Language::Rust));
    assert!(matches!(Language::from_extension("hpp"), Language::Cpp));
    assert!(matches!(Language::from_extension("js"), Language::JavaScript));
    match Language::from_extension("md") {
        Language::Other(name) => assert_eq!(name, "md"),
        _ => panic!("md is no supported language"),
    }
}

#[test]
fn names_round_trip() {
    assert_eq!(Language::from("python").as_str(), "python");
    assert_eq!(Language::from("typescript").as_str(), "typescript");
    assert_eq!(Language::from("zig").as_str(), "zig");
}

#[test]
fn node_kind_tables() {
    let rust = Language::Rust;
    assert_eq!(rust.top_level_node_type(), "source_file");
    assert_eq!(rust.decorator_node_type(), "attribute_item");
    assert_eq!(rust.comment_node_type(), "line_comment");
    assert_eq!(rust.nested_traversable_symbols(), vec!["mod_item", "impl_item"]);
    let scannable = rust.scannable_node_types();
    assert_eq!(scannable.len(), 16);
    assert_eq!(scannable[0], "type_item");
    assert_eq!(scannable[8], "attribute_item");
    assert_eq!(Language::Python.commentable_node_types(), vec!["class_definition", "function_definition", "decorated_definition"]);
    assert!(Language::Other("x".to_string()).scannable_node_types().is_empty());
    assert_eq!(Language::Cpp.top_level_node_type(), "translation_unit");
}

#[test]
fn comment_tokens() {
    assert_eq!(CommentToken::from_language(&Language::Cpp).to_str(), "/// [TODO]");
    assert_eq!(CommentToken::from_language(&Language::Ruby).to_str(), "# [TODO]");
    assert_eq!(CommentToken::from_language(&Language::TypeScript).to_str(), "// [TODO]");
    assert_eq!(CommentToken::from_language(&Language::Other(String::new())).to_str(), "// [TODO]");
}

#[test]
fn subcommand_suggestions() {
    assert_eq!(suggest_subcommand("grpe"), Some("grep".to_string()));
    assert_eq!(suggest_subcommand("grep"), None);
    assert_eq!(suggest_subcommand("xxxxxxxxxx"), None);
    assert_eq!(suggest_subcommand("jsno"), Some("json".to_string()));
}

#[test]
fn languages_compare_by_variant_and_name() {
    assert!(Language::from("rust") == Language::Rust);
    assert!(Language::from_extension("py") != Language::Ruby);
    assert!(Language::from("zig") == Language::Other("zig".to_string()));
    assert!(Language::from("zig") != Language::Other("odin".to_string()));
}
