use asterisk::block::BlockType;
use asterisk::config::{Config, Language, Matcher, Matchers};
use asterisk::error::IndexError;
use asterisk::indexer::{index_directory, Index, SourceFile};

fn matcher(field_name: &str, kind: &str) -> Matcher {
    Matcher { field_name: field_name.to_string(), kind: kind.to_string() }
}

fn settings() -> Config {
    let mut config = Config::new();
    config.languages.insert(
        "rust".to_string(),
        Language {
            matchers: Matchers {
                import_statement: "use_declaration".to_string(),
                module_name: matcher("path", "identifier"),
                object_name: matcher("name", "identifier"),
                alias: matcher("alias", "identifier"),
            },
        },
    );
    config.languages.insert(
        "python".to_string(),
        Language {
            matchers: Matchers {
                import_statement: "import_from_statement".to_string(),
                module_name: matcher("module_name", "dotted_name"),
                object_name: matcher("name", "dotted_name"),
                alias: matcher("alias", "identifier"),
            },
        },
    );
    config
}

fn file(path: &str, content: &str) -> SourceFile {
    SourceFile { path: path.to_string(), content: Some(content.to_string()) }
}

fn index(files: Vec<SourceFile>) -> Index {
    index_directory(&settings(), &files).expect("the run completes")
}

fn calls_of(index: &Index, key: &str) -> Vec<String> {
    index.call_stack.get_node(key).expect("the function was indexed").children.clone()
}

#[test]
fn two_files_without_imports_give_a_dangling_edge_and_two_entry_points() {
    let index = index(vec![file("a.rs", "fn foo() { bar(); }"), file("b.rs", "fn bar() {}")]);
    let keys: Vec<String> = index
        .blocks
        .iter()
        .filter(|b| b.block_type == BlockType::Function)
        .map(|b| b.node_key.clone())
        .collect();
    assert_eq!(keys, vec!["a.rs..foo".to_string(), "b.rs..bar".to_string()]);
    assert_eq!(calls_of(&index, "a.rs..foo"), vec!["a.rs..bar".to_string()]);
    assert!(calls_of(&index, "b.rs..bar").is_empty());
    assert!(index.call_stack.get_node("a.rs..bar").is_none());
    assert_eq!(
        index.call_graph.get_entry_points(),
        vec!["a.rs..foo".to_string(), "b.rs..bar".to_string()]
    );
    assert_eq!(index.call_graph.edge_count(), 1);
    assert!(index.skipped.is_empty());
}

#[test]
fn call_through_an_import_alias_targets_the_imported_function() {
    let index = index(vec![file("a.rs", "use b::foo as f;\nfn main() { f(); }")]);
    assert_eq!(calls_of(&index, "a.rs..main"), vec!["b..foo".to_string()]);
}

#[test]
fn method_call_on_a_class_name_targets_the_method_of_that_class() {
    let source = "class Foo:\n    def bar(self):\n        pass\n\ndef baz():\n    Foo.bar()\n";
    let index = index(vec![file("m.py", source)]);
    assert!(index.call_stack.get_node("m.py.Foo.bar").is_some());
    assert_eq!(calls_of(&index, "m.py..baz"), vec!["m.py.Foo.bar".to_string()]);
}

#[test]
fn method_call_on_a_variable_takes_the_variable_for_the_class() {
    let source = "class Foo:\n    def bar(self):\n        pass\n\ndef baz():\n    foo_instance.bar()\n";
    let index = index(vec![file("m.py", source)]);
    assert_eq!(calls_of(&index, "m.py..baz"), vec!["m.py.foo_instance.bar".to_string()]);
}

#[test]
fn unsupported_file_is_skipped_and_the_run_completes() {
    let index = index(vec![file("notes.txt", "fn hidden() {}"), file("a.rs", "fn shown() {}")]);
    let keys: Vec<String> = index
        .blocks
        .iter()
        .filter(|b| b.block_type == BlockType::Function)
        .map(|b| b.node_key.clone())
        .collect();
    assert_eq!(keys, vec!["a.rs..shown".to_string()]);
    assert_eq!(index.skipped.len(), 1);
    assert_eq!(index.skipped[0].path, "notes.txt");
    assert_eq!(index.skipped[0].error, IndexError::UnsupportedLanguage);
}
