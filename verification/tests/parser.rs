use asterisk::block::{Block, BlockType};
use asterisk::config::{Config, Language, Matcher, Matchers};
use asterisk::error::IndexError;
use asterisk::grammar::{
    get_call_expression_name, get_function_name, grammar_for_extension, is_call_expression,
    is_class_definition, is_function_node, is_import_statement, language_name, Grammar,
};
use asterisk::indexer::{
    gather, grammar_for_path, index_blocks, index_directory, index_file, is_supported_file,
    parse_file, FileBlocks, FileOutcome, SourceFile,
};
use asterisk::parser::{join_lines, parse_import_statement, parse_tree};
use asterisk::source::{build_tree, parse_source, slice_text};
use asterisk::syntax::SyntaxNode;
use asterisk::utils::{get_supported_extensions, is_supported_extension};

fn named(kind: &str, field: Option<&str>, text: &str, children: Vec<SyntaxNode>) -> SyntaxNode {
    SyntaxNode {
        kind: kind.to_string(),
        named: true,
        field: field.map(|f| f.to_string()),
        text: text.to_string(),
        children,
    }
}

fn token(text: &str) -> SyntaxNode {
    SyntaxNode {
        kind: text.to_string(),
        named: false,
        field: None,
        text: text.to_string(),
        children: Vec::new(),
    }
}

fn matcher(field_name: &str, kind: &str) -> Matcher {
    Matcher { field_name: field_name.to_string(), kind: kind.to_string() }
}

fn rust_settings() -> Config {
    let mut config = Config::new();
    config.languages.insert(
        "rust".to_string(),
        Language {
            matchers: Matchers {
                import_statement: "use_declaration".to_string(),
                module_name: matcher("path", "identifier"),
                object_name: matcher("name", "identifier"),
                alias: matcher("alias", "identifier"),
            },
        },
    );
    config
}

fn function_keys(blocks: &[Block]) -> Vec<String> {
    blocks
        .iter()
        .filter(|b| b.block_type == BlockType::Function)
        .map(|b| b.node_key.clone())
        .collect()
}

#[test]
fn kinds_of_each_language() {
    assert!(is_import_statement("use_declaration", Grammar::Rust));
    assert!(!is_import_statement("import_statement", Grammar::Rust));
    assert!(is_import_statement("import_statement", Grammar::Python));
    assert!(is_import_statement("import_from_statement", Grammar::Python));
    assert!(is_import_statement("import_statement", Grammar::JavaScript));
    assert!(!is_import_statement("import_from_statement", Grammar::JavaScript));
    assert!(is_class_definition("class_definition", Grammar::Python));
    assert!(!is_class_definition("class_definition", Grammar::Rust));
    assert!(!is_class_definition("class_declaration", Grammar::JavaScript));
    assert!(is_function_node("function_item", Grammar::Rust));
    assert!(is_function_node("function_definition", Grammar::Python));
    assert!(is_function_node("function_declaration", Grammar::JavaScript));
    assert!(!is_function_node("function_item", Grammar::Python));
    assert!(is_call_expression("call_expression", Grammar::Rust));
    assert!(is_call_expression("call", Grammar::Python));
    assert!(is_call_expression("call_expression", Grammar::JavaScript));
    assert!(!is_call_expression("call", Grammar::JavaScript));
}

#[test]
fn grammars_by_extension_and_their_names() {
    assert_eq!(grammar_for_extension("rs"), Some(Grammar::Rust));
    assert_eq!(grammar_for_extension("py"), Some(Grammar::Python));
    assert_eq!(grammar_for_extension("js"), Some(Grammar::JavaScript));
    assert_eq!(grammar_for_extension("ts"), None);
    assert_eq!(grammar_for_extension("RS"), None);
    assert_eq!(grammar_for_path("src/a.py"), Some(Grammar::Python));
    assert_eq!(grammar_for_path("Makefile"), None);
    assert_eq!(language_name(Grammar::Rust), "rust");
    assert_eq!(language_name(Grammar::Python), "python");
    assert_eq!(language_name(Grammar::JavaScript), "javascript");
}

#[test]
fn supported_files_by_extension_in_any_case() {
    assert_eq!(get_supported_extensions(), vec!["rs", "py", "js", "ts"]);
    assert!(is_supported_extension("ts"));
    assert!(!is_supported_extension("RS"));
    assert!(is_supported_file("src/main.rs"));
    assert!(is_supported_file("SRC/MAIN.RS"));
    assert!(is_supported_file("a.Py"));
    assert!(is_supported_file("x.ts"));
    assert!(!is_supported_file("notes.txt"));
    assert!(!is_supported_file("rs"));
    assert!(!is_supported_file(".rs"));
}

#[test]
fn names_are_read_from_their_fields() {
    let function = named(
        "function_item",
        None,
        "fn f() {}",
        vec![token("fn"), named("identifier", Some("name"), "f", Vec::new())],
    );
    assert_eq!(get_function_name(&function, Grammar::Rust), Some("f".to_string()));
    assert_eq!(get_call_expression_name(&function, Grammar::Rust), None);
    let call = named(
        "call",
        None,
        "a.b()",
        vec![named("attribute", Some("function"), "a.b", Vec::new())],
    );
    assert_eq!(get_call_expression_name(&call, Grammar::Python), Some("a.b".to_string()));
}

#[test]
fn lines_are_joined_with_line_feeds() {
    assert_eq!(join_lines(&Vec::new()), "");
    assert_eq!(join_lines(&vec!["one".to_string()]), "one");
    assert_eq!(join_lines(&vec!["a".to_string(), "".to_string(), "b".to_string()]), "a\n\nb");
}

#[test]
fn a_function_without_a_name_is_an_unnamed_function() {
    let tree = named("source_file", None, "", vec![named("function_item", None, "fn () {}", Vec::new())]);
    let blocks = parse_tree(&tree, Grammar::Rust, "a.rs", &rust_settings()).unwrap();
    assert_eq!(blocks.len(), 1);
    assert_eq!(blocks[0].node_key, "a.rs..UnnamedFunction");
    assert_eq!(blocks[0].function_name, Some("UnnamedFunction".to_string()));
    assert_eq!(blocks[0].content, "fn () {}");
}

#[test]
fn the_residue_is_one_block_after_the_functions() {
    let tree = named(
        "source_file",
        None,
        "",
        vec![
            token("#"),
            named(
                "function_item",
                None,
                "fn f() {}",
                vec![token("fn"), named("identifier", Some("name"), "f", Vec::new()), token("{")],
            ),
            token(";"),
        ],
    );
    let blocks = parse_tree(&tree, Grammar::Rust, "a.rs", &rust_settings()).unwrap();
    assert_eq!(blocks.len(), 2);
    assert_eq!(blocks[0].node_key, "a.rs..f");
    assert_eq!(blocks[1].block_type, BlockType::NonFunction);
    assert_eq!(blocks[1].node_key, "non_function_block");
    assert_eq!(blocks[1].content, "#\nfn\n{\n;");
    assert_eq!(blocks[1].function_name, None);
    assert!(blocks[1].outgoing_calls.is_empty());
}

#[test]
fn a_tree_without_functions_and_tokens_has_no_blocks() {
    let tree = named("source_file", None, "", Vec::new());
    assert!(parse_tree(&tree, Grammar::Rust, "a.rs", &rust_settings()).unwrap().is_empty());
}

#[test]
fn a_method_gives_one_block_with_its_class() {
    let method = named(
        "function_definition",
        None,
        "def bar(): pass",
        vec![named("identifier", Some("name"), "bar", Vec::new()), token(":")],
    );
    let tree = named(
        "module",
        None,
        "",
        vec![
            named(
                "class_definition",
                None,
                "class Foo: ...",
                vec![
                    token("class"),
                    named("identifier", Some("name"), "Foo", Vec::new()),
                    method,
                ],
            ),
            named(
                "function_definition",
                None,
                "def after(): pass",
                vec![named("identifier", Some("name"), "after", Vec::new())],
            ),
        ],
    );
    let blocks = parse_tree(&tree, Grammar::Python, "m.py", &Config::new()).unwrap();
    assert_eq!(function_keys(&blocks), vec!["m.py.Foo.bar", "m.py..after"]);
    assert_eq!(blocks[0].class_name, Some("Foo".to_string()));
    assert_eq!(blocks[1].class_name, None);
    assert_eq!(blocks[2].content, "class\n:");
}

#[test]
fn the_innermost_class_is_the_class_of_a_method() {
    let method = named(
        "function_definition",
        None,
        "def f(): pass",
        vec![named("identifier", Some("name"), "f", Vec::new())],
    );
    let inner = named(
        "class_definition",
        None,
        "",
        vec![named("identifier", Some("name"), "Inner", Vec::new()), method],
    );
    let nameless = named("class_definition", None, "", vec![inner]);
    let outer = named(
        "class_definition",
        None,
        "",
        vec![named("identifier", Some("name"), "Outer", Vec::new()), nameless],
    );
    let blocks = parse_tree(&outer, Grammar::Python, "m.py", &Config::new()).unwrap();
    assert_eq!(function_keys(&blocks), vec!["m.py.Inner.f"]);
}

#[test]
fn a_class_with_one_method_in_a_file_gives_one_function_block() {
    let source = "class Foo:\n    def bar(self):\n        pass\n";
    let blocks = parse_file("m.py", source, "m.py", &Config::new()).unwrap();
    let functions: Vec<&Block> =
        blocks.iter().filter(|b| b.block_type == BlockType::Function).collect();
    assert_eq!(functions.len(), 1);
    assert_eq!(functions[0].node_key, "m.py.Foo.bar");
    assert_eq!(functions[0].class_name, Some("Foo".to_string()));
    assert_eq!(functions[0].function_name, Some("bar".to_string()));
    assert_eq!(functions[0].content, "def bar(self):\n        pass");
    assert!(functions[0].outgoing_calls.is_empty());
}

#[test]
fn rows_make_the_tree_that_they_stand_for() {
    let code = "ab cd";
    let row = |depth: usize, kind: &str, field: Option<&str>, start: usize, end: usize| {
        (depth, kind.to_string(), true, field.map(|f| f.to_string()), start, end)
    };
    let rows = vec![
        row(0, "root", None, 0, 5),
        row(1, "left", Some("first"), 0, 2),
        row(2, "deep", None, 1, 2),
        row(1, "right", None, 3, 5),
    ];
    let tree = build_tree(&rows, code).unwrap();
    assert_eq!(tree.kind, "root");
    assert_eq!(tree.text, "ab cd");
    assert_eq!(tree.children.len(), 2);
    assert_eq!(tree.children[0].kind, "left");
    assert_eq!(tree.children[0].field, Some("first".to_string()));
    assert_eq!(tree.children[0].text, "ab");
    assert_eq!(tree.children[0].children.len(), 1);
    assert_eq!(tree.children[0].children[0].text, "b");
    assert_eq!(tree.children[1].text, "cd");
    assert!(tree.children[1].children.is_empty());
}

#[test]
fn rows_that_do_not_fit_make_no_tree() {
    let row = |depth: usize, start: usize, end: usize| {
        (depth, "k".to_string(), true, None, start, end)
    };
    assert!(build_tree(&Vec::new(), "abc").is_none());
    assert!(build_tree(&vec![row(1, 0, 1)], "abc").is_none());
    assert!(build_tree(&vec![row(0, 0, 1), row(0, 1, 2)], "abc").is_none());
    assert!(build_tree(&vec![row(0, 0, 1), row(2, 1, 2)], "abc").is_none());
    assert!(build_tree(&vec![row(0, 0, 4)], "abc").is_none());
    assert!(build_tree(&vec![row(0, 0, 3), row(1, 0, 1), row(2, 0, 1), row(3, 0, 1), row(1, 2, 3)], "abc").is_some());
}

#[test]
fn an_import_without_settings_for_the_language_ends_the_walk() {
    let tree = named(
        "source_file",
        None,
        "",
        vec![named("block", None, "", vec![named("use_declaration", None, "use a;", Vec::new())])],
    );
    assert_eq!(
        parse_tree(&tree, Grammar::Rust, "a.rs", &Config::new()),
        Err(IndexError::MissingLanguageConfig)
    );
    assert!(parse_tree(&tree, Grammar::Rust, "a.rs", &rust_settings()).is_ok());
    assert!(parse_tree(&tree, Grammar::Python, "a.py", &Config::new()).is_ok());
    assert_eq!(
        parse_import_statement(&tree, Grammar::Rust, &Config::new()),
        Err(IndexError::MissingLanguageConfig)
    );
    assert_eq!(parse_import_statement(&tree, Grammar::Rust, &rust_settings()), Ok(Vec::new()));
}

#[test]
fn imports_count_for_the_functions_that_follow_them() {
    let source = "fn early() { f(); }\nuse b::foo as f;\nfn late() { f(); }";
    let blocks = parse_file("a.rs", source, "a.rs", &rust_settings()).unwrap();
    assert_eq!(function_keys(&blocks), vec!["a.rs..early", "a.rs..late"]);
    assert_eq!(blocks[0].outgoing_calls, vec!["a.rs..f"]);
    assert_eq!(blocks[1].outgoing_calls, vec!["b..foo"]);
}

#[test]
fn rust_source_is_parsed_into_a_tree_of_its_nodes() {
    let tree = parse_source("fn foo() { bar(); }", Grammar::Rust).unwrap();
    assert_eq!(tree.kind, "source_file");
    assert!(tree.named);
    assert_eq!(tree.field, None);
    assert_eq!(tree.text, "fn foo() { bar(); }");
    assert_eq!(tree.children.len(), 1);
    let function = &tree.children[0];
    assert_eq!(function.kind, "function_item");
    assert_eq!(function.children[0].kind, "fn");
    assert!(!function.children[0].named);
    assert_eq!(function.children[1].field, Some("name".to_string()));
    assert_eq!(function.children[1].text, "foo");
    assert_eq!(get_function_name(function, Grammar::Rust), Some("foo".to_string()));
}

#[test]
fn source_in_other_scripts_keeps_its_text() {
    let tree = parse_source("fn grüße() { 日本(); }", Grammar::Rust).unwrap();
    assert_eq!(get_function_name(&tree.children[0], Grammar::Rust), Some("grüße".to_string()));
    let blocks = parse_tree(&tree, Grammar::Rust, "a.rs", &rust_settings()).unwrap();
    assert_eq!(blocks[0].outgoing_calls, vec!["a.rs..日本"]);
}

#[test]
fn broken_source_still_has_a_tree() {
    let blocks = parse_file("a.rs", "fn ok() {} fn (((", "a.rs", &rust_settings()).unwrap();
    assert!(function_keys(&blocks).contains(&"a.rs..ok".to_string()));
    assert!(parse_file("e.rs", "", "e.rs", &rust_settings()).unwrap().is_empty());
}

#[test]
fn javascript_and_python_are_parsed_with_their_grammars() {
    let js = parse_file("a.js", "function hello() { world(); }", "a.js", &Config::new()).unwrap();
    assert_eq!(function_keys(&js), vec!["a.js..hello"]);
    assert_eq!(js[0].outgoing_calls, vec!["a.js..world"]);
    let py = parse_file("a.py", "def hello():\n    world()\n", "a.py", &Config::new()).unwrap();
    assert_eq!(function_keys(&py), vec!["a.py..hello"]);
    assert_eq!(py[0].outgoing_calls, vec!["a.py..world"]);
    assert_eq!(py[0].content, "def hello():\n    world()");
}

#[test]
fn a_file_without_a_grammar_is_turned_down() {
    assert_eq!(
        parse_file("a.ts", "function f() {}", "a.ts", &rust_settings()),
        Err(IndexError::UnsupportedLanguage)
    );
    assert_eq!(
        parse_file("README", "text", "README", &rust_settings()),
        Err(IndexError::UnsupportedLanguage)
    );
}

#[test]
fn text_is_cut_at_character_boundaries_only() {
    assert_eq!(slice_text("héllo", 0, 1), Some("h".to_string()));
    assert_eq!(slice_text("héllo", 1, 3), Some("é".to_string()));
    assert_eq!(slice_text("héllo", 1, 2), None);
    assert_eq!(slice_text("héllo", 2, 3), None);
    assert_eq!(slice_text("héllo", 3, 3), Some(String::new()));
    assert_eq!(slice_text("héllo", 0, 6), Some("héllo".to_string()));
    assert_eq!(slice_text("héllo", 0, 7), None);
    assert_eq!(slice_text("héllo", 4, 3), None);
}

#[test]
fn unreadable_and_unsupported_files_are_skipped() {
    let files = vec![
        SourceFile { path: "gone.rs".to_string(), content: None },
        SourceFile { path: "typed.ts".to_string(), content: Some("function f() {}".to_string()) },
        SourceFile { path: "/abs/ok.rs".to_string(), content: Some("fn ok() {}".to_string()) },
    ];
    let index = index_directory(&rust_settings(), &files).unwrap();
    assert_eq!(index.skipped.len(), 2);
    assert_eq!(index.skipped[0].path, "gone.rs");
    assert_eq!(index.skipped[0].error, IndexError::FileRead);
    assert_eq!(index.skipped[1].path, "typed.ts");
    assert_eq!(index.skipped[1].error, IndexError::UnsupportedLanguage);
    let node = index.call_stack.get_node("/abs/ok.rs..ok").unwrap();
    assert_eq!(node.file_path, "abs/ok.rs");
    assert_eq!(node.function_name, "ok");
    assert_eq!(node.class_name, None);
}

#[test]
fn an_import_in_a_language_without_settings_ends_the_run() {
    let files = vec![
        SourceFile { path: "a.rs".to_string(), content: Some("fn ok() {}".to_string()) },
        SourceFile { path: "b.py".to_string(), content: Some("import os\n".to_string()) },
    ];
    assert_eq!(
        index_directory(&rust_settings(), &files).err(),
        Some(IndexError::MissingLanguageConfig)
    );
    assert!(IndexError::MissingLanguageConfig.is_fatal());
    assert!(IndexError::GrammarInit.is_fatal());
    assert!(!IndexError::UnsupportedLanguage.is_fatal());
    assert!(!IndexError::FileRead.is_fatal());
    assert!(!IndexError::Parse.is_fatal());
}

#[test]
fn outcomes_are_gathered_into_an_index_or_the_first_fatal_error() {
    let block = Block::new(
        "a.rs..f".to_string(),
        BlockType::Function,
        "fn f() {}".to_string(),
        Some("f".to_string()),
        None,
    );
    let mut calling = block.duplicate();
    calling.outgoing_calls = vec!["a.rs..g".to_string(), "b.rs..h".to_string()];
    let outcomes = vec![
        FileOutcome { path: "x.txt".to_string(), outcome: Err(IndexError::UnsupportedLanguage) },
        FileOutcome { path: "a.rs".to_string(), outcome: Ok(vec![calling]) },
        FileOutcome { path: "bad.rs".to_string(), outcome: Err(IndexError::Parse) },
    ];
    let index = gather(&outcomes).unwrap();
    assert_eq!(index.blocks.len(), 1);
    assert_eq!(index.call_stack.node_keys(), vec!["a.rs..f"]);
    assert_eq!(
        index.call_graph.edge_list(),
        vec![
            ("a.rs..f".to_string(), "a.rs..g".to_string()),
            ("a.rs..f".to_string(), "b.rs..h".to_string())
        ]
    );
    assert_eq!(index.skipped.len(), 2);
    assert_eq!(index.skipped[1].path, "bad.rs");
    assert_eq!(index.skipped[1].error, IndexError::Parse);

    let ended = vec![
        FileOutcome { path: "a.rs".to_string(), outcome: Ok(vec![block]) },
        FileOutcome { path: "b.rs".to_string(), outcome: Err(IndexError::GrammarInit) },
        FileOutcome { path: "c.rs".to_string(), outcome: Err(IndexError::MissingLanguageConfig) },
    ];
    assert_eq!(gather(&ended).err(), Some(IndexError::GrammarInit));
}

#[test]
fn a_later_block_under_the_same_key_takes_the_place_of_the_earlier() {
    let first = Block::new(
        "a.rs..f".to_string(),
        BlockType::Function,
        "fn f() { one(); }".to_string(),
        Some("f".to_string()),
        None,
    );
    let mut first = first;
    first.outgoing_calls = vec!["a.rs..one".to_string()];
    let second = Block::new(
        "a.rs..f".to_string(),
        BlockType::Function,
        "fn f() {}".to_string(),
        Some("f".to_string()),
        None,
    );
    let files = vec![FileBlocks { path: "a.rs".to_string(), blocks: vec![first, second] }];
    let (blocks, call_stack, call_graph) = index_blocks(&files);
    assert_eq!(blocks.len(), 2);
    assert_eq!(call_stack.len(), 1);
    assert!(call_stack.get_node("a.rs..f").unwrap().children.is_empty());
    assert_eq!(call_graph.edge_count(), 0);
}

#[test]
fn the_order_of_the_files_does_not_change_the_call_stack() {
    let block = |key: &str, name: &str, calls: Vec<&str>| {
        let mut block = Block::new(
            key.to_string(),
            BlockType::Function,
            String::new(),
            Some(name.to_string()),
            None,
        );
        block.outgoing_calls = calls.into_iter().map(|c| c.to_string()).collect();
        block
    };
    let a = || FileBlocks {
        path: "a.rs".to_string(),
        blocks: vec![block("a.rs..f", "f", vec!["a.rs..g", "b.rs..h"]), block("a.rs..g", "g", vec![])],
    };
    let b = || FileBlocks { path: "b.rs".to_string(), blocks: vec![block("b.rs..h", "h", vec!["a.rs..f"])] };
    let (one_blocks, one, one_graph) = index_blocks(&vec![a(), b()]);
    let (other_blocks, other, other_graph) = index_blocks(&vec![b(), a()]);
    assert_eq!(function_keys(&one_blocks), vec!["a.rs..f", "a.rs..g", "b.rs..h"]);
    assert_eq!(function_keys(&other_blocks), vec!["b.rs..h", "a.rs..f", "a.rs..g"]);
    assert_eq!(one.node_keys(), other.node_keys());
    for key in one.node_keys() {
        let left = one.get_node(&key).unwrap();
        let right = other.get_node(&key).unwrap();
        assert_eq!(left.file_path, right.file_path);
        assert_eq!(left.function_name, right.function_name);
        assert_eq!(left.children, right.children);
    }
    assert_eq!(one_graph.edge_list(), other_graph.edge_list());
    assert_eq!(one_graph.to_graphviz(), other_graph.to_graphviz());
}

#[test]
fn one_file_of_the_code_base_at_a_time() {
    let config = rust_settings();
    let unread = SourceFile { path: "a.rs".to_string(), content: None };
    assert_eq!(index_file(&config, &unread), Err(IndexError::FileRead));
    let other = SourceFile { path: "a.md".to_string(), content: None };
    assert_eq!(index_file(&config, &other), Err(IndexError::UnsupportedLanguage));
    let good = SourceFile { path: "a.rs".to_string(), content: Some("fn f() {}".to_string()) };
    assert_eq!(function_keys(&index_file(&config, &good).unwrap()), vec!["a.rs..f"]);
}

#[test]
fn an_empty_code_base_has_an_empty_index() {
    let index = index_directory(&Config::new(), &Vec::new()).unwrap();
    assert!(index.blocks.is_empty());
    assert_eq!(index.call_stack.len(), 0);
    assert_eq!(index.call_graph.node_count(), 0);
    assert!(index.skipped.is_empty());
}
