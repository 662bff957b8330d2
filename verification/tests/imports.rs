use asterisk::config::{Matcher, Matchers};
use asterisk::imports::{child_by_field_name, filter_import_matchers, resolve_imports, ImportBinding};
use asterisk::syntax::SyntaxNode;

fn leaf(kind: &str, field: Option<&str>, text: &str) -> SyntaxNode {
    SyntaxNode {
        kind: kind.to_string(),
        named: true,
        field: field.map(|f| f.to_string()),
        text: text.to_string(),
        children: Vec::new(),
    }
}

fn token(text: &str) -> SyntaxNode {
    SyntaxNode {
        kind: text.to_string(),
        named: false,
        field: None,
        text: text.to_string(),
        children: Vec::new(),
    }
}

fn branch(kind: &str, field: Option<&str>, text: &str, children: Vec<SyntaxNode>) -> SyntaxNode {
    SyntaxNode {
        kind: kind.to_string(),
        named: true,
        field: field.map(|f| f.to_string()),
        text: text.to_string(),
        children,
    }
}

fn matcher(field_name: &str, kind: &str) -> Matcher {
    Matcher { field_name: field_name.to_string(), kind: kind.to_string() }
}

fn matchers() -> Matchers {
    Matchers {
        import_statement: "use_declaration".to_string(),
        module_name: matcher("path", "identifier"),
        object_name: matcher("name", "identifier"),
        alias: matcher("alias", "identifier"),
    }
}

fn binding(module_name: &str, object_name: &str, alias: &str) -> ImportBinding {
    ImportBinding {
        module_name: module_name.to_string(),
        object_name: object_name.to_string(),
        alias: alias.to_string(),
    }
}

/// `use b::foo as f;`
fn aliased_use() -> SyntaxNode {
    branch(
        "use_declaration",
        None,
        "use b::foo as f;",
        vec![
            token("use"),
            branch(
                "use_as_clause",
                Some("argument"),
                "b::foo as f",
                vec![
                    branch(
                        "scoped_identifier",
                        Some("path"),
                        "b::foo",
                        vec![
                            leaf("identifier", Some("path"), "b"),
                            token("::"),
                            leaf("identifier", Some("name"), "foo"),
                        ],
                    ),
                    token("as"),
                    leaf("identifier", Some("alias"), "f"),
                ],
            ),
            token(";"),
        ],
    )
}

#[test]
fn an_alias_gives_one_import_under_the_alias() {
    assert_eq!(resolve_imports(&aliased_use(), &matchers()), vec![binding("b", "foo", "f")]);
}

#[test]
fn without_an_alias_each_object_is_imported_under_its_own_name() {
    let statement = branch(
        "use_declaration",
        None,
        "use m::{a, b};",
        vec![
            leaf("identifier", Some("path"), "m"),
            branch(
                "list",
                None,
                "{a, b}",
                vec![
                    leaf("identifier", Some("name"), "a"),
                    token(","),
                    leaf("identifier", Some("name"), "b"),
                    leaf("string", Some("name"), "skipped"),
                ],
            ),
        ],
    );
    assert_eq!(
        resolve_imports(&statement, &matchers()),
        vec![binding("m", "a", "a"), binding("m", "b", "b")]
    );
}

#[test]
fn a_node_of_another_kind_makes_no_import() {
    let mut statement = aliased_use();
    statement.kind = "let_declaration".to_string();
    assert!(resolve_imports(&statement, &matchers()).is_empty());
}

#[test]
fn a_statement_that_no_matcher_reads_makes_no_import() {
    let statement = branch("use_declaration", None, "use x;", vec![token("use"), token(";")]);
    assert!(resolve_imports(&statement, &matchers()).is_empty());
}

#[test]
fn nodes_below_an_unnamed_node_are_not_read() {
    let mut hidden = token("(");
    hidden.children.push(leaf("identifier", Some("alias"), "z"));
    let statement = branch("use_declaration", None, "use (z);", vec![hidden]);
    assert!(resolve_imports(&statement, &matchers()).is_empty());
}

#[test]
fn the_module_read_last_is_the_one_that_counts() {
    let statement = branch(
        "use_declaration",
        None,
        "",
        vec![
            leaf("identifier", Some("path"), "first"),
            branch("inner", None, "", vec![leaf("identifier", Some("path"), "second")]),
            leaf("identifier", Some("name"), "thing"),
        ],
    );
    assert_eq!(resolve_imports(&statement, &matchers()), vec![binding("second", "thing", "thing")]);
}

#[test]
fn a_field_of_the_wrong_kind_is_not_read() {
    let node = branch(
        "use_as_clause",
        None,
        "b::foo as f",
        vec![
            leaf("scoped_identifier", Some("path"), "b::foo"),
            leaf("identifier", Some("path"), "late"),
            leaf("identifier", Some("alias"), "f"),
        ],
    );
    let (module_name, object_name, alias) = filter_import_matchers(&node, &matchers());
    assert_eq!(module_name, None);
    assert_eq!(object_name, None);
    assert_eq!(alias, Some("f".to_string()));
}

#[test]
fn child_by_field_name_gives_the_first_child_under_the_field() {
    let node = branch(
        "n",
        None,
        "",
        vec![
            token("x"),
            leaf("identifier", Some("name"), "one"),
            leaf("identifier", Some("name"), "two"),
        ],
    );
    assert_eq!(child_by_field_name(&node, "name").map(|c| c.text.clone()), Some("one".to_string()));
    assert!(child_by_field_name(&node, "alias").is_none());
}
