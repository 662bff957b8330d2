use asterisk::calls::{add_import, find_calls, resolve_call, ImportTarget};
use asterisk::grammar::Grammar;
use asterisk::imports::ImportBinding;
use asterisk::string_map::StringMap;
use asterisk::syntax::SyntaxNode;

fn imports() -> StringMap<ImportTarget> {
    let mut imports = StringMap::new();
    add_import(
        &mut imports,
        ImportBinding {
            module_name: "b".to_string(),
            object_name: "foo".to_string(),
            alias: "f".to_string(),
        },
    );
    add_import(
        &mut imports,
        ImportBinding {
            module_name: "numpy".to_string(),
            object_name: "numpy".to_string(),
            alias: "np".to_string(),
        },
    );
    imports
}

fn call(callee: &str) -> SyntaxNode {
    SyntaxNode {
        kind: "call_expression".to_string(),
        named: true,
        field: None,
        text: format!("{}()", callee),
        children: vec![SyntaxNode {
            kind: "identifier".to_string(),
            named: true,
            field: Some("function".to_string()),
            text: callee.to_string(),
            children: Vec::new(),
        }],
    }
}

fn body(children: Vec<SyntaxNode>) -> SyntaxNode {
    SyntaxNode {
        kind: "block".to_string(),
        named: true,
        field: None,
        text: String::new(),
        children,
    }
}

#[test]
fn a_plain_name_is_a_function_of_the_calling_module() {
    assert_eq!(resolve_call("bar", "a.rs", &imports()), "a.rs..bar");
}

#[test]
fn an_imported_name_is_the_imported_object_in_its_module() {
    assert_eq!(resolve_call("f", "a.rs", &imports()), "b..foo");
}

#[test]
fn a_dotted_name_is_a_method_of_the_object_before_the_first_dot() {
    assert_eq!(resolve_call("person.introduce", "a.rs", &imports()), "a.rs.person.introduce");
    assert_eq!(resolve_call("a.b.c", "m.py", &imports()), "m.py.a.b.c");
    assert_eq!(resolve_call(".x", "m.py", &imports()), "m.py..x");
    assert_eq!(resolve_call("x.", "m.py", &imports()), "m.py.x.");
}

#[test]
fn a_method_of_an_imported_object_is_looked_up_in_the_module_it_came_from() {
    assert_eq!(resolve_call("np.array", "m.py", &imports()), "numpy.np.array");
}

#[test]
fn a_later_import_of_an_alias_takes_its_place() {
    let mut imports = imports();
    add_import(
        &mut imports,
        ImportBinding {
            module_name: "c".to_string(),
            object_name: "other".to_string(),
            alias: "f".to_string(),
        },
    );
    assert_eq!(resolve_call("f", "a.rs", &imports), "c..other");
}

#[test]
fn calls_are_found_once_each_in_the_order_of_keys() {
    let tree = body(vec![
        call("zeta"),
        body(vec![call("alpha"), call("zeta")]),
        call("f"),
        call("obj.run"),
    ]);
    assert_eq!(
        find_calls(&tree, Grammar::Rust, "a.rs", &imports()),
        vec!["a.rs..alpha", "a.rs..zeta", "a.rs.obj.run", "b..foo"]
    );
}

#[test]
fn a_call_inside_the_arguments_of_a_call_is_found() {
    let mut outer = call("outer");
    outer.children.push(body(vec![call("inner")]));
    assert_eq!(
        find_calls(&outer, Grammar::Rust, "a.rs", &StringMap::new()),
        vec!["a.rs..inner", "a.rs..outer"]
    );
}

#[test]
fn the_kind_of_a_call_is_that_of_the_language() {
    let tree = body(vec![call("f")]);
    assert!(find_calls(&tree, Grammar::Python, "m.py", &StringMap::new()).is_empty());
    let mut python_call = call("g");
    python_call.kind = "call".to_string();
    assert_eq!(
        find_calls(&python_call, Grammar::Python, "m.py", &StringMap::new()),
        vec!["m.py..g"]
    );
}

#[test]
fn a_call_that_names_nothing_is_left_out() {
    let mut nameless = call("x");
    nameless.children.clear();
    assert!(find_calls(&nameless, Grammar::Rust, "a.rs", &StringMap::new()).is_empty());
}
