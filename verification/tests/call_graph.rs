use asterisk::call_graph::{label_of, sanitize, CallGraph, EntryPolicy};
use asterisk::call_stack::{CallStack, CallStackNode};

fn node(file_path: &str, class_name: Option<&str>, function_name: &str) -> CallStackNode {
    CallStackNode {
        file_path: file_path.to_string(),
        class_name: class_name.map(|c| c.to_string()),
        function_name: function_name.to_string(),
        children: Vec::new(),
    }
}

fn small_graph() -> CallGraph {
    let mut graph = CallGraph::new();
    graph.add_node("b.rs..bar".to_string(), node("src/b.rs", None, "bar"));
    graph.add_node("a.rs.Foo.foo".to_string(), node("src/a.rs", Some("Foo"), "foo"));
    graph.add_edge("a.rs.Foo.foo".to_string(), "b.rs..bar".to_string());
    graph
}

#[test]
fn label_names_file_class_and_function() {
    assert_eq!(label_of(&node("src/deep/a.rs", Some("Foo"), "foo")), "a.rs::Foo::foo");
    assert_eq!(label_of(&node("a.rs", None, "foo")), "a.rs::foo");
    assert_eq!(label_of(&node("src/", None, "foo")), "::foo");
}

#[test]
fn graphviz_lists_nodes_by_key_and_then_edges() {
    let expected = "digraph CallGraph {\n  rankdir=LR;\n  node [shape=box];\n  \"a.rs.Foo.foo\" [label=\"a.rs::Foo::foo\"];\n  \"b.rs..bar\" [label=\"b.rs::bar\"];\n  \"a.rs.Foo.foo\" -> \"b.rs..bar\";\n}";
    assert_eq!(small_graph().to_graphviz(), expected);
}

#[test]
fn graphviz_of_an_empty_graph_is_the_frame() {
    assert_eq!(
        CallGraph::new().to_graphviz(),
        "digraph CallGraph {\n  rankdir=LR;\n  node [shape=box];\n}"
    );
}

#[test]
fn mermaid_turns_spaces_into_underscores() {
    let mut graph = CallGraph::new();
    graph.add_node("my file.rs..do it".to_string(), node("my dir/my file.rs", None, "do it"));
    graph.add_edge("my file.rs..do it".to_string(), "other file.rs..x y".to_string());
    let expected = "graph TD;\n  my_file.rs..do_it[\"my_file.rs::do_it\"];\n  my_file.rs..do_it --> other_file.rs..x_y;\n";
    assert_eq!(graph.to_mermaid(), expected);
}

#[test]
fn mermaid_of_the_small_graph() {
    let expected = "graph TD;\n  a.rs.Foo.foo[\"a.rs::Foo::foo\"];\n  b.rs..bar[\"b.rs::bar\"];\n  a.rs.Foo.foo --> b.rs..bar;\n";
    assert_eq!(small_graph().to_mermaid(), expected);
}

#[test]
fn sanitize_keeps_keys_without_underscores_apart() {
    assert_eq!(sanitize("foo bar"), "foo_bar");
    assert_ne!(sanitize("foo bar"), sanitize("fo obar"));
    assert_ne!(sanitize("a b"), sanitize("ab "));
}

#[test]
fn sanitize_merges_a_space_with_an_underscore() {
    assert_eq!(sanitize("a _b"), sanitize("a_ b"));
}

#[test]
fn entry_points_are_the_nodes_that_no_edge_leads_to() {
    let mut graph = CallGraph::new();
    graph.add_node("c".to_string(), node("f.rs", None, "c"));
    graph.add_node("a".to_string(), node("f.rs", None, "a"));
    graph.add_node("b".to_string(), node("f.rs", None, "b"));
    graph.add_edge("a".to_string(), "b".to_string());
    graph.add_edge("c".to_string(), "b".to_string());
    graph.add_edge("c".to_string(), "nowhere".to_string());
    assert_eq!(graph.get_entry_points(), vec!["a", "c"]);
}

#[test]
fn a_node_that_calls_before_it_is_called_is_no_entry_point() {
    let mut graph = CallGraph::new();
    graph.add_node("a".to_string(), node("f.rs", None, "a"));
    graph.add_node("b".to_string(), node("f.rs", None, "b"));
    graph.add_edge("a".to_string(), "b".to_string());
    graph.add_edge("b".to_string(), "a".to_string());
    assert!(graph.get_entry_points().is_empty());
}

#[test]
fn a_called_main_is_an_entry_point_only_where_the_policy_says_so() {
    let mut graph = CallGraph::new();
    graph.add_node("m..main".to_string(), node("m.rs", None, "main"));
    graph.add_node("m..helper".to_string(), node("m.rs", None, "helper"));
    graph.add_node("m..leaf".to_string(), node("m.rs", None, "leaf"));
    graph.add_edge("m..helper".to_string(), "m..main".to_string());
    graph.add_edge("m..helper".to_string(), "m..leaf".to_string());
    assert_eq!(graph.get_entry_points(), vec!["m..helper"]);
    assert_eq!(graph.entry_points_with(EntryPolicy::Uncalled), vec!["m..helper"]);
    assert_eq!(graph.entry_points_with(EntryPolicy::UncalledOrMain), vec!["m..helper", "m..main"]);
}

#[test]
fn entry_points_of_an_empty_graph_are_none() {
    assert!(CallGraph::new().get_entry_points().is_empty());
}

#[test]
fn add_node_replaces_the_node_under_a_key() {
    let mut graph = CallGraph::new();
    graph.add_node("k".to_string(), node("a.rs", None, "first"));
    graph.add_node("k".to_string(), node("a.rs", None, "second"));
    assert_eq!(graph.node_count(), 1);
    assert!(graph.to_graphviz().contains("a.rs::second"));
    assert!(!graph.to_graphviz().contains("a.rs::first"));
}

#[test]
fn flattening_gives_one_edge_for_each_child() {
    let mut stack = CallStack::new();
    stack.add_node("b".to_string(), node("f.rs", None, "b"));
    stack.add_node("a".to_string(), node("f.rs", None, "a"));
    stack.add_node("c".to_string(), node("f.rs", None, "c"));
    stack.add_child("b", "x");
    stack.add_child("a", "b");
    stack.add_child("a", "c");
    stack.add_child("b", "a");
    stack.add_child("missing", "a");
    let graph = stack.to_call_graph();
    assert_eq!(graph.node_count(), 3);
    assert_eq!(graph.edge_count(), 4);
    let expected = "graph TD;\n  a[\"f.rs::a\"];\n  b[\"f.rs::b\"];\n  c[\"f.rs::c\"];\n  a --> b;\n  a --> c;\n  b --> x;\n  b --> a;\n";
    assert_eq!(graph.to_mermaid(), expected);
}

#[test]
fn call_stack_keeps_nodes_and_children() {
    let mut stack = CallStack::new();
    assert_eq!(stack.len(), 0);
    assert!(stack.get_node("a").is_none());
    stack.add_node("a".to_string(), node("f.rs", Some("K"), "a"));
    stack.add_child("a", "one");
    stack.add_child("a", "two");
    stack.add_child("a", "one");
    let found = stack.get_node("a").expect("the node is there");
    assert_eq!(found.children, vec!["one", "two", "one"]);
    assert_eq!(found.class_name, Some("K".to_string()));
    assert_eq!(stack.len(), 1);
}

#[test]
fn json_flowchart_is_what_serde_json_prints() {
    let graph = small_graph();
    let mut first = serde_json::Map::new();
    first.insert("id".to_string(), serde_json::Value::String("a.rs.Foo.foo".to_string()));
    first.insert("label".to_string(), serde_json::Value::String("a.rs::Foo::foo".to_string()));
    let mut second = serde_json::Map::new();
    second.insert("id".to_string(), serde_json::Value::String("b.rs..bar".to_string()));
    second.insert("label".to_string(), serde_json::Value::String("b.rs::bar".to_string()));
    let mut edge = serde_json::Map::new();
    edge.insert("from".to_string(), serde_json::Value::String("a.rs.Foo.foo".to_string()));
    edge.insert("to".to_string(), serde_json::Value::String("b.rs..bar".to_string()));
    let mut chart = serde_json::Map::new();
    chart.insert(
        "nodes".to_string(),
        serde_json::Value::Array(vec![
            serde_json::Value::Object(first),
            serde_json::Value::Object(second),
        ]),
    );
    chart.insert(
        "edges".to_string(),
        serde_json::Value::Array(vec![serde_json::Value::Object(edge)]),
    );
    let expected = serde_json::to_string_pretty(&serde_json::Value::Object(chart)).unwrap();
    assert_eq!(graph.to_json_flowchart(), expected);
}

#[test]
fn json_flowchart_escapes_what_json_cannot_hold() {
    let mut graph = CallGraph::new();
    graph.add_node("a\"b".to_string(), node("x\\y.rs", None, "f\n"));
    let text = graph.to_json_flowchart();
    let value: serde_json::Value = serde_json::from_str(&text).unwrap();
    assert_eq!(value["nodes"][0]["id"], "a\"b");
    assert_eq!(value["nodes"][0]["label"], "x\\y.rs::f\n");
    assert_eq!(value["edges"].as_array().map(|edges| edges.len()), Some(0));
    assert!(text.contains("\\\""));
}
