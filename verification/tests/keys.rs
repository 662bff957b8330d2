use asterisk::indexer::generate_node_key;

#[test]
fn key_of_a_free_function_has_an_empty_class_part() {
    assert_eq!(generate_node_key("a.rs", None, "foo"), "a.rs..foo");
}

#[test]
fn key_of_a_method_names_its_class() {
    assert_eq!(generate_node_key("m.py", Some("Foo"), "bar"), "m.py.Foo.bar");
}

#[test]
fn key_parts_are_joined_as_they_stand() {
    assert_eq!(generate_node_key("", None, ""), "..");
    assert_eq!(generate_node_key("dir/a.rs", Some(""), "f"), "dir/a.rs..f");
    assert_eq!(generate_node_key("a", Some("B"), "c.d"), "a.B.c.d");
}

#[test]
fn functions_that_differ_in_one_part_have_different_keys() {
    let parts = [
        ("a.rs", None, "foo"),
        ("b.rs", None, "foo"),
        ("a.rs", Some("Foo"), "foo"),
        ("a.rs", Some("Bar"), "foo"),
        ("a.rs", None, "bar"),
        ("dir/a.rs", None, "foo"),
        ("other/a.rs", None, "foo"),
    ];
    for (i, a) in parts.iter().enumerate() {
        for (j, b) in parts.iter().enumerate() {
            let same = generate_node_key(a.0, a.1, a.2) == generate_node_key(b.0, b.1, b.2);
            assert_eq!(same, i == j);
        }
    }
}

#[test]
fn a_dot_in_a_name_can_make_two_keys_meet() {
    assert_eq!(generate_node_key("a", Some("b.c"), "d"), generate_node_key("a.b", Some("c"), "d"));
}
