use asterisk::text::{
    extension_of, find_first, last_segment, place, replace_char, same_text, trim_leading_slashes,
    Placement,
};

#[test]
fn place_follows_the_order_of_str() {
    assert_eq!(place("a", "b"), Placement::Before);
    assert_eq!(place("b", "a"), Placement::After);
    assert_eq!(place("abc", "abc"), Placement::Same);
    assert_eq!(place("ab", "abc"), Placement::Before);
    assert_eq!(place("abc", "ab"), Placement::After);
    assert_eq!(place("", ""), Placement::Same);
    assert_eq!(place("", "a"), Placement::Before);
    assert_eq!(place("Z", "a"), Placement::Before);
}

#[test]
fn place_agrees_with_str_on_other_scripts() {
    let words = ["", "a", "z", "é", "日本", "日本語", "𝄞", "zz", "\u{7f}", "\u{80}", "\u{7ff}", "\u{800}"];
    for a in words {
        for b in words {
            let expected = if a < b {
                Placement::Before
            } else if a == b {
                Placement::Same
            } else {
                Placement::After
            };
            assert_eq!(place(a, b), expected);
        }
    }
}

#[test]
fn same_text_tells_equal_from_different() {
    assert!(same_text("call", "call"));
    assert!(!same_text("call", "calls"));
    assert!(!same_text("call", "cell"));
    assert!(same_text("", ""));
}

#[test]
fn find_first_gives_the_index_in_characters() {
    assert_eq!(find_first("a.b.c", '.'), 1);
    assert_eq!(find_first("abc", '.'), 3);
    assert_eq!(find_first("", '.'), 0);
    assert_eq!(find_first(".x", '.'), 0);
    assert_eq!(find_first("日本.x", '.'), 2);
}

#[test]
fn last_segment_is_what_follows_the_last_separator() {
    assert_eq!(last_segment("src/lib/a.rs", '/'), "a.rs");
    assert_eq!(last_segment("a.rs", '/'), "a.rs");
    assert_eq!(last_segment("src/", '/'), "");
    assert_eq!(last_segment("", '/'), "");
    assert_eq!(last_segment("日本/語.rs", '/'), "語.rs");
}

#[test]
fn replace_char_turns_every_occurrence() {
    assert_eq!(replace_char("a b  c", ' ', '_'), "a_b__c");
    assert_eq!(replace_char("abc", ' ', '_'), "abc");
    assert_eq!(replace_char("", ' ', '_'), "");
    assert_eq!(replace_char(" ", ' ', '_'), "_");
}

#[test]
fn extension_is_what_follows_the_last_dot_of_the_file_name() {
    assert_eq!(extension_of("src/main.rs"), Some("rs".to_string()));
    assert_eq!(extension_of("archive.tar.gz"), Some("gz".to_string()));
    assert_eq!(extension_of("Makefile"), None);
    assert_eq!(extension_of(".bashrc"), None);
    assert_eq!(extension_of("dir.d/file"), None);
    assert_eq!(extension_of("file."), Some(String::new()));
    assert_eq!(extension_of(""), None);
}

#[test]
fn leading_slashes_are_trimmed() {
    assert_eq!(trim_leading_slashes("/usr/lib.rs"), "usr/lib.rs");
    assert_eq!(trim_leading_slashes("//x"), "x");
    assert_eq!(trim_leading_slashes("x/"), "x/");
    assert_eq!(trim_leading_slashes("///"), "");
    assert_eq!(trim_leading_slashes(""), "");
}
