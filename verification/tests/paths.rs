use chumtree::{compare_paths, is_under_prefix, normalize_path, same_text, PathOrder};

#[test]
fn a_path_is_the_same_as_itself() {
    assert_eq!(compare_paths("a/b", "a/b"), PathOrder::Same);
    assert_eq!(compare_paths("", ""), PathOrder::Same);
}

#[test]
fn paths_are_ordered_by_their_bytes() {
    assert_eq!(compare_paths("a", "b"), PathOrder::Before);
    assert_eq!(compare_paths("b", "a"), PathOrder::After);
    assert_eq!(compare_paths("a", "ab"), PathOrder::Before);
    assert_eq!(compare_paths("ab", "a"), PathOrder::After);
    assert_eq!(compare_paths("Z", "a"), PathOrder::Before);
    assert_eq!(compare_paths("z", "\u{e9}"), PathOrder::Before);
}

#[test]
fn a_component_ends_before_any_other_byte() {
    assert_eq!(compare_paths("a/b", "a.b"), PathOrder::Before);
    assert_eq!(compare_paths("a.b", "a/b"), PathOrder::After);
    assert_eq!(compare_paths("a/c", "ab"), PathOrder::Before);
    assert_eq!(compare_paths("a", "a/b"), PathOrder::Before);
    assert_eq!(compare_paths("a/b", "a"), PathOrder::After);
    assert_eq!(compare_paths("dir/x", "dir-old"), PathOrder::Before);
    assert_eq!(compare_paths("dir/x", "dir x"), PathOrder::Before);
}

#[test]
fn the_order_of_paths_is_that_of_their_components() {
    let mut paths = vec!["b", "a.b", "a/c", "a", "a/b/z", "a/b", "a b"];
    paths.sort_by(|x, y| match compare_paths(x, y) {
        PathOrder::Before => std::cmp::Ordering::Less,
        PathOrder::Same => std::cmp::Ordering::Equal,
        PathOrder::After => std::cmp::Ordering::Greater,
    });
    let mut by_components = vec!["b", "a.b", "a/c", "a", "a/b/z", "a/b", "a b"];
    by_components.sort_by(|x, y| {
        let left: Vec<&str> = x.split('/').collect();
        let right: Vec<&str> = y.split('/').collect();
        left.cmp(&right)
    });
    assert_eq!(paths, by_components);
    assert_eq!(paths, vec!["a", "a/b", "a/b/z", "a/c", "a b", "a.b", "b"]);
}

#[test]
fn texts_are_the_same_where_their_characters_are() {
    assert!(same_text("caf\u{e9}", "caf\u{e9}"));
    assert!(!same_text("caf\u{e9}", "cafe\u{301}"));
    assert!(!same_text("a", "ab"));
}

#[test]
fn a_path_lies_under_its_prefix() {
    assert!(is_under_prefix(b"/root/a", b"/root"));
    assert!(is_under_prefix(b"/root/a/b", b"/root"));
    assert!(is_under_prefix(b"/root", b"/root"));
    assert!(is_under_prefix(b"/root/", b"/root"));
    assert!(is_under_prefix(b"/a", b"/"));
    assert!(is_under_prefix(b"dir/a", b"dir/"));
    assert!(is_under_prefix(b"a", b""));
    assert!(is_under_prefix(b"./a", b"."));
}

#[test]
fn a_path_elsewhere_does_not_lie_under_the_prefix() {
    assert!(!is_under_prefix(b"/rootx/a", b"/root"));
    assert!(!is_under_prefix(b"/roo", b"/root"));
    assert!(!is_under_prefix(b"/other/a", b"/root"));
    assert!(!is_under_prefix(b"", b"/root"));
}

#[test]
fn the_key_of_a_path_is_what_follows_the_prefix() {
    assert_eq!(normalize_path(b"/root/a.txt", b"/root").unwrap(), "a.txt");
    assert_eq!(normalize_path(b"/root/sub/a.txt", b"/root").unwrap(), "sub/a.txt");
    assert_eq!(normalize_path(b"/root/sub/a.txt", b"/root/").unwrap(), "sub/a.txt");
    assert_eq!(normalize_path(b"./sub", b".").unwrap(), "sub");
    assert_eq!(normalize_path(b"/a", b"/").unwrap(), "a");
    assert_eq!(normalize_path(b"/root", b"/root").unwrap(), "");
    assert_eq!(normalize_path(b"a/b", b"").unwrap(), "a/b");
}

#[test]
fn the_key_is_composed() {
    let decomposed = "/root/cafe\u{301}.txt";
    assert_eq!(normalize_path(decomposed.as_bytes(), b"/root").unwrap(), "caf\u{e9}.txt");
    assert_ne!(normalize_path(decomposed.as_bytes(), b"/root").unwrap(), "cafe\u{301}.txt");
}

#[test]
fn two_decompositions_of_one_text_have_one_key() {
    let composed = "/root/\u{c5}ngstr\u{f6}m/\u{1e69}";
    let decomposed = "/root/A\u{30a}ngstro\u{308}m/s\u{323}\u{307}";
    let other_order = "/root/A\u{30a}ngstro\u{308}m/s\u{307}\u{323}";
    let key = normalize_path(composed.as_bytes(), b"/root").unwrap();
    assert_eq!(key, "\u{c5}ngstr\u{f6}m/\u{1e69}");
    assert_eq!(normalize_path(decomposed.as_bytes(), b"/root").unwrap(), key);
    assert_eq!(normalize_path(other_order.as_bytes(), b"/root").unwrap(), key);
}

#[test]
fn a_path_that_is_no_text_has_no_key() {
    let path = b"/root/bad\xff.txt";
    let error = normalize_path(path, b"/root").unwrap_err();
    assert_eq!(error.path, path.to_vec());
    let truncated = b"/root/caf\xc3";
    assert_eq!(normalize_path(truncated, b"/root").unwrap_err().path, truncated.to_vec());
}

#[test]
fn only_what_follows_the_prefix_has_to_be_text() {
    assert_eq!(normalize_path(b"/ro\xffot/a.txt", b"/ro\xffot").unwrap(), "a.txt");
}
