use chumtree::{
    concat_hash, serialize_date_time, DirEntry, DirTree, ModTime, Summary, SymlinkMetaData,
};

fn paths(tree: &DirTree) -> Vec<String> {
    (0..tree.len()).map(|index| tree.get_index(index).path.clone()).collect()
}

#[test]
fn a_new_manifest_is_empty() {
    let tree = DirTree::new();
    assert_eq!(tree.len(), 0);
    assert!(tree.get("a").is_none());
    assert_eq!(DirTree::default().len(), 0);
}

#[test]
fn a_new_summary_counts_nothing() {
    let summary = Summary::new();
    assert_eq!(summary.found_dirs, 0);
    assert_eq!(summary.found_symlinks, 0);
    assert_eq!(summary.found_files, 0);
    assert_eq!(summary.files_total_size, 0);
    assert_eq!(Summary::default(), summary);
}

#[test]
fn entries_stand_in_the_order_of_their_paths() {
    let mut tree = DirTree::new();
    for path in ["b", "a.b", "a/c", "a", "a/b/z", "a/b", "a b"] {
        assert!(tree.insert(path.to_string(), DirEntry::Dir));
    }
    assert_eq!(paths(&tree), vec!["a", "a/b", "a/b/z", "a/c", "a b", "a.b", "b"]);
}

#[test]
fn the_order_does_not_depend_on_the_order_of_insertion() {
    let names = ["m", "a", "z/y", "z", "b/c", "b", "\u{e9}", "zz"];
    let mut forward = DirTree::new();
    for name in names {
        forward.insert(name.to_string(), DirEntry::Dir);
    }
    let mut backward = DirTree::new();
    for name in names.iter().rev() {
        backward.insert(name.to_string(), DirEntry::Dir);
    }
    let mut shuffled = DirTree::new();
    for index in [3usize, 7, 0, 5, 2, 6, 1, 4] {
        shuffled.insert(names[index].to_string(), DirEntry::Dir);
    }
    assert_eq!(paths(&forward), paths(&backward));
    assert_eq!(paths(&forward), paths(&shuffled));
    assert_eq!(paths(&forward), vec!["a", "b", "b/c", "m", "z", "z/y", "zz", "\u{e9}"]);
}

#[test]
fn an_entry_is_found_under_its_path() {
    let mut tree = DirTree::new();
    tree.insert("link".to_string(), DirEntry::Symlink { target: b"../target".to_vec() });
    tree.insert("dir".to_string(), DirEntry::Dir);
    let hash = concat_hash(b"abc");
    let mtime = ModTime { secs: 5, nanos: 6 };
    tree.insert("file".to_string(), DirEntry::File { len: 3, mtime, hash });
    assert!(matches!(tree.get("dir"), Some(DirEntry::Dir)));
    match tree.get("link") {
        Some(DirEntry::Symlink { target }) => assert_eq!(target, b"../target"),
        other => panic!("expected a link, got {:?}", other),
    }
    match tree.get("file") {
        Some(DirEntry::File { len, mtime, hash }) => {
            assert_eq!(*len, 3);
            assert_eq!(*mtime, ModTime { secs: 5, nanos: 6 });
            assert_eq!(hash.as_bytes(), concat_hash(b"abc").as_bytes());
        }
        other => panic!("expected a file, got {:?}", other),
    }
    assert!(tree.get("fil").is_none());
    assert!(tree.get("files").is_none());
    assert_eq!(tree.get_index(0).path, "dir");
    assert_eq!(tree.len(), 3);
}

#[test]
fn what_the_manifest_holds_is_never_changed() {
    let mut tree = DirTree::new();
    assert!(tree.insert("a".to_string(), DirEntry::Dir));
    assert!(tree.insert("b".to_string(), DirEntry::Dir));
    assert!(!tree.insert("a".to_string(), DirEntry::Symlink { target: b"t".to_vec() }));
    assert_eq!(tree.len(), 2);
    assert!(matches!(tree.get("a"), Some(DirEntry::Dir)));
    assert_eq!(paths(&tree), vec!["a", "b"]);
}

#[test]
fn a_link_holds_its_target_as_it_is() {
    let link = SymlinkMetaData { target: b"../target".to_vec() };
    assert_eq!(link.target, b"../target");
}

#[test]
fn a_time_on_the_second_is_written_without_a_fraction() {
    assert_eq!(
        serialize_date_time(&ModTime { secs: 0, nanos: 0 }).unwrap(),
        "1970-01-01T00:00:00Z"
    );
    assert_eq!(
        serialize_date_time(&ModTime { secs: 1_600_000_000, nanos: 0 }).unwrap(),
        "2020-09-13T12:26:40Z"
    );
    assert_eq!(
        serialize_date_time(&ModTime { secs: -1, nanos: 0 }).unwrap(),
        "1969-12-31T23:59:59Z"
    );
}

#[test]
fn a_fraction_is_written_where_it_is_not_zero() {
    assert_eq!(
        serialize_date_time(&ModTime { secs: 1, nanos: 500_000_000 }).unwrap(),
        "1970-01-01T00:00:01.500Z"
    );
    assert_eq!(
        serialize_date_time(&ModTime { secs: 1, nanos: 1_000 }).unwrap(),
        "1970-01-01T00:00:01.000001Z"
    );
    assert_eq!(
        serialize_date_time(&ModTime { secs: 1, nanos: 1 }).unwrap(),
        "1970-01-01T00:00:01.000000001Z"
    );
}

#[test]
fn the_text_of_a_time_ends_in_z_and_has_a_point_before_a_fraction() {
    for (secs, nanos) in [(0i64, 0u32), (59, 1), (-5, 999_999_999), (253_402_300_800, 1_000)] {
        let text = serialize_date_time(&ModTime { secs, nanos }).unwrap();
        assert!(text.ends_with('Z'));
        assert_eq!(text.contains('.'), nanos != 0);
    }
    let leap = serialize_date_time(&ModTime { secs: 59, nanos: 1_000_000_000 }).unwrap();
    assert_eq!(leap, "1970-01-01T00:00:60Z");
}

#[test]
fn a_time_beyond_the_calendar_has_no_text() {
    assert!(serialize_date_time(&ModTime { secs: i64::MAX, nanos: 0 }).is_none());
    assert!(serialize_date_time(&ModTime { secs: i64::MIN, nanos: 0 }).is_none());
    assert!(serialize_date_time(&ModTime { secs: 0, nanos: 2_000_000_000 }).is_none());
}
