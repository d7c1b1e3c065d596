use chumtree::{
    concat_hash, record_file, record_symlink, visit_dir_tree, visit_entry, DirEntry, DirTree,
    EntryKind, ModTime, Options, RawEntry, Summary, SymlinkMetaData, Task, MEBI,
};

/// A tree held in memory: what each directory lists, where each link points,
/// and what each file holds.
struct Tree {
    dirs: Vec<(&'static str, Vec<(&'static str, EntryKind)>)>,
    links: Vec<(&'static str, &'static str)>,
    files: Vec<(&'static str, Vec<u8>)>,
}

fn listing(tree: &Tree, dir: &[u8], reversed: bool) -> Vec<RawEntry> {
    let names = &tree.dirs.iter().find(|(path, _)| path.as_bytes() == dir).expect("a directory").1;
    let mut entries: Vec<RawEntry> = names
        .iter()
        .map(|(name, kind)| {
            let mut path = dir.to_vec();
            path.push(b'/');
            path.extend_from_slice(name.as_bytes());
            RawEntry { path, kind: *kind }
        })
        .collect();
    if reversed {
        entries.reverse();
    }
    entries
}

fn walk(tree: &Tree, root: &'static str, patterns: &[&str], reversed: bool) -> (Summary, DirTree) {
    let options =
        Options::new(root.to_string(), patterns.iter().map(|p| p.to_string()).collect()).unwrap();
    let mut summary = Summary::new();
    let mut dir_tree = DirTree::new();
    let mut tasks = vec![Task::ReadDir { path: root.as_bytes().to_vec() }];
    while let Some(task) = tasks.pop() {
        match task {
            Task::ReadDir { path } => {
                let dir = listing(tree, &path, reversed);
                visit_dir_tree(
                    &options,
                    &mut summary,
                    &mut dir_tree,
                    &mut tasks,
                    &dir,
                    root.as_bytes(),
                )
                .unwrap();
            }
            Task::ReadLink { path, key } => {
                let target =
                    tree.links.iter().find(|(link, _)| link.as_bytes() == path).expect("a link").1;
                let link = SymlinkMetaData { target: target.as_bytes().to_vec() };
                record_symlink(&mut summary, &mut dir_tree, key, link);
            }
            Task::ReadFile { path, key } => {
                let content =
                    &tree.files.iter().find(|(file, _)| file.as_bytes() == path).expect("a file").1;
                let mtime = ModTime { secs: 1_600_000_000, nanos: 0 };
                record_file(
                    &mut summary,
                    &mut dir_tree,
                    key,
                    content.len() as u64,
                    mtime,
                    concat_hash(content),
                );
            }
        }
    }
    (summary, dir_tree)
}

fn paths(tree: &DirTree) -> Vec<String> {
    (0..tree.len()).map(|index| tree.get_index(index).path.clone()).collect()
}

fn small_tree() -> Tree {
    Tree {
        dirs: vec![
            (
                "/r",
                vec![
                    ("keep.txt", EntryKind::File),
                    ("drop.tmp", EntryKind::File),
                    ("sub", EntryKind::Dir),
                    ("other", EntryKind::Dir),
                    ("pipe", EntryKind::Other),
                    ("link", EntryKind::Symlink),
                ],
            ),
            ("/r/sub", vec![("inner.txt", EntryKind::File), ("deep", EntryKind::Dir)]),
            ("/r/sub/deep", vec![("x.tmp", EntryKind::File)]),
            ("/r/other", vec![("sub", EntryKind::File)]),
        ],
        links: vec![("/r/link", "nowhere")],
        files: vec![
            ("/r/keep.txt", b"keep".to_vec()),
            ("/r/drop.tmp", b"drop it".to_vec()),
            ("/r/sub/inner.txt", b"inner".to_vec()),
            ("/r/sub/deep/x.tmp", b"x".to_vec()),
            ("/r/other/sub", b"not a dir".to_vec()),
        ],
    }
}

#[test]
fn a_file_a_directory_and_a_link() {
    let mut content = vec![0u8; 2 * MEBI + 1];
    for (index, byte) in content.iter_mut().enumerate() {
        *byte = (index % 251) as u8;
    }
    let tree = Tree {
        dirs: vec![
            (
                "/root",
                vec![("a.txt", EntryKind::File), ("b", EntryKind::Dir), ("c", EntryKind::Symlink)],
            ),
            ("/root/b", vec![]),
        ],
        links: vec![("/root/c", "../target")],
        files: vec![("/root/a.txt", content.clone())],
    };
    let (summary, dir_tree) = walk(&tree, "/root", &[], false);
    assert_eq!(summary.found_dirs, 1);
    assert_eq!(summary.found_symlinks, 1);
    assert_eq!(summary.found_files, 1);
    assert_eq!(summary.files_total_size, 2_097_153);
    assert_eq!(paths(&dir_tree), vec!["a.txt", "b", "c"]);
    match dir_tree.get("a.txt") {
        Some(DirEntry::File { len, hash, .. }) => {
            assert_eq!(*len, 2_097_153);
            assert_eq!(hash.as_bytes().len(), 3 * 8);
            assert_eq!(hash.as_bytes()[..8], seahash::hash(&content[..MEBI]).to_le_bytes());
            assert_eq!(hash.as_bytes()[8..16], seahash::hash(&content[..2 * MEBI]).to_le_bytes());
            assert_eq!(hash.as_bytes()[16..], seahash::hash(&content).to_le_bytes());
        }
        other => panic!("expected a file, got {:?}", other),
    }
    assert!(matches!(dir_tree.get("b"), Some(DirEntry::Dir)));
    match dir_tree.get("c") {
        Some(DirEntry::Symlink { target }) => assert_eq!(target, b"../target"),
        other => panic!("expected a link, got {:?}", other),
    }
}

#[test]
fn an_excluded_file_is_left_out() {
    let tree = Tree {
        dirs: vec![("/r", vec![("keep.txt", EntryKind::File), ("drop.tmp", EntryKind::File)])],
        links: vec![],
        files: vec![("/r/keep.txt", b"keep".to_vec()), ("/r/drop.tmp", b"drop".to_vec())],
    };
    let (summary, dir_tree) = walk(&tree, "/r", &["*.tmp"], false);
    assert_eq!(paths(&dir_tree), vec!["keep.txt"]);
    assert_eq!(summary.found_files, 1);
    assert_eq!(summary.files_total_size, 4);
    assert_eq!(summary.found_dirs, 0);
    assert_eq!(summary.found_symlinks, 0);
}

#[test]
fn nothing_below_an_excluded_directory_is_visited() {
    let (summary, dir_tree) = walk(&small_tree(), "/r", &["sub"], false);
    assert!(paths(&dir_tree).iter().all(|path| !path.starts_with("sub/") && path != "sub"));
    assert_eq!(
        paths(&dir_tree),
        vec!["drop.tmp", "keep.txt", "link", "other", "other/sub"]
    );
    assert_eq!(summary.found_dirs, 1);
    assert_eq!(summary.found_files, 3);
    assert_eq!(summary.found_symlinks, 1);
}

#[test]
fn the_whole_tree_is_noted_without_patterns() {
    let (summary, dir_tree) = walk(&small_tree(), "/r", &[], false);
    assert_eq!(
        paths(&dir_tree),
        vec![
            "drop.tmp",
            "keep.txt",
            "link",
            "other",
            "other/sub",
            "sub",
            "sub/deep",
            "sub/deep/x.tmp",
            "sub/inner.txt"
        ]
    );
    assert_eq!(summary.found_dirs, 3);
    assert_eq!(summary.found_symlinks, 1);
    assert_eq!(summary.found_files, 5);
    assert_eq!(summary.files_total_size, 4 + 7 + 5 + 1 + 9);
}

#[test]
fn the_counters_say_what_the_manifest_holds() {
    for patterns in [&[][..], &["*.tmp"][..], &["sub"][..], &["**/deep", "link"][..]] {
        let (summary, dir_tree) = walk(&small_tree(), "/r", patterns, false);
        let mut dirs = 0;
        let mut links = 0;
        let mut files = 0;
        let mut bytes = 0;
        for index in 0..dir_tree.len() {
            match &dir_tree.get_index(index).entry {
                DirEntry::Dir => dirs += 1,
                DirEntry::Symlink { .. } => links += 1,
                DirEntry::File { len, .. } => {
                    files += 1;
                    bytes += *len;
                }
            }
        }
        assert_eq!(summary.found_dirs, dirs);
        assert_eq!(summary.found_symlinks, links);
        assert_eq!(summary.found_files, files);
        assert_eq!(summary.files_total_size, bytes);
        assert_eq!(
            summary.found_dirs + summary.found_symlinks + summary.found_files,
            dir_tree.len()
        );
    }
}

#[test]
fn the_manifest_does_not_depend_on_the_order_of_the_listings() {
    let (summary, dir_tree) = walk(&small_tree(), "/r", &["*.tmp"], false);
    let (other_summary, other_tree) = walk(&small_tree(), "/r", &["*.tmp"], true);
    assert_eq!(paths(&dir_tree), paths(&other_tree));
    assert_eq!(summary, other_summary);
    for index in 0..dir_tree.len() {
        let (one, other) = (dir_tree.get_index(index), other_tree.get_index(index));
        assert_eq!(format!("{:?}", one.entry), format!("{:?}", other.entry));
    }
}

#[test]
fn a_visit_lists_what_is_to_be_read() {
    let options = Options::new("/r".to_string(), vec!["skip*".to_string()]).unwrap();
    let mut summary = Summary::new();
    let mut dir_tree = DirTree::new();
    let mut tasks = Vec::new();
    let dir = vec![
        RawEntry { path: b"/r/d".to_vec(), kind: EntryKind::Dir },
        RawEntry { path: b"/r/skipped".to_vec(), kind: EntryKind::Dir },
        RawEntry { path: b"/r/cafe\xcc\x81".to_vec(), kind: EntryKind::File },
        RawEntry { path: b"/r/l".to_vec(), kind: EntryKind::Symlink },
        RawEntry { path: b"/r/socket".to_vec(), kind: EntryKind::Other },
    ];
    visit_dir_tree(&options, &mut summary, &mut dir_tree, &mut tasks, &dir, b"/r").unwrap();
    assert_eq!(summary, Summary { found_dirs: 1, ..Summary::new() });
    assert_eq!(paths(&dir_tree), vec!["d"]);
    assert_eq!(tasks.len(), 3);
    assert!(matches!(&tasks[0], Task::ReadDir { path } if path == b"/r/d"));
    assert!(matches!(&tasks[1], Task::ReadFile { path, key }
        if path == b"/r/cafe\xcc\x81" && key == "caf\u{e9}"));
    assert!(matches!(&tasks[2], Task::ReadLink { path, key } if path == b"/r/l" && key == "l"));
}

#[test]
fn a_path_that_is_no_text_ends_the_visit() {
    let options = Options::new("/r".to_string(), Vec::new()).unwrap();
    let mut summary = Summary::new();
    let mut dir_tree = DirTree::new();
    let mut tasks = Vec::new();
    let dir = vec![
        RawEntry { path: b"/r/first".to_vec(), kind: EntryKind::Dir },
        RawEntry { path: b"/r/b\xffd".to_vec(), kind: EntryKind::File },
        RawEntry { path: b"/r/last".to_vec(), kind: EntryKind::Dir },
    ];
    let error = visit_dir_tree(&options, &mut summary, &mut dir_tree, &mut tasks, &dir, b"/r")
        .unwrap_err();
    assert_eq!(error.path, b"/r/b\xffd".to_vec());
    assert_eq!(paths(&dir_tree), vec!["first"]);
    assert_eq!(summary.found_dirs, 1);
    assert_eq!(tasks.len(), 1);
}

#[test]
fn an_excluded_entry_leaves_no_trace() {
    let mut summary = Summary::new();
    let mut dir_tree = DirTree::new();
    let mut tasks = Vec::new();
    for kind in [EntryKind::Dir, EntryKind::Symlink, EntryKind::File, EntryKind::Other] {
        visit_entry(&mut summary, &mut dir_tree, &mut tasks, b"/r/x", "x".to_string(), kind, true);
    }
    assert_eq!(summary, Summary::new());
    assert_eq!(dir_tree.len(), 0);
    assert!(tasks.is_empty());
}

#[test]
fn an_entry_of_another_kind_is_passed_over() {
    let mut summary = Summary::new();
    let mut dir_tree = DirTree::new();
    let mut tasks = Vec::new();
    visit_entry(
        &mut summary,
        &mut dir_tree,
        &mut tasks,
        b"/r/fifo",
        "fifo".to_string(),
        EntryKind::Other,
        false,
    );
    assert_eq!(summary, Summary::new());
    assert_eq!(dir_tree.len(), 0);
    assert!(tasks.is_empty());
}

#[test]
fn a_directory_is_noted_at_once() {
    let mut summary = Summary::new();
    let mut dir_tree = DirTree::new();
    let mut tasks = Vec::new();
    visit_entry(
        &mut summary,
        &mut dir_tree,
        &mut tasks,
        b"/r/d",
        "d".to_string(),
        EntryKind::Dir,
        false,
    );
    assert_eq!(summary.found_dirs, 1);
    assert!(matches!(dir_tree.get("d"), Some(DirEntry::Dir)));
    assert!(matches!(&tasks[..], [Task::ReadDir { path }] if path == b"/r/d"));
}

#[test]
fn a_recorded_file_adds_its_length() {
    let mut summary = Summary::new();
    let mut dir_tree = DirTree::new();
    let mtime = ModTime { secs: 7, nanos: 8 };
    record_file(&mut summary, &mut dir_tree, "a".to_string(), 10, mtime, concat_hash(b"0123456789"));
    record_file(&mut summary, &mut dir_tree, "b".to_string(), 0, mtime, concat_hash(b""));
    record_file(&mut summary, &mut dir_tree, "c".to_string(), 5, mtime, concat_hash(b"01234"));
    assert_eq!(summary.found_files, 3);
    assert_eq!(summary.files_total_size, 15);
    assert_eq!(dir_tree.len(), 3);
    match dir_tree.get("b") {
        Some(DirEntry::File { len, hash, .. }) => {
            assert_eq!(*len, 0);
            assert!(hash.as_bytes().is_empty());
        }
        other => panic!("expected a file, got {:?}", other),
    }
}

#[test]
fn a_broken_link_is_recorded_as_it_is() {
    let mut summary = Summary::new();
    let mut dir_tree = DirTree::new();
    let link = SymlinkMetaData { target: b"/does/not/exist/caf\xff".to_vec() };
    record_symlink(&mut summary, &mut dir_tree, "dangling".to_string(), link);
    assert_eq!(summary.found_symlinks, 1);
    match dir_tree.get("dangling") {
        Some(DirEntry::Symlink { target }) => assert_eq!(target, b"/does/not/exist/caf\xff"),
        other => panic!("expected a link, got {:?}", other),
    }
}

#[test]
fn of_two_names_with_one_key_the_first_is_noted() {
    let options = Options::new("/r".to_string(), Vec::new()).unwrap();
    let mut summary = Summary::new();
    let mut dir_tree = DirTree::new();
    let mut tasks = Vec::new();
    let dir = vec![
        RawEntry { path: "/r/caf\u{e9}".as_bytes().to_vec(), kind: EntryKind::Dir },
        RawEntry { path: "/r/cafe\u{301}".as_bytes().to_vec(), kind: EntryKind::Dir },
    ];
    visit_dir_tree(&options, &mut summary, &mut dir_tree, &mut tasks, &dir, b"/r").unwrap();
    assert_eq!(summary.found_dirs, 1);
    assert_eq!(paths(&dir_tree), vec!["caf\u{e9}"]);
    assert!(matches!(&tasks[..], [Task::ReadDir { path }] if path == "/r/caf\u{e9}".as_bytes()));
}

#[test]
fn an_entry_under_a_held_key_leaves_no_trace() {
    let mut summary = Summary::new();
    let mut dir_tree = DirTree::new();
    let mut tasks = Vec::new();
    let mtime = ModTime { secs: 1, nanos: 0 };
    assert!(record_file(&mut summary, &mut dir_tree, "x".to_string(), 5, mtime, concat_hash(b"12345")));
    for kind in [EntryKind::Dir, EntryKind::Symlink, EntryKind::File, EntryKind::Other] {
        visit_entry(&mut summary, &mut dir_tree, &mut tasks, b"/r/x", "x".to_string(), kind, false);
    }
    assert_eq!(summary, Summary { found_files: 1, files_total_size: 5, ..Summary::new() });
    assert_eq!(dir_tree.len(), 1);
    assert!(matches!(dir_tree.get("x"), Some(DirEntry::File { len: 5, .. })));
    assert!(tasks.is_empty());
}

#[test]
fn a_second_file_under_one_key_is_not_recorded() {
    let mut summary = Summary::new();
    let mut dir_tree = DirTree::new();
    let mtime = ModTime { secs: 1, nanos: 0 };
    assert!(record_file(&mut summary, &mut dir_tree, "x".to_string(), 5, mtime, concat_hash(b"12345")));
    assert!(!record_file(&mut summary, &mut dir_tree, "x".to_string(), 7, mtime, concat_hash(b"1234567")));
    assert_eq!(summary.found_files, 1);
    assert_eq!(summary.files_total_size, 5);
    assert_eq!(dir_tree.len(), 1);
    match dir_tree.get("x") {
        Some(DirEntry::File { len, hash, .. }) => {
            assert_eq!(*len, 5);
            assert_eq!(hash.as_bytes(), concat_hash(b"12345").as_bytes());
        }
        other => panic!("expected a file, got {:?}", other),
    }
}

#[test]
fn a_second_link_under_one_key_is_not_recorded() {
    let mut summary = Summary::new();
    let mut dir_tree = DirTree::new();
    let first = SymlinkMetaData { target: b"one".to_vec() };
    let second = SymlinkMetaData { target: b"two".to_vec() };
    assert!(record_symlink(&mut summary, &mut dir_tree, "l".to_string(), first));
    assert!(!record_symlink(&mut summary, &mut dir_tree, "l".to_string(), second));
    assert_eq!(summary.found_symlinks, 1);
    assert_eq!(dir_tree.len(), 1);
    assert!(matches!(dir_tree.get("l"), Some(DirEntry::Symlink { target }) if target == b"one"));
}

#[test]
fn the_counters_say_what_the_manifest_holds_where_keys_repeat() {
    let tree = Tree {
        dirs: vec![
            (
                "/r",
                vec![
                    ("caf\u{e9}", EntryKind::File),
                    ("cafe\u{301}", EntryKind::File),
                    ("d\u{e9}", EntryKind::Dir),
                    ("de\u{301}", EntryKind::Dir),
                    ("l\u{e9}", EntryKind::Symlink),
                    ("le\u{301}", EntryKind::Symlink),
                ],
            ),
            ("/r/d\u{e9}", vec![]),
            ("/r/de\u{301}", vec![]),
        ],
        links: vec![("/r/l\u{e9}", "a"), ("/r/le\u{301}", "b")],
        files: vec![("/r/caf\u{e9}", b"12345".to_vec()), ("/r/cafe\u{301}", b"1234567".to_vec())],
    };
    for reversed in [false, true] {
        let (summary, dir_tree) = walk(&tree, "/r", &[], reversed);
        assert_eq!(paths(&dir_tree), vec!["caf\u{e9}", "d\u{e9}", "l\u{e9}"]);
        assert_eq!(summary.found_dirs, 1);
        assert_eq!(summary.found_symlinks, 1);
        assert_eq!(summary.found_files, 1);
        match dir_tree.get("caf\u{e9}") {
            Some(DirEntry::File { len, .. }) => assert_eq!(summary.files_total_size, *len),
            other => panic!("expected a file, got {:?}", other),
        }
    }
}
