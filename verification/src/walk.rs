//! The walk over a tree: what is noted of each entry that a directory holds,
//! and what has to be read next.
//!
//! The library reads nothing itself. It is handed what a directory holds,
//! notes the directories in the manifest and lists, as tasks, what is to be
//! read: the directories to descend into, the links and the files. What was
//! read of a link or a file is handed to `record_symlink` and `record_file`.
//!
//! No path stands twice in the manifest, and what stands there is never
//! changed: an entry whose key is already held is passed over, so that the
//! counters always say what the manifest holds.

use crate::fingerprint::ConcatHash;
use crate::globs::glob_set_match;
use crate::options::Options;
use crate::path::{normalize_path, path_key, under_prefix, InvalidPathEncoding};
use crate::summary::{lemma_tally_insert, tallied, tally_of, weight, Summary, Tally};
use crate::tree::{
    after_notes, with_note, DirEntry, DirTree, EntryView, ModTime, SymlinkMetaData,
};
use vstd::prelude::*;
use vstd::slice::slice_to_vec;

verus! {

/// What kind of thing a directory holds under a name.
#[derive(Clone, Copy, Debug, PartialEq, Eq, Structural)]
pub enum EntryKind {
    Dir,
    Symlink,
    File,
    /// A device, a socket, a pipe, or what else is none of the three.
    Other,
}

/// One thing that a directory holds: its path, as the listing gave it, and
/// its kind.
#[derive(Debug)]
pub struct RawEntry {
    pub path: Vec<u8>,
    pub kind: EntryKind,
}

impl View for RawEntry {
    type V = (Seq<u8>, EntryKind);

    open spec fn view(&self) -> (Seq<u8>, EntryKind) {
        (self.path@, self.kind)
    }
}

/// Something that is still to be read.
#[derive(Debug)]
pub enum Task {
    /// List the directory at `path` and visit what it holds.
    ReadDir { path: Vec<u8> },
    /// Read the target of the link at `path` and record it under `key`.
    ReadLink { path: Vec<u8>, key: String },
    /// Read the file at `path` and record it under `key`.
    ReadFile { path: Vec<u8>, key: String },
}

/// A task as a value.
pub enum TaskView {
    ReadDir { path: Seq<u8> },
    ReadLink { path: Seq<u8>, key: Seq<char> },
    ReadFile { path: Seq<u8>, key: Seq<char> },
}

impl View for Task {
    type V = TaskView;

    open spec fn view(&self) -> TaskView {
        match self {
            Task::ReadDir { path } => TaskView::ReadDir { path: path@ },
            Task::ReadLink { path, key } => TaskView::ReadLink { path: path@, key: key@ },
            Task::ReadFile { path, key } => TaskView::ReadFile { path: path@, key: key@ },
        }
    }
}

/// The tasks of a list as values.
pub open spec fn task_views(tasks: Seq<Task>) -> Seq<TaskView> {
    tasks.map_values(|task: Task| task@)
}

/// The entries of a listing as values.
pub open spec fn entry_views(listing: Seq<RawEntry>) -> Seq<(Seq<u8>, EntryKind)> {
    listing.map_values(|entry: RawEntry| entry@)
}

/// An entry is passed over: a pattern excludes it, or the manifest already
/// holds an entry under its key. No path stands twice in a manifest, and what
/// stands there is never changed.
pub open spec fn passed_over(excluded: bool, held: bool) -> bool {
    excluded || held
}

/// An entry is noted at once: it is a directory that is not passed over.
pub open spec fn noted(kind: EntryKind, passed: bool) -> bool {
    !passed && kind is Dir
}

/// What is to be read for an entry: nothing if it is passed over or none of
/// the three kinds.
pub open spec fn task_for(path: Seq<u8>, key: Seq<char>, kind: EntryKind, passed: bool) -> Option<
    TaskView,
> {
    if passed {
        None
    } else {
        match kind {
            EntryKind::Dir => Some(TaskView::ReadDir { path }),
            EntryKind::Symlink => Some(TaskView::ReadLink { path, key }),
            EntryKind::File => Some(TaskView::ReadFile { path, key }),
            EntryKind::Other => None,
        }
    }
}

/// The tasks with the one for an entry added, if there is one.
pub open spec fn with_task(tasks: Seq<TaskView>, task: Option<TaskView>) -> Seq<TaskView> {
    match task {
        Some(task) => tasks.push(task),
        None => tasks,
    }
}

/// Notes one entry of a directory, whose key and whether it is excluded are
/// known. An entry that is excluded, or whose key the manifest already holds,
/// leaves no trace. A directory is put into the manifest and counted, and
/// listing it becomes a task. For a link or a file reading it becomes a task.
/// Anything else is passed over.
pub fn visit_entry(
    summary: &mut Summary,
    dir_tree: &mut DirTree,
    tasks: &mut Vec<Task>,
    path: &[u8],
    key: String,
    kind: EntryKind,
    excluded: bool,
)
    requires
        old(dir_tree).wf(),
        noted(kind, passed_over(excluded, old(dir_tree).map().contains_key(key@))) ==> old(
            summary,
        ).found_dirs < usize::MAX,
    ensures
        final(dir_tree).wf(),
        noted(kind, passed_over(excluded, old(dir_tree).map().contains_key(key@))) ==> {
            &&& final(dir_tree).map() == old(dir_tree).map().insert(key@, EntryView::Dir)
            &&& final(dir_tree)@.len() == old(dir_tree)@.len() + 1
            &&& *final(summary) == (Summary {
                found_dirs: (old(summary).found_dirs + 1) as usize,
                ..*old(summary)
            })
        },
        !noted(kind, passed_over(excluded, old(dir_tree).map().contains_key(key@))) ==> {
            &&& final(dir_tree)@ == old(dir_tree)@
            &&& *final(summary) == *old(summary)
        },
        task_views(final(tasks)@) == with_task(
            task_views(old(tasks)@),
            task_for(
                path@,
                key@,
                kind,
                passed_over(excluded, old(dir_tree).map().contains_key(key@)),
            ),
        ),
        tallied(*old(summary), old(dir_tree)@) ==> tallied(*final(summary), final(dir_tree)@),
{
    if excluded {
        return ;
    }
    let ghost listed = task_views(tasks@);
    let ghost text = key@;
    match kind {
        EntryKind::Dir => {
            let ghost before = dir_tree@;
            if dir_tree.insert(key, DirEntry::Dir) {
                summary.found_dirs = summary.found_dirs + 1;
                tasks.push(Task::ReadDir { path: slice_to_vec(path) });
                proof {
                    assert(task_views(tasks@) =~= listed.push(TaskView::ReadDir { path: path@ }));
                    lemma_tallies_after_insert(before, dir_tree@, (text, EntryView::Dir));
                }
            }
        },
        EntryKind::Symlink => {
            if dir_tree.get(key.as_str()).is_none() {
                tasks.push(Task::ReadLink { path: slice_to_vec(path), key });
                assert(task_views(tasks@) =~= listed.push(
                    TaskView::ReadLink { path: path@, key: text },
                ));
            }
        },
        EntryKind::File => {
            if dir_tree.get(key.as_str()).is_none() {
                tasks.push(Task::ReadFile { path: slice_to_vec(path), key });
                assert(task_views(tasks@) =~= listed.push(
                    TaskView::ReadFile { path: path@, key: text },
                ));
            }
        },
        EntryKind::Other => {},
    }
}

/// An entry put into its place adds its weight to each tally, and one to the
/// number of entries.
proof fn lemma_tallies_after_insert(
    before: Seq<(Seq<char>, EntryView)>,
    after: Seq<(Seq<char>, EntryView)>,
    item: (Seq<char>, EntryView),
)
    requires
        exists|at: int| 0 <= at <= before.len() && after == #[trigger] before.insert(at, item),
    ensures
        after.len() == before.len() + 1,
        forall|tally: Tally| #[trigger]
            tally_of(after, tally) == tally_of(before, tally) + weight(tally, item.1),
{
    let at = choose|at: int| 0 <= at <= before.len() && after == #[trigger] before.insert(at, item);
    assert forall|tally: Tally| #[trigger]
        tally_of(after, tally) == tally_of(before, tally) + weight(tally, item.1) by {
        lemma_tally_insert(before, at, item, tally);
    }
}

/// Records a symbolic link that was read: puts it into the manifest under
/// `key`, with its target as it is, and counts it. Where the manifest already
/// holds an entry under `key`, nothing is recorded and nothing changes.
pub fn record_symlink(
    summary: &mut Summary,
    dir_tree: &mut DirTree,
    key: String,
    link: SymlinkMetaData,
) -> (recorded: bool)
    requires
        old(dir_tree).wf(),
        !old(dir_tree).map().contains_key(key@) ==> old(summary).found_symlinks < usize::MAX,
    ensures
        final(dir_tree).wf(),
        recorded == !old(dir_tree).map().contains_key(key@),
        final(dir_tree).map() == with_note(
            old(dir_tree).map(),
            key@,
            EntryView::Symlink { target: link.target@ },
        ),
        recorded ==> {
            &&& final(dir_tree)@.len() == old(dir_tree)@.len() + 1
            &&& *final(summary) == (Summary {
                found_symlinks: (old(summary).found_symlinks + 1) as usize,
                ..*old(summary)
            })
        },
        !recorded ==> final(dir_tree)@ == old(dir_tree)@ && *final(summary) == *old(summary),
        tallied(*old(summary), old(dir_tree)@) ==> tallied(*final(summary), final(dir_tree)@),
{
    let ghost before = dir_tree@;
    let ghost item = (key@, EntryView::Symlink { target: link.target@ });
    let recorded = dir_tree.insert(key, DirEntry::Symlink { target: link.target });
    if recorded {
        summary.found_symlinks = summary.found_symlinks + 1;
        proof {
            lemma_tallies_after_insert(before, dir_tree@, item);
        }
    }
    recorded
}

/// Records a file that was read: puts it into the manifest under `key`, with
/// its length, the time of its last change and the hash chain of its content,
/// counts it and adds its length to the total. Where the manifest already
/// holds an entry under `key`, nothing is recorded and nothing changes.
pub fn record_file(
    summary: &mut Summary,
    dir_tree: &mut DirTree,
    key: String,
    len: u64,
    mtime: ModTime,
    hash: ConcatHash,
) -> (recorded: bool)
    requires
        old(dir_tree).wf(),
        !old(dir_tree).map().contains_key(key@) ==> old(summary).found_files < usize::MAX && old(
            summary,
        ).files_total_size + len <= u64::MAX,
    ensures
        final(dir_tree).wf(),
        recorded == !old(dir_tree).map().contains_key(key@),
        final(dir_tree).map() == with_note(
            old(dir_tree).map(),
            key@,
            EntryView::File { len, mtime, hash: hash@ },
        ),
        recorded ==> {
            &&& final(dir_tree)@.len() == old(dir_tree)@.len() + 1
            &&& *final(summary) == (Summary {
                found_files: (old(summary).found_files + 1) as usize,
                files_total_size: (old(summary).files_total_size + len) as u64,
                ..*old(summary)
            })
        },
        !recorded ==> final(dir_tree)@ == old(dir_tree)@ && *final(summary) == *old(summary),
        tallied(*old(summary), old(dir_tree)@) ==> tallied(*final(summary), final(dir_tree)@),
{
    let ghost before = dir_tree@;
    let ghost item = (key@, EntryView::File { len, mtime, hash: hash@ });
    let recorded = dir_tree.insert(key, DirEntry::File { len, mtime, hash });
    if recorded {
        summary.found_files = summary.found_files + 1;
        summary.files_total_size = summary.files_total_size + len;
        proof {
            lemma_tallies_after_insert(before, dir_tree@, item);
        }
    }
    recorded
}

/// How far a visit has come: the directories counted, the manifest as a map,
/// and the tasks listed.
pub struct Progress {
    pub dirs: nat,
    pub map: Map<Seq<char>, EntryView>,
    pub tasks: Seq<TaskView>,
}

/// The progress that counters, manifest and tasks stand for.
pub open spec fn progress_of(summary: Summary, dir_tree: DirTree, tasks: Seq<Task>) -> Progress {
    Progress { dirs: summary.found_dirs as nat, map: dir_tree.map(), tasks: task_views(tasks) }
}

/// The progress after one more entry of a directory. Its key comes of its
/// path; the patterns say whether it is excluded, and the manifest whether
/// the key is taken; then it is noted as `visit_entry` does. An entry without
/// a key changes nothing.
pub open spec fn after_entry(
    patterns: Set<Seq<char>>,
    now: Progress,
    entry: (Seq<u8>, EntryKind),
    prefix: Seq<u8>,
) -> Progress {
    match path_key(entry.0, prefix) {
        None => now,
        Some(key) => {
            let passed = passed_over(glob_set_match(patterns, key), now.map.contains_key(key));
            Progress {
                dirs: if noted(entry.1, passed) {
                    now.dirs + 1
                } else {
                    now.dirs
                },
                map: if noted(entry.1, passed) {
                    now.map.insert(key, EntryView::Dir)
                } else {
                    now.map
                },
                tasks: with_task(now.tasks, task_for(entry.0, key, entry.1, passed)),
            }
        },
    }
}

/// The progress after all entries of a listing, one after the other.
pub open spec fn after_listing(
    patterns: Set<Seq<char>>,
    start: Progress,
    listing: Seq<(Seq<u8>, EntryKind)>,
    prefix: Seq<u8>,
) -> Progress
    decreases listing.len(),
{
    if listing.len() == 0 {
        start
    } else {
        after_entry(
            patterns,
            after_listing(patterns, start, listing.drop_last(), prefix),
            listing.last(),
            prefix,
        )
    }
}

/// The first entry of the listing whose path has no key stands at `index`.
pub open spec fn first_unreadable_at(
    listing: Seq<(Seq<u8>, EntryKind)>,
    prefix: Seq<u8>,
    index: int,
) -> bool {
    &&& 0 <= index < listing.len()
    &&& path_key(listing[index].0, prefix) is None
    &&& forall|j: int| 0 <= j < index ==> path_key(#[trigger] listing[j].0, prefix) is Some
}

/// Every path of the listing has a key.
pub open spec fn all_readable(listing: Seq<(Seq<u8>, EntryKind)>, prefix: Seq<u8>) -> bool {
    forall|j: int| 0 <= j < listing.len() ==> path_key(#[trigger] listing[j].0, prefix) is Some
}

/// Visits what a directory of the tree holds. `dir` is the listing of the
/// directory, `prefix` the root that all keys are relative to. Each entry is
/// given its key, tested against the patterns and noted, in the order of the
/// listing.
///
/// The first path that is no text ends the visit with an error: what stood
/// before it in the listing has been noted, nothing of what follows.
///
/// Every directory that is counted is an entry more in the manifest, so that
/// counters that said what the manifest held still do.
pub fn visit_dir_tree(
    options: &Options,
    summary: &mut Summary,
    dir_tree: &mut DirTree,
    tasks: &mut Vec<Task>,
    dir: &Vec<RawEntry>,
    prefix: &[u8],
) -> (visited: Result<(), InvalidPathEncoding>)
    requires
        options.wf(),
        old(dir_tree).wf(),
        forall|j: int| 0 <= j < dir@.len() ==> under_prefix(#[trigger] dir@[j].path@, prefix@),
        old(summary).found_dirs + dir@.len() <= usize::MAX,
    ensures
        final(dir_tree).wf(),
        final(summary).found_symlinks == old(summary).found_symlinks,
        final(summary).found_files == old(summary).found_files,
        final(summary).files_total_size == old(summary).files_total_size,
        match visited {
            Ok(()) => {
                &&& all_readable(entry_views(dir@), prefix@)
                &&& progress_of(*final(summary), *final(dir_tree), final(tasks)@) == after_listing(
                    options.patterns().to_set(),
                    progress_of(*old(summary), *old(dir_tree), old(tasks)@),
                    entry_views(dir@),
                    prefix@,
                )
            },
            Err(error) => exists|index: int|
                {
                    &&& #[trigger] first_unreadable_at(entry_views(dir@), prefix@, index)
                    &&& error.path@ == dir@[index].path@
                    &&& progress_of(*final(summary), *final(dir_tree), final(tasks)@)
                        == after_listing(
                        options.patterns().to_set(),
                        progress_of(*old(summary), *old(dir_tree), old(tasks)@),
                        entry_views(dir@).take(index),
                        prefix@,
                    )
                },
        },
        final(dir_tree)@.len() - old(dir_tree)@.len() == final(summary).found_dirs - old(
            summary,
        ).found_dirs,
        tallied(*old(summary), old(dir_tree)@) ==> tallied(*final(summary), final(dir_tree)@),
{
    let ghost start = progress_of(*summary, *dir_tree, tasks@);
    let ghost listing = entry_views(dir@);
    let ghost first = *summary;
    let ghost entries = dir_tree@;
    let mut at: usize = 0;
    assert(listing.take(0) =~= Seq::<(Seq<u8>, EntryKind)>::empty());
    while at < dir.len()
        invariant
            at <= dir@.len(),
            options.wf(),
            dir_tree.wf(),
            listing == entry_views(dir@),
            first == *old(summary),
            entries == old(dir_tree)@,
            start == progress_of(*old(summary), *old(dir_tree), old(tasks)@),
            forall|j: int| 0 <= j < dir@.len() ==> under_prefix(#[trigger] dir@[j].path@, prefix@),
            forall|j: int| 0 <= j < at ==> path_key(#[trigger] listing[j].0, prefix@) is Some,
            first.found_dirs + dir@.len() <= usize::MAX,
            first.found_dirs <= summary.found_dirs <= first.found_dirs + at,
            summary.found_symlinks == first.found_symlinks,
            summary.found_files == first.found_files,
            summary.files_total_size == first.files_total_size,
            progress_of(*summary, *dir_tree, tasks@) == after_listing(
                options.patterns().to_set(),
                start,
                listing.take(at as int),
                prefix@,
            ),
            dir_tree@.len() - entries.len() == summary.found_dirs - first.found_dirs,
            tallied(first, entries) ==> tallied(*summary, dir_tree@),
        decreases dir@.len() - at,
    {
        let entry = &dir[at];
        assert(listing[at as int] == entry@);
        assert(listing.take(at + 1).drop_last() =~= listing.take(at as int));
        assert(listing.take(at + 1).last() == entry@);
        match normalize_path(entry.path.as_slice(), prefix) {
            Err(error) => {
                assert(first_unreadable_at(listing, prefix@, at as int));
                return Err(error);
            },
            Ok(key) => {
                let excluded = options.excludes(key.as_str());
                visit_entry(
                    summary,
                    dir_tree,
                    tasks,
                    entry.path.as_slice(),
                    key,
                    entry.kind,
                    excluded,
                );
            },
        }
        at = at + 1;
    }
    assert(listing.take(at as int) =~= listing);
    Ok(())
}

/// An entry that a pattern excludes, or whose key is taken, leaves no trace:
/// it is not noted, not counted, and nothing is read for it, so that nothing
/// below an excluded directory is ever visited.
pub proof fn lemma_passed_over_leaves_no_trace(
    patterns: Set<Seq<char>>,
    now: Progress,
    entry: (Seq<u8>, EntryKind),
    prefix: Seq<u8>,
)
    requires
        path_key(entry.0, prefix) matches Some(key) && (glob_set_match(patterns, key)
            || now.map.contains_key(key)),
    ensures
        after_entry(patterns, now, entry, prefix) == now,
{
}

/// Some entry of the listing is noted under `key`: a directory with that key
/// which no pattern excludes.
pub open spec fn noted_under(
    patterns: Set<Seq<char>>,
    listing: Seq<(Seq<u8>, EntryKind)>,
    prefix: Seq<u8>,
    key: Seq<char>,
) -> bool {
    exists|i: int|
        0 <= i < listing.len() && path_key((#[trigger] listing[i]).0, prefix) == Some(key)
            && listing[i].1 is Dir && !glob_set_match(patterns, key)
}

/// What the manifest holds after a visit: what it held before, and a
/// directory under every other key that an entry of the listing is noted
/// under.
pub open spec fn map_after(
    patterns: Set<Seq<char>>,
    start: Map<Seq<char>, EntryView>,
    listing: Seq<(Seq<u8>, EntryKind)>,
    prefix: Seq<u8>,
) -> Map<Seq<char>, EntryView> {
    Map::new(
        |key: Seq<char>| start.contains_key(key) || noted_under(patterns, listing, prefix, key),
        |key: Seq<char>|
            if start.contains_key(key) {
                start[key]
            } else {
                EntryView::Dir
            },
    )
}

/// The manifest after a visit is `map_after`: it depends on which entries the
/// listing holds, not on where in the listing they stand.
pub proof fn lemma_map_after_listing(
    patterns: Set<Seq<char>>,
    start: Progress,
    listing: Seq<(Seq<u8>, EntryKind)>,
    prefix: Seq<u8>,
)
    ensures
        after_listing(patterns, start, listing, prefix).map == map_after(
            patterns,
            start.map,
            listing,
            prefix,
        ),
    decreases listing.len(),
{
    let after = after_listing(patterns, start, listing, prefix);
    let wanted = map_after(patterns, start.map, listing, prefix);
    if listing.len() == 0 {
        assert(after.map =~= wanted);
    } else {
        let shorter = listing.drop_last();
        let last = listing.last();
        lemma_map_after_listing(patterns, start, shorter, prefix);
        let before = after_listing(patterns, start, shorter, prefix);
        assert forall|key: Seq<char>|
            noted_under(patterns, listing, prefix, key) <==> noted_under(
                patterns,
                shorter,
                prefix,
                key,
            ) || (path_key(last.0, prefix) == Some(key) && last.1 is Dir && !glob_set_match(
                patterns,
                key,
            )) by {
            if noted_under(patterns, shorter, prefix, key) {
                let i = choose|i: int|
                    0 <= i < shorter.len() && path_key((#[trigger] shorter[i]).0, prefix) == Some(
                        key,
                    ) && shorter[i].1 is Dir && !glob_set_match(patterns, key);
                assert(listing[i] == shorter[i]);
            }
            if noted_under(patterns, listing, prefix, key) {
                let i = choose|i: int|
                    0 <= i < listing.len() && path_key((#[trigger] listing[i]).0, prefix) == Some(
                        key,
                    ) && listing[i].1 is Dir && !glob_set_match(patterns, key);
                if i < shorter.len() {
                    assert(shorter[i] == listing[i]);
                }
            }
            if path_key(last.0, prefix) == Some(key) && last.1 is Dir && !glob_set_match(
                patterns,
                key,
            ) {
                assert(listing[listing.len() - 1] == last);
            }
        }
        assert forall|key: Seq<char>| after.map.contains_key(key) <==> wanted.contains_key(
            key,
        ) by {
            assert(before.map.contains_key(key) <==> start.map.contains_key(key) || noted_under(
                patterns,
                shorter,
                prefix,
                key,
            ));
        }
        assert forall|key: Seq<char>| after.map.contains_key(key) implies after.map[key]
            == wanted[key] by {
            if before.map.contains_key(key) {
                assert(before.map[key] == if start.map.contains_key(key) {
                    start.map[key]
                } else {
                    EntryView::Dir
                });
            }
        }
        assert(after.map =~= wanted);
    }
}

/// The manifest does not depend on the order in which a directory lists what
/// it holds: two listings of the same entries leave the same entries under
/// the same paths, and so, by `lemma_order_settled`, the same manifest.
pub proof fn lemma_listing_order(
    patterns: Set<Seq<char>>,
    start: Progress,
    one: Seq<(Seq<u8>, EntryKind)>,
    other: Seq<(Seq<u8>, EntryKind)>,
    prefix: Seq<u8>,
)
    requires
        forall|entry: (Seq<u8>, EntryKind)| one.contains(entry) <==> other.contains(entry),
    ensures
        after_listing(patterns, start, one, prefix).map == after_listing(
            patterns,
            start,
            other,
            prefix,
        ).map,
{
    lemma_map_after_listing(patterns, start, one, prefix);
    lemma_map_after_listing(patterns, start, other, prefix);
    assert forall|key: Seq<char>|
        noted_under(patterns, one, prefix, key) <==> noted_under(patterns, other, prefix, key) by {
        if noted_under(patterns, one, prefix, key) {
            let i = choose|i: int|
                0 <= i < one.len() && path_key((#[trigger] one[i]).0, prefix) == Some(key)
                    && one[i].1 is Dir && !glob_set_match(patterns, key);
            assert(one.contains(one[i]));
            let j = choose|j: int| 0 <= j < other.len() && other[j] == one[i];
            assert(path_key(other[j].0, prefix) == Some(key));
        }
        if noted_under(patterns, other, prefix, key) {
            let i = choose|i: int|
                0 <= i < other.len() && path_key((#[trigger] other[i]).0, prefix) == Some(key)
                    && other[i].1 is Dir && !glob_set_match(patterns, key);
            assert(other.contains(other[i]));
            let j = choose|j: int| 0 <= j < one.len() && one[j] == other[i];
            assert(path_key(one[j].0, prefix) == Some(key));
        }
    }
    assert(map_after(patterns, start.map, one, prefix) =~= map_after(
        patterns,
        start.map,
        other,
        prefix,
    ));
}

/// What a visit puts into the manifest: a directory for every entry of the
/// listing that is one and that no pattern excludes, in the order of the
/// listing.
pub open spec fn notes_of(
    patterns: Set<Seq<char>>,
    listing: Seq<(Seq<u8>, EntryKind)>,
    prefix: Seq<u8>,
) -> Seq<(Seq<char>, EntryView)>
    decreases listing.len(),
{
    if listing.len() == 0 {
        Seq::empty()
    } else {
        let before = notes_of(patterns, listing.drop_last(), prefix);
        match path_key(listing.last().0, prefix) {
            Some(key) => if listing.last().1 is Dir && !glob_set_match(patterns, key) {
                before.push((key, EntryView::Dir))
            } else {
                before
            },
            None => before,
        }
    }
}

/// A visit is a run of notes: it leaves in the manifest what putting in its
/// directories one after the other leaves. With `lemma_walk_order` this says
/// of a whole walk, visits and records together, that its manifest does not
/// depend on the order of the listings.
pub proof fn lemma_visit_notes(
    patterns: Set<Seq<char>>,
    start: Progress,
    listing: Seq<(Seq<u8>, EntryKind)>,
    prefix: Seq<u8>,
)
    ensures
        after_listing(patterns, start, listing, prefix).map == after_notes(
            start.map,
            notes_of(patterns, listing, prefix),
        ),
    decreases listing.len(),
{
    if listing.len() > 0 {
        lemma_visit_notes(patterns, start, listing.drop_last(), prefix);
        let before = notes_of(patterns, listing.drop_last(), prefix);
        match path_key(listing.last().0, prefix) {
            Some(key) => {
                if listing.last().1 is Dir && !glob_set_match(patterns, key) {
                    assert(before.push((key, EntryView::Dir)).drop_last() =~= before);
                }
            },
            None => {},
        }
    }
}

} // verus!
