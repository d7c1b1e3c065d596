//! The manifest: the entries of a tree, each under the text of its path, in
//! the order of their paths.

use crate::fingerprint::ConcatHash;
use crate::path::{
    compare_paths, lemma_before_asymmetric, lemma_before_transitive, path_before, PathOrder,
};
use crate::time::{rfc3339, rfc3339_text};
use vstd::prelude::*;

verus! {

/// A time of last change: seconds and nanoseconds since the start of 1970,
/// in UTC.
#[derive(Clone, Copy, Debug, PartialEq, Eq, Structural)]
pub struct ModTime {
    pub secs: i64,
    pub nanos: u32,
}

/// The text of a time of last change: the date and the time of day in UTC as
/// RFC 3339 writes them, with the fraction of the second only where it is not
/// zero. A time outside the years that can be written has no text.
pub fn serialize_date_time(dt: &ModTime) -> (text: Option<String>)
    ensures
        text matches Some(written) ==> rfc3339_text(dt.secs, dt.nanos) == Some(written@),
        text is None ==> rfc3339_text(dt.secs, dt.nanos) is None,
        text matches Some(written) ==> written@.len() > 0 && written@.last() == 'Z',
        text matches Some(written) ==> (written@.contains('.') <==> dt.nanos % 1_000_000_000 != 0),
{
    rfc3339(dt.secs, dt.nanos)
}

/// What a symbolic link holds.
#[derive(Debug)]
pub struct SymlinkMetaData {
    /// The target of the link, as it was read: not resolved, not normalized.
    pub target: Vec<u8>,
}

/// What the manifest notes of one path.
#[derive(Debug)]
pub enum DirEntry {
    Dir,
    Symlink {
        /// The target of the link, as it was read.
        target: Vec<u8>,
    },
    File {
        /// The length in bytes when the file was read.
        len: u64,
        /// The time of the last change.
        mtime: ModTime,
        /// The hash chain of the content.
        hash: ConcatHash,
    },
}

/// An entry as a value: byte sequences in place of vectors.
pub enum EntryView {
    Dir,
    Symlink { target: Seq<u8> },
    File { len: u64, mtime: ModTime, hash: Seq<u8> },
}

impl View for DirEntry {
    type V = EntryView;

    open spec fn view(&self) -> EntryView {
        match self {
            DirEntry::Dir => EntryView::Dir,
            DirEntry::Symlink { target } => EntryView::Symlink { target: target@ },
            DirEntry::File { len, mtime, hash } => EntryView::File {
                len: *len,
                mtime: *mtime,
                hash: hash@,
            },
        }
    }
}

/// A path and its entry.
#[derive(Debug)]
pub struct Node {
    pub path: String,
    pub entry: DirEntry,
}

impl View for Node {
    type V = (Seq<char>, EntryView);

    open spec fn view(&self) -> (Seq<char>, EntryView) {
        (self.path@, self.entry@)
    }
}

/// A manifest with an entry put under a key that it does not hold yet. Under
/// a key that it holds nothing changes.
pub open spec fn with_note(
    map: Map<Seq<char>, EntryView>,
    key: Seq<char>,
    entry: EntryView,
) -> Map<Seq<char>, EntryView> {
    if map.contains_key(key) {
        map
    } else {
        map.insert(key, entry)
    }
}

/// The entries are in the order of their paths. No path then occurs twice.
pub open spec fn sorted(entries: Seq<(Seq<char>, EntryView)>) -> bool {
    forall|i: int, j: int|
        0 <= i < j < entries.len() ==> path_before(#[trigger] entries[i].0, #[trigger] entries[j].0)
}

/// Some entry stands under `path`.
pub open spec fn has_path(entries: Seq<(Seq<char>, EntryView)>, path: Seq<char>) -> bool {
    exists|i: int| 0 <= i < entries.len() && #[trigger] entries[i].0 == path
}

/// Where the entry of `path` stands.
pub open spec fn index_of(entries: Seq<(Seq<char>, EntryView)>, path: Seq<char>) -> int {
    choose|i: int| 0 <= i < entries.len() && #[trigger] entries[i].0 == path
}

/// The entries as a map from path to entry.
pub open spec fn as_map(entries: Seq<(Seq<char>, EntryView)>) -> Map<Seq<char>, EntryView> {
    Map::new(|path: Seq<char>| has_path(entries, path), |path: Seq<char>| entries[index_of(entries, path)].1)
}

/// In sorted entries a path stands at one place only.
pub proof fn lemma_one_place(entries: Seq<(Seq<char>, EntryView)>, i: int, j: int)
    requires
        sorted(entries),
        0 <= i < entries.len(),
        0 <= j < entries.len(),
        entries[i].0 == entries[j].0,
    ensures
        i == j,
{
    if i < j {
        lemma_before_asymmetric(entries[i].0, entries[j].0);
    } else if j < i {
        lemma_before_asymmetric(entries[j].0, entries[i].0);
    }
}

/// The map of sorted entries holds each entry under its path.
pub proof fn lemma_map_holds(entries: Seq<(Seq<char>, EntryView)>, i: int)
    requires
        sorted(entries),
        0 <= i < entries.len(),
    ensures
        as_map(entries).contains_key(entries[i].0),
        as_map(entries)[entries[i].0] == entries[i].1,
{
    let path = entries[i].0;
    assert(has_path(entries, path));
    lemma_one_place(entries, i, index_of(entries, path));
}

/// The manifest of a tree: its entries in the order of their paths.
#[derive(Debug)]
pub struct DirTree {
    nodes: Vec<Node>,
}

impl View for DirTree {
    type V = Seq<(Seq<char>, EntryView)>;

    closed spec fn view(&self) -> Seq<(Seq<char>, EntryView)> {
        self.nodes@.map_values(|node: Node| node@)
    }
}

impl Default for DirTree {
    /// A manifest without entries.
    fn default() -> (tree: DirTree)
        ensures
            tree.wf(),
            tree@ == Seq::<(Seq<char>, EntryView)>::empty(),
    {
        DirTree::new()
    }
}

impl DirTree {
    /// The entries are in the order of their paths.
    pub open spec fn wf(&self) -> bool {
        sorted(self@)
    }

    /// The entries as a map from path to entry.
    pub open spec fn map(&self) -> Map<Seq<char>, EntryView> {
        as_map(self@)
    }

    /// A manifest without entries.
    pub fn new() -> (tree: DirTree)
        ensures
            tree.wf(),
            tree@ == Seq::<(Seq<char>, EntryView)>::empty(),
    {
        let tree = DirTree { nodes: Vec::new() };
        assert(tree@ =~= Seq::<(Seq<char>, EntryView)>::empty());
        tree
    }

    /// The number of entries.
    pub fn len(&self) -> (count: usize)
        ensures
            count == self@.len(),
    {
        self.nodes.len()
    }

    /// The entry at a place in the order of paths.
    pub fn get_index(&self, index: usize) -> (node: &Node)
        requires
            index < self@.len(),
        ensures
            node@ == self@[index as int],
    {
        &self.nodes[index]
    }

    /// Finds the place of `path`: where its entry stands, or where it would
    /// have to stand.
    fn locate(&self, path: &str) -> (place: (usize, bool))
        requires
            self.wf(),
        ensures
            place.0 <= self@.len(),
            place.1 ==> place.0 < self@.len() && self@[place.0 as int].0 == path@,
            !place.1 ==> !has_path(self@, path@),
            forall|j: int| 0 <= j < place.0 ==> path_before(#[trigger] self@[j].0, path@),
            forall|j: int|
                place.0 + (if place.1 { 1int } else { 0 }) <= j < self@.len() ==> path_before(
                    path@,
                    #[trigger] self@[j].0,
                ),
    {
        let mut low: usize = 0;
        let mut high: usize = self.nodes.len();
        while low < high
            invariant
                self.wf(),
                low <= high <= self@.len(),
                self@.len() == self.nodes@.len(),
                forall|j: int| 0 <= j < low ==> path_before(#[trigger] self@[j].0, path@),
                forall|j: int| high <= j < self@.len() ==> path_before(path@, #[trigger] self@[j].0),
            decreases high - low,
        {
            let middle: usize = low + (high - low) / 2;
            let node = &self.nodes[middle];
            assert(node@ == self@[middle as int]);
            match compare_paths(node.path.as_str(), path) {
                PathOrder::Same => {
                    proof {
                        assert forall|j: int| middle < j < self@.len() implies path_before(
                            path@,
                            #[trigger] self@[j].0,
                        ) by {
                            assert(path_before(self@[middle as int].0, self@[j].0));
                        }
                    }
                    return (middle, true);
                },
                PathOrder::Before => {
                    proof {
                        assert forall|j: int| 0 <= j < middle + 1 implies path_before(
                            #[trigger] self@[j].0,
                            path@,
                        ) by {
                            if j < middle {
                                assert(path_before(self@[j].0, self@[middle as int].0));
                                lemma_before_transitive(self@[j].0, self@[middle as int].0, path@);
                            }
                        }
                    }
                    low = middle + 1;
                },
                PathOrder::After => {
                    proof {
                        crate::path::lemma_before_total(node.path@, path@);
                        assert forall|j: int| middle <= j < self@.len() implies path_before(
                            path@,
                            #[trigger] self@[j].0,
                        ) by {
                            if middle < j {
                                assert(path_before(self@[middle as int].0, self@[j].0));
                                lemma_before_transitive(path@, self@[middle as int].0, self@[j].0);
                            }
                        }
                    }
                    high = middle;
                },
            }
        }
        proof {
            if has_path(self@, path@) {
                let i = index_of(self@, path@);
                if i < low {
                    lemma_before_asymmetric(self@[i].0, path@);
                } else {
                    lemma_before_asymmetric(path@, self@[i].0);
                }
            }
        }
        (low, false)
    }

    /// The entry under `path`, if there is one.
    pub fn get(&self, path: &str) -> (entry: Option<&DirEntry>)
        requires
            self.wf(),
        ensures
            match entry {
                Some(found) => self.map().contains_key(path@) && self.map()[path@] == found@,
                None => !self.map().contains_key(path@),
            },
    {
        let (index, found) = self.locate(path);
        if found {
            proof {
                lemma_map_holds(self@, index as int);
            }
            Some(&self.nodes[index].entry)
        } else {
            None
        }
    }

    /// Puts `entry` under `path`, at its place in the order, unless an entry
    /// stands there already: what the manifest holds is never changed. Says
    /// whether the entry was put in.
    pub fn insert(&mut self, path: String, entry: DirEntry) -> (inserted: bool)
        requires
            old(self).wf(),
        ensures
            final(self).wf(),
            inserted == !old(self).map().contains_key(path@),
            final(self).map() == with_note(old(self).map(), path@, entry@),
            inserted ==> exists|at: int|
                0 <= at <= old(self)@.len() && final(self)@ == #[trigger] old(self)@.insert(
                    at,
                    (path@, entry@),
                ),
            !inserted ==> final(self)@ == old(self)@,
    {
        let (index, found) = self.locate(path.as_str());
        if found {
            proof {
                lemma_map_holds(self@, index as int);
            }
            return false;
        }
        let ghost before = self@;
        let ghost key = path@;
        let ghost value = entry@;
        self.nodes.insert(index, Node { path, entry });
        proof {
            let after = self@;
            let i = index as int;
            assert(after =~= before.insert(i, (key, value)));
            assert(sorted(after)) by {
                assert forall|a: int, b: int| 0 <= a < b < after.len() implies path_before(
                    #[trigger] after[a].0,
                    #[trigger] after[b].0,
                ) by {
                    if a < i && b > i {
                        assert(path_before(before[a].0, before[b - 1].0));
                    } else if a < i && b < i {
                        assert(path_before(before[a].0, before[b].0));
                    } else if a > i {
                        assert(path_before(before[a - 1].0, before[b - 1].0));
                    }
                }
            }
            lemma_map_of_insert(before, i, key, value);
        }
        true
    }
}

/// Putting an entry with a new path into its place in the order adds it to
/// the map and changes nothing else.
pub proof fn lemma_map_of_insert(
    entries: Seq<(Seq<char>, EntryView)>,
    i: int,
    path: Seq<char>,
    entry: EntryView,
)
    requires
        sorted(entries),
        0 <= i <= entries.len(),
        sorted(entries.insert(i, (path, entry))),
    ensures
        as_map(entries.insert(i, (path, entry))) == as_map(entries).insert(path, entry),
{
    let after = entries.insert(i, (path, entry));
    let left = as_map(after);
    let right = as_map(entries).insert(path, entry);
    assert(after[i] == (path, entry));
    assert forall|p: Seq<char>| left.contains_key(p) <==> right.contains_key(p) by {
        if has_path(after, p) {
            let j = index_of(after, p);
            if j < i {
                assert(entries[j].0 == p);
            } else if j > i {
                assert(entries[j - 1].0 == p);
            }
        }
        if has_path(entries, p) {
            let j = index_of(entries, p);
            if j < i {
                assert(after[j].0 == p);
            } else {
                assert(after[j + 1].0 == p);
            }
        }
        if p == path {
            assert(after[i].0 == p);
        }
    }
    assert forall|p: Seq<char>| left.contains_key(p) implies left[p] == right[p] by {
        let j = index_of(after, p);
        lemma_map_holds(after, j);
        if j != i {
            if p == path {
                lemma_one_place(after, i, j);
            }
            let k = if j < i {
                j
            } else {
                j - 1
            };
            assert(entries[k] == after[j]);
            lemma_map_holds(entries, k);
        }
    }
    assert(left =~= right);
}


/// Sorted entries without their first are sorted, and hold what the map
/// holds without the first path.
pub proof fn lemma_map_of_rest(entries: Seq<(Seq<char>, EntryView)>)
    requires
        sorted(entries),
        entries.len() > 0,
    ensures
        sorted(entries.drop_first()),
        as_map(entries.drop_first()) == as_map(entries).remove(entries[0].0),
{
    let rest = entries.drop_first();
    assert(sorted(rest)) by {
        assert forall|a: int, b: int| 0 <= a < b < rest.len() implies path_before(
            #[trigger] rest[a].0,
            #[trigger] rest[b].0,
        ) by {
            assert(path_before(entries[a + 1].0, entries[b + 1].0));
        }
    }
    let left = as_map(rest);
    let right = as_map(entries).remove(entries[0].0);
    assert forall|p: Seq<char>| left.contains_key(p) <==> right.contains_key(p) by {
        if has_path(rest, p) {
            let j = index_of(rest, p);
            assert(entries[j + 1].0 == p);
            if p == entries[0].0 {
                lemma_one_place(entries, 0, j + 1);
            }
        }
        if has_path(entries, p) && p != entries[0].0 {
            let j = index_of(entries, p);
            assert(rest[j - 1].0 == p);
        }
    }
    assert forall|p: Seq<char>| left.contains_key(p) implies left[p] == right[p] by {
        let j = index_of(rest, p);
        lemma_map_holds(rest, j);
        assert(entries[j + 1] == rest[j]);
        lemma_map_holds(entries, j + 1);
    }
    assert(left =~= right);
}

/// The order of a manifest is settled by what it holds: sorted entries that
/// hold the same entries under the same paths stand in the same order,
/// whatever the order was in which they were put in.
pub proof fn lemma_order_settled(
    first: Seq<(Seq<char>, EntryView)>,
    second: Seq<(Seq<char>, EntryView)>,
)
    requires
        sorted(first),
        sorted(second),
        as_map(first) == as_map(second),
    ensures
        first == second,
    decreases first.len(),
{
    if first.len() == 0 {
        if second.len() > 0 {
            lemma_map_holds(second, 0);
            assert(has_path(first, second[0].0));
        }
        assert(first =~= second);
    } else {
        lemma_map_holds(first, 0);
        assert(has_path(second, first[0].0));
        let j = index_of(second, first[0].0);
        lemma_map_holds(second, 0);
        assert(has_path(first, second[0].0));
        let i = index_of(first, second[0].0);
        if j > 0 {
            assert(path_before(second[0].0, second[j].0));
            if i > 0 {
                assert(path_before(first[0].0, first[i].0));
            }
            lemma_before_asymmetric(second[0].0, second[j].0);
        }
        assert(first[0] == second[0]);
        lemma_map_of_rest(first);
        lemma_map_of_rest(second);
        lemma_order_settled(first.drop_first(), second.drop_first());
        assert(first =~= seq![first[0]] + first.drop_first());
        assert(second =~= seq![second[0]] + second.drop_first());
    }
}

/// Two entries under different paths can be put in in either order: once
/// both are in, the manifest is the same, entry for entry.
pub proof fn lemma_insert_order(
    one: DirTree,
    other: DirTree,
    start: Map<Seq<char>, EntryView>,
    a: (Seq<char>, EntryView),
    b: (Seq<char>, EntryView),
)
    requires
        one.wf(),
        other.wf(),
        a.0 != b.0,
        one.map() == start.insert(a.0, a.1).insert(b.0, b.1),
        other.map() == start.insert(b.0, b.1).insert(a.0, a.1),
    ensures
        one@ == other@,
{
    assert(start.insert(a.0, a.1).insert(b.0, b.1) =~= start.insert(b.0, b.1).insert(a.0, a.1));
    lemma_order_settled(one@, other@);
}

/// The manifest after a run of notes: each is put in, in its turn, unless
/// its key is held by then.
pub open spec fn after_notes(
    start: Map<Seq<char>, EntryView>,
    notes: Seq<(Seq<char>, EntryView)>,
) -> Map<Seq<char>, EntryView>
    decreases notes.len(),
{
    if notes.len() == 0 {
        start
    } else {
        with_note(after_notes(start, notes.drop_last()), notes.last().0, notes.last().1)
    }
}

/// No two notes stand under the same key.
pub open spec fn keys_differ(notes: Seq<(Seq<char>, EntryView)>) -> bool {
    forall|i: int, j: int| 0 <= i < j < notes.len() ==> (#[trigger] notes[i]).0 != (#[trigger] notes[j]).0
}

/// What a run of notes leaves: what was held before, as it was, and every
/// note under a key that was not held. Where no two notes share a key, each of
/// them stands under its key.
pub proof fn lemma_after_notes(
    start: Map<Seq<char>, EntryView>,
    notes: Seq<(Seq<char>, EntryView)>,
)
    ensures
        forall|key: Seq<char>| #[trigger]
            after_notes(start, notes).contains_key(key) <==> start.contains_key(key) || has_path(
                notes,
                key,
            ),
        forall|key: Seq<char>|
            start.contains_key(key) ==> #[trigger] after_notes(start, notes)[key] == start[key],
        keys_differ(notes) ==> forall|i: int|
            0 <= i < notes.len() && !start.contains_key((#[trigger] notes[i]).0) ==> after_notes(
                start,
                notes,
            )[notes[i].0] == notes[i].1,
    decreases notes.len(),
{
    if notes.len() > 0 {
        let shorter = notes.drop_last();
        let last = notes.last();
        let before = after_notes(start, shorter);
        let after = after_notes(start, notes);
        lemma_after_notes(start, shorter);
        assert forall|key: Seq<char>| has_path(notes, key) <==> has_path(shorter, key) || key
            == last.0 by {
            if has_path(shorter, key) {
                let i = index_of(shorter, key);
                assert(notes[i].0 == key);
            }
            if has_path(notes, key) {
                let i = index_of(notes, key);
                if i < shorter.len() {
                    assert(shorter[i].0 == key);
                }
            }
            assert(notes[notes.len() - 1] == last);
        }
        assert forall|key: Seq<char>| #[trigger]
            after.contains_key(key) <==> start.contains_key(key) || has_path(notes, key) by {
            assert(before.contains_key(key) <==> start.contains_key(key) || has_path(shorter, key));
        }
        assert forall|key: Seq<char>| start.contains_key(key) implies #[trigger] after[key]
            == start[key] by {
            assert(before.contains_key(key));
            assert(before[key] == start[key]);
        }
        if keys_differ(notes) {
            assert(keys_differ(shorter)) by {
                assert forall|i: int, j: int| 0 <= i < j < shorter.len() implies (
                #[trigger] shorter[i]).0 != (#[trigger] shorter[j]).0 by {
                    assert(notes[i].0 != notes[j].0);
                }
            }
            assert forall|i: int|
                0 <= i < notes.len() && !start.contains_key((#[trigger] notes[i]).0) implies after[notes[i].0]
                == notes[i].1 by {
                if i < shorter.len() {
                    assert(shorter[i] == notes[i]);
                    assert(notes[i].0 != notes[notes.len() - 1].0);
                    assert(before[shorter[i].0] == shorter[i].1);
                    assert(has_path(shorter, notes[i].0));
                } else {
                    if has_path(shorter, last.0) {
                        let j = index_of(shorter, last.0);
                        assert(notes[j].0 != notes[notes.len() - 1].0);
                    }
                }
            }
        }
    }
}

/// A run of notes can be made in two parts.
pub proof fn lemma_notes_join(
    start: Map<Seq<char>, EntryView>,
    first: Seq<(Seq<char>, EntryView)>,
    second: Seq<(Seq<char>, EntryView)>,
)
    ensures
        after_notes(after_notes(start, first), second) == after_notes(start, first + second),
    decreases second.len(),
{
    if second.len() == 0 {
        assert(first + second =~= first);
    } else {
        lemma_notes_join(start, first, second.drop_last());
        assert((first + second).drop_last() =~= first + second.drop_last());
        assert((first + second).last() == second.last());
    }
}

/// The manifest of a walk does not depend on the order in which its entries
/// were found. A walk puts one entry after the other into the manifest; two
/// walks that find the same entries, none of them twice under one key, end
/// with the same manifest, entry for entry, in whatever order the directories
/// listed what they hold.
pub proof fn lemma_walk_order(
    one: DirTree,
    other: DirTree,
    start: Map<Seq<char>, EntryView>,
    found: Seq<(Seq<char>, EntryView)>,
    found_otherwise: Seq<(Seq<char>, EntryView)>,
)
    requires
        one.wf(),
        other.wf(),
        one.map() == after_notes(start, found),
        other.map() == after_notes(start, found_otherwise),
        keys_differ(found),
        keys_differ(found_otherwise),
        forall|note: (Seq<char>, EntryView)|
            found.contains(note) <==> found_otherwise.contains(note),
    ensures
        one@ == other@,
{
    lemma_after_notes(start, found);
    lemma_after_notes(start, found_otherwise);
    let (left, right) = (after_notes(start, found), after_notes(start, found_otherwise));
    assert forall|key: Seq<char>| has_path(found, key) implies has_path(found_otherwise, key)
        && (!start.contains_key(key) ==> left[key] == right[key]) by {
        let i = index_of(found, key);
        assert(found.contains(found[i]));
        let j = choose|j: int| 0 <= j < found_otherwise.len() && found_otherwise[j] == found[i];
        assert(found_otherwise[j].0 == key);
    }
    assert forall|key: Seq<char>| has_path(found_otherwise, key) implies has_path(found, key) by {
        let i = index_of(found_otherwise, key);
        assert(found_otherwise.contains(found_otherwise[i]));
        let j = choose|j: int| 0 <= j < found.len() && found[j] == found_otherwise[i];
        assert(found[j].0 == key);
    }
    assert(left =~= right);
    lemma_order_settled(one@, other@);
}

} // verus!
