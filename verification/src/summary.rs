//! The counters of a run, and what they count in the manifest.

use crate::tree::EntryView;
use vstd::prelude::*;

verus! {

/// How many directories, symbolic links and files a run has found, and how
/// many bytes the files hold together.
#[derive(Clone, Copy, Debug, PartialEq, Eq, Structural)]
pub struct Summary {
    pub found_dirs: usize,
    pub found_symlinks: usize,
    pub found_files: usize,
    pub files_total_size: u64,
}

impl Summary {
    /// The summary of a run that has found nothing yet.
    pub fn new() -> (summary: Summary)
        ensures
            summary == (Summary {
                found_dirs: 0,
                found_symlinks: 0,
                found_files: 0,
                files_total_size: 0,
            }),
    {
        Summary { found_dirs: 0, found_symlinks: 0, found_files: 0, files_total_size: 0 }
    }
}

impl Default for Summary {
    fn default() -> (summary: Summary)
        ensures
            summary == (Summary {
                found_dirs: 0,
                found_symlinks: 0,
                found_files: 0,
                files_total_size: 0,
            }),
    {
        Summary::new()
    }
}

/// What of the entries is counted.
pub enum Tally {
    Dirs,
    Symlinks,
    Files,
    Bytes,
}

/// What one entry adds to a tally: one to that of its kind, and a file its
/// length to that of the bytes.
pub open spec fn weight(tally: Tally, entry: EntryView) -> nat {
    match (tally, entry) {
        (Tally::Dirs, EntryView::Dir) => 1,
        (Tally::Symlinks, EntryView::Symlink { .. }) => 1,
        (Tally::Files, EntryView::File { .. }) => 1,
        (Tally::Bytes, EntryView::File { len, .. }) => len as nat,
        _ => 0,
    }
}

/// A tally over entries: the sum of what each adds.
pub open spec fn tally_of(entries: Seq<(Seq<char>, EntryView)>, tally: Tally) -> nat
    decreases entries.len(),
{
    if entries.len() == 0 {
        0
    } else {
        tally_of(entries.drop_last(), tally) + weight(tally, entries.last().1)
    }
}

/// The counters say what the entries hold: as many directories, links and
/// files as there are entries of each kind, and the sum of the lengths of the
/// files.
pub open spec fn tallied(summary: Summary, entries: Seq<(Seq<char>, EntryView)>) -> bool {
    &&& summary.found_dirs == tally_of(entries, Tally::Dirs)
    &&& summary.found_symlinks == tally_of(entries, Tally::Symlinks)
    &&& summary.found_files == tally_of(entries, Tally::Files)
    &&& summary.files_total_size == tally_of(entries, Tally::Bytes)
}

/// At the start of a run the counters say what the manifest holds: nothing.
pub proof fn lemma_tallied_at_start()
    ensures
        tallied(
            Summary { found_dirs: 0, found_symlinks: 0, found_files: 0, files_total_size: 0 },
            Seq::empty(),
        ),
{
}

/// An entry put in at any place adds its weight to a tally.
pub proof fn lemma_tally_insert(
    entries: Seq<(Seq<char>, EntryView)>,
    at: int,
    item: (Seq<char>, EntryView),
    tally: Tally,
)
    requires
        0 <= at <= entries.len(),
    ensures
        tally_of(entries.insert(at, item), tally) == tally_of(entries, tally) + weight(tally, item.1),
    decreases entries.len(),
{
    let grown = entries.insert(at, item);
    if at == entries.len() {
        assert(grown.drop_last() =~= entries);
    } else {
        assert(grown.drop_last() =~= entries.drop_last().insert(at, item));
        lemma_tally_insert(entries.drop_last(), at, item, tally);
    }
}

/// Every entry is of one kind: the tallies of the three kinds add up to the
/// number of entries.
pub proof fn lemma_kinds_add_up(entries: Seq<(Seq<char>, EntryView)>)
    ensures
        tally_of(entries, Tally::Dirs) + tally_of(entries, Tally::Symlinks) + tally_of(
            entries,
            Tally::Files,
        ) == entries.len(),
    decreases entries.len(),
{
    if entries.len() > 0 {
        lemma_kinds_add_up(entries.drop_last());
    }
}

/// Where the counters say what the entries hold, the three counts add up to
/// the number of entries, and the total size is the sum of the lengths of the
/// files among them.
pub proof fn lemma_tallied_counts(summary: Summary, entries: Seq<(Seq<char>, EntryView)>)
    requires
        tallied(summary, entries),
    ensures
        summary.found_dirs + summary.found_symlinks + summary.found_files == entries.len(),
        summary.files_total_size == tally_of(entries, Tally::Bytes),
{
    lemma_kinds_add_up(entries);
}

} // verus!
