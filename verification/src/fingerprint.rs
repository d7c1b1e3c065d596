//! The fingerprint of file content: a chain of hash snapshots, one for every
//! chunk of one mebibyte.

use crate::hashing::{hasher_finish, hasher_input, hasher_new, hasher_write, sea_hash};
use seahash::SeaHasher;
use vstd::bytes::{spec_u64_to_le_bytes, u64_to_le_bytes};
use vstd::prelude::*;
use vstd::slice::slice_subrange;
use vstd::string::StringExecFns;

verus! {

/// The size of a chunk: one mebibyte.
pub const MEBI: usize = 1048576;

/// The number of chunks that content of `len` bytes is cut into: every chunk
/// is full but the last, and empty content has no chunk.
pub open spec fn chunk_count(len: nat) -> nat {
    ((len + MEBI - 1) / (MEBI as int)) as nat
}

/// Where chunk `index` of content of `len` bytes ends.
pub open spec fn chunk_end(index: int, len: nat) -> int {
    if (index + 1) * MEBI <= len {
        (index + 1) * MEBI
    } else {
        len as int
    }
}

/// The snapshot taken after chunk `index`: the hash state for all content up
/// to the end of that chunk.
pub open spec fn snapshot(content: Seq<u8>, index: int) -> u64 {
    sea_hash(content.take(chunk_end(index, content.len())))
}

/// The first `count` snapshots of `content`, each as eight little-endian
/// bytes, one after the other.
pub open spec fn chain_prefix(content: Seq<u8>, count: nat) -> Seq<u8> {
    Seq::new(8 * count, |j: int| spec_u64_to_le_bytes(snapshot(content, j / 8))[j % 8])
}

/// The hash chain of `content`: the snapshots of all its chunks.
pub open spec fn hash_chain(content: Seq<u8>) -> Seq<u8> {
    chain_prefix(content, chunk_count(content.len()))
}

/// A hash chain: the snapshots of a file's chunks, eight bytes each.
#[derive(Debug)]
pub struct ConcatHash(Vec<u8>);

impl View for ConcatHash {
    type V = Seq<u8>;

    closed spec fn view(&self) -> Seq<u8> {
        self.0@
    }
}

impl ConcatHash {
    /// The chain of empty content.
    pub fn new() -> (chain: ConcatHash)
        ensures
            chain@ == Seq::<u8>::empty(),
    {
        ConcatHash(Vec::new())
    }

    /// The bytes of the chain.
    pub fn as_bytes(&self) -> (bytes: &[u8])
        ensures
            bytes@ == self@,
    {
        self.0.as_slice()
    }

    /// Appends one snapshot: the state of the hash as eight bytes, the
    /// lowest first.
    pub fn push_snapshot(&mut self, state: u64)
        ensures
            final(self)@ == old(self)@ + spec_u64_to_le_bytes(state),
    {
        let mut bytes = u64_to_le_bytes(state);
        self.0.append(&mut bytes);
    }
}


/// Content that only grows keeps the snapshots of the chunks it had in full.
pub proof fn lemma_chain_prefix_grows(content: Seq<u8>, more: Seq<u8>, count: nat)
    requires
        count * MEBI <= content.len(),
    ensures
        chain_prefix(content + more, count) == chain_prefix(content, count),
{
    let grown = content + more;
    assert forall|j: int| 0 <= j < 8 * count implies #[trigger] chain_prefix(grown, count)[j]
        == chain_prefix(content, count)[j] by {
        let index = j / 8;
        assert((index + 1) * MEBI <= count * MEBI);
        assert(grown.take((index + 1) * MEBI) =~= content.take((index + 1) * MEBI));
    }
    assert(chain_prefix(grown, count) =~= chain_prefix(content, count));
}

/// One more snapshot is eight more bytes at the end of the chain.
pub proof fn lemma_chain_prefix_next(content: Seq<u8>, count: nat)
    ensures
        chain_prefix(content, count + 1) == chain_prefix(content, count) + spec_u64_to_le_bytes(
            snapshot(content, count as int),
        ),
{
    vstd::bytes::lemma_auto_spec_u64_to_from_le_bytes();
    let longer = chain_prefix(content, count + 1);
    let joined = chain_prefix(content, count) + spec_u64_to_le_bytes(snapshot(content, count as int));
    assert(longer.len() == joined.len());
    assert forall|j: int| 0 <= j < longer.len() implies longer[j] == joined[j] by {
        if j >= 8 * count {
            assert(j / 8 == count);
            assert(j % 8 == j - 8 * count);
        }
    }
    assert(longer =~= joined);
}

/// A hasher that keeps the chain of snapshots of what it is given: after every
/// full mebibyte it notes the state of the hash, and at the end the state
/// after a last, shorter chunk.
pub struct ConcatHasherToWriteAdapter {
    hasher: SeaHasher,
    concat_hash: ConcatHash,
    pending: usize,
    total: u64,
}

impl ConcatHasherToWriteAdapter {
    /// All bytes written so far.
    pub closed spec fn written(&self) -> Seq<u8> {
        hasher_input(self.hasher)
    }

    /// The snapshots noted so far.
    pub closed spec fn chain(&self) -> Seq<u8> {
        self.concat_hash@
    }

    /// The counters agree with what was written.
    pub closed spec fn counts_agree(&self) -> bool {
        &&& self.total == self.written().len()
        &&& self.pending == self.written().len() % (MEBI as nat)
    }

    /// The chain holds the snapshot of every chunk that is full, and no
    /// other.
    pub open spec fn wf(&self) -> bool {
        &&& self.counts_agree()
        &&& self.chain() == chain_prefix(self.written(), self.written().len() / (MEBI as nat))
    }

    /// An adapter to which nothing has been written, freshly seeded.
    pub fn new() -> (adapter: ConcatHasherToWriteAdapter)
        ensures
            adapter.wf(),
            adapter.written() == Seq::<u8>::empty(),
    {
        let adapter = ConcatHasherToWriteAdapter {
            hasher: hasher_new(),
            concat_hash: ConcatHash::new(),
            pending: 0,
            total: 0,
        };
        assert(adapter.chain() =~= chain_prefix(adapter.written(), 0));
        adapter
    }

    /// The number of bytes written so far.
    pub fn hashed_bytes(&self) -> (total: u64)
        requires
            self.wf(),
        ensures
            total == self.written().len(),
    {
        self.total
    }

    /// Folds `buf` into the hash, and notes a snapshot wherever a chunk
    /// becomes full. Returns the number of bytes taken, which is all of them.
    pub fn write(&mut self, buf: &[u8]) -> (taken: usize)
        requires
            old(self).wf(),
            old(self).written().len() + buf@.len() <= u64::MAX,
        ensures
            final(self).wf(),
            final(self).written() == old(self).written() + buf@,
            taken == buf@.len(),
    {
        let mut done: usize = 0;
        while done < buf.len()
            invariant
                done <= buf@.len(),
                self.wf(),
                self.written() == old(self).written() + buf@.take(done as int),
                old(self).written().len() + buf@.len() <= u64::MAX,
            decreases buf@.len() - done,
        {
            let room: usize = MEBI - self.pending;
            let left: usize = buf.len() - done;
            let step: usize = if left < room { left } else { room };
            let piece = slice_subrange(buf, done, done + step);
            let ghost before = self.written();
            let ghost full = before.len() / (MEBI as nat);
            hasher_write(&mut self.hasher, piece);
            self.pending = self.pending + step;
            self.total = self.total + step as u64;
            done = done + step;
            proof {
                assert(self.written() =~= old(self).written() + buf@.take(done as int));
                lemma_chain_prefix_grows(before, piece@, full);
            }
            if self.pending == MEBI {
                let state = hasher_finish(&self.hasher);
                self.concat_hash.push_snapshot(state);
                self.pending = 0;
                proof {
                    let now = self.written();
                    assert(now.len() == (full + 1) * MEBI);
                    assert(now.take(chunk_end(full as int, now.len())) =~= now);
                    lemma_chain_prefix_next(now, full);
                }
            }
        }
        assert(buf@.take(done as int) =~= buf@);
        done
    }

    /// Ends the chain: a last chunk that is not full gets its snapshot too.
    pub fn finish(self) -> (chain: ConcatHash)
        requires
            self.wf(),
        ensures
            chain@ == hash_chain(self.written()),
            chain@.len() == 8 * chunk_count(self.written().len()),
    {
        let ghost content = self.written();
        let ghost full = content.len() / (MEBI as nat);
        let mut chain = self.concat_hash;
        if self.pending > 0 {
            let state = hasher_finish(&self.hasher);
            chain.push_snapshot(state);
            proof {
                assert(content.take(chunk_end(full as int, content.len())) =~= content);
                lemma_chain_prefix_next(content, full);
                assert(chunk_count(content.len()) == full + 1);
            }
        } else {
            assert(chunk_count(content.len()) == full);
        }
        chain
    }
}

/// What an attempt to read more content into a buffer gave.
#[derive(Clone, Copy, Debug, PartialEq, Eq, Structural)]
pub enum ReadOutcome {
    /// So many bytes were read into the front of the buffer; none means that
    /// the content has ended.
    Read(usize),
    /// The read was interrupted before it got anything.
    Interrupted,
    /// The read failed.
    Failed,
}

/// What the copy has to do after a read.
#[derive(Clone, Copy, Debug, PartialEq, Eq, Structural)]
pub enum CopyStep {
    /// Read again.
    Continue,
    /// All content has been copied.
    Done,
    /// Give up: the content cannot be read.
    Abort,
}

/// The bytes that a read has brought: the front of the buffer.
pub open spec fn bytes_read(buf: Seq<u8>, outcome: ReadOutcome) -> Seq<u8> {
    match outcome {
        ReadOutcome::Read(count) => buf.take(count as int),
        _ => Seq::empty(),
    }
}

/// The step that follows a read: an empty read ends the copy, an interrupted
/// one is tried again, a failed one ends it without a result.
pub open spec fn step_after(outcome: ReadOutcome) -> CopyStep {
    match outcome {
        ReadOutcome::Read(count) => if count == 0 {
            CopyStep::Done
        } else {
            CopyStep::Continue
        },
        ReadOutcome::Interrupted => CopyStep::Continue,
        ReadOutcome::Failed => CopyStep::Abort,
    }
}

/// One turn of copying content into `writer` through `buf`: takes what the
/// last read has put into `buf` and says how the copy goes on.
pub fn bufcopy(buf: &[u8], outcome: ReadOutcome, writer: &mut ConcatHasherToWriteAdapter) -> (step:
    CopyStep)
    requires
        old(writer).wf(),
        outcome matches ReadOutcome::Read(count) ==> count <= buf@.len() && old(
            writer,
        ).written().len() + count <= u64::MAX,
    ensures
        final(writer).wf(),
        final(writer).written() == old(writer).written() + bytes_read(buf@, outcome),
        step == step_after(outcome),
{
    match outcome {
        ReadOutcome::Read(count) => {
            if count == 0 {
                assert(writer.written() + buf@.take(0) =~= writer.written());
                CopyStep::Done
            } else {
                writer.write(slice_subrange(buf, 0, count));
                CopyStep::Continue
            }
        },
        ReadOutcome::Interrupted => {
            assert(writer.written() + Seq::<u8>::empty() =~= writer.written());
            CopyStep::Continue
        },
        ReadOutcome::Failed => {
            assert(writer.written() + Seq::<u8>::empty() =~= writer.written());
            CopyStep::Abort
        },
    }
}

/// The hash chain of content that is held in memory.
pub fn concat_hash(content: &[u8]) -> (chain: ConcatHash)
    ensures
        chain@ == hash_chain(content@),
        chain@.len() == 8 * chunk_count(content@.len()),
{
    let mut writer = ConcatHasherToWriteAdapter::new();
    assert(writer.written().len() == 0);
    let len: usize = content.len();
    assert(len <= u64::MAX);
    writer.write(content);
    assert(writer.written() =~= content@);
    writer.finish()
}


/// The hexadecimal digits, in upper case.
pub open spec fn hex_digits() -> Seq<char> {
    seq!['0', '1', '2', '3', '4', '5', '6', '7', '8', '9', 'A', 'B', 'C', 'D', 'E', 'F']
}

/// The hexadecimal digit of a value below sixteen.
pub open spec fn hex_digit(value: int) -> char {
    hex_digits()[value]
}

/// The text of a byte sequence: two hexadecimal digits for every byte, the
/// high one first.
pub open spec fn hex_text(bytes: Seq<u8>) -> Seq<char> {
    Seq::new(
        2 * bytes.len(),
        |j: int|
            if j % 2 == 0 {
                hex_digit(bytes[j / 2] as int / 16)
            } else {
                hex_digit(bytes[j / 2] as int % 16)
            },
    )
}

/// Appends the hexadecimal digit of a value below sixteen.
fn push_hex_digit(text: &mut String, value: u8)
    requires
        value < 16,
    ensures
        final(text)@ == old(text)@.push(hex_digit(value as int)),
{
    proof {
        reveal_strlit("0");
        reveal_strlit("1");
        reveal_strlit("2");
        reveal_strlit("3");
        reveal_strlit("4");
        reveal_strlit("5");
        reveal_strlit("6");
        reveal_strlit("7");
        reveal_strlit("8");
        reveal_strlit("9");
        reveal_strlit("A");
        reveal_strlit("B");
        reveal_strlit("C");
        reveal_strlit("D");
        reveal_strlit("E");
        reveal_strlit("F");
    }
    let digit = match value {
        0 => "0",
        1 => "1",
        2 => "2",
        3 => "3",
        4 => "4",
        5 => "5",
        6 => "6",
        7 => "7",
        8 => "8",
        9 => "9",
        10 => "A",
        11 => "B",
        12 => "C",
        13 => "D",
        14 => "E",
        _ => "F",
    };
    assert(digit@ =~= seq![hex_digit(value as int)]);
    text.append(digit);
    assert(text@ =~= old(text)@.push(hex_digit(value as int)));
}

/// The text of a hash chain: sixteen hexadecimal digits for every snapshot,
/// and the empty text for the empty chain.
pub fn serialize_concat_hash(concat_hash: &ConcatHash) -> (text: String)
    ensures
        text@ == hex_text(concat_hash@),
        text@.len() == 2 * concat_hash@.len(),
{
    let bytes = concat_hash.as_bytes();
    let mut text = String::new();
    let mut at: usize = 0;
    while at < bytes.len()
        invariant
            at <= bytes@.len(),
            bytes@ == concat_hash@,
            text@ == hex_text(bytes@.take(at as int)),
        decreases bytes@.len() - at,
    {
        let byte: u8 = bytes[at];
        push_hex_digit(&mut text, byte / 16);
        push_hex_digit(&mut text, byte % 16);
        at = at + 1;
        assert(text@ =~= hex_text(bytes@.take(at as int)));
    }
    assert(bytes@.take(at as int) =~= bytes@);
    text
}

/// The chain of any content has eight bytes for each of its chunks, and
/// content of `len` bytes has the least number of chunks of one mebibyte that
/// hold it: none if it is empty.
pub proof fn lemma_chain_length(content: Seq<u8>)
    ensures
        hash_chain(content).len() == 8 * chunk_count(content.len()),
        content.len() <= chunk_count(content.len()) * MEBI < content.len() + MEBI,
        content.len() == 0 ==> hash_chain(content) == Seq::<u8>::empty(),
{
    assert(content.len() == 0 ==> hash_chain(content) =~= Seq::<u8>::empty());
}

/// The chain is settled by the content: two adapters that were given the
/// same bytes hold the same snapshots, however the bytes were split over
/// their writes, and end in the same chain.
pub proof fn lemma_same_content_same_chain(
    first: ConcatHasherToWriteAdapter,
    second: ConcatHasherToWriteAdapter,
)
    requires
        first.wf(),
        second.wf(),
        first.written() == second.written(),
    ensures
        first.chain() == second.chain(),
        hash_chain(first.written()) == hash_chain(second.written()),
{
}

/// All bytes that a run of reads has brought, in the order of the reads. Each
/// read is given with the buffer it was made into.
pub open spec fn copied(turns: Seq<(Seq<u8>, ReadOutcome)>) -> Seq<u8>
    decreases turns.len(),
{
    if turns.len() == 0 {
        Seq::empty()
    } else {
        copied(turns.drop_last()) + bytes_read(turns.last().0, turns.last().1)
    }
}

/// A whole copy, turn by turn: a writer that starts empty and is handed every
/// read by `bufcopy` has been written what the reads brought, and holds one
/// snapshot for every mebibyte of it; `finish` then gives the chain of the
/// content, with as many snapshots as the content has chunks, however the
/// reads have cut it and however often a read was interrupted.
pub proof fn lemma_whole_copy(
    writers: Seq<ConcatHasherToWriteAdapter>,
    turns: Seq<(Seq<u8>, ReadOutcome)>,
)
    requires
        writers.len() == turns.len() + 1,
        writers[0].written() == Seq::<u8>::empty(),
        forall|i: int| 0 <= i < writers.len() ==> (#[trigger] writers[i]).wf(),
        forall|i: int|
            0 <= i < turns.len() ==> (#[trigger] writers[i + 1]).written() == writers[i].written()
                + bytes_read(turns[i].0, turns[i].1),
    ensures
        writers.last().written() == copied(turns),
        writers.last().chain() == chain_prefix(copied(turns), copied(turns).len() / (MEBI as nat)),
        hash_chain(writers.last().written()) == hash_chain(copied(turns)),
        hash_chain(copied(turns)).len() == 8 * chunk_count(copied(turns).len()),
    decreases turns.len(),
{
    if turns.len() == 0 {
        assert(writers.last() == writers[0]);
    } else {
        let shorter = turns.drop_last();
        let earlier = writers.drop_last();
        assert forall|i: int| 0 <= i < shorter.len() implies (#[trigger] earlier[i + 1]).written()
            == earlier[i].written() + bytes_read(shorter[i].0, shorter[i].1) by {
            assert(earlier[i + 1] == writers[i + 1]);
            assert(shorter[i] == turns[i]);
        }
        assert forall|i: int| 0 <= i < earlier.len() implies (#[trigger] earlier[i]).wf() by {
            assert(earlier[i] == writers[i]);
        }
        lemma_whole_copy(earlier, shorter);
        let n = turns.len() as int;
        assert(earlier.last() == writers[n - 1]);
        assert(writers.last() == writers[n - 1 + 1]);
        assert(writers.last().wf());
    }
}

} // verus!
