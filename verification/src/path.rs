//! Paths of the manifest: how a path below the root becomes the text that
//! keys its entry, and how two such texts are ordered.

use crate::text::{nfc, nfc_text, text_from_utf8};
use vstd::prelude::*;
use vstd::slice::slice_subrange;
use vstd::utf8::{decode_utf8, encode_utf8, encode_utf8_decode_utf8, valid_utf8};

verus! {

/// The byte that separates the components of a path.
pub const SEPARATOR: u8 = 47;

/// How a byte weighs when paths are ordered: the separator comes before every
/// other byte, so that a component that ends comes before one that goes on.
pub open spec fn rank(byte: u8) -> int {
    if byte == SEPARATOR {
        -1
    } else {
        byte as int
    }
}

/// `a` and `b` are the same on their first `k` bytes, and there `a` ends
/// while `b` goes on, or `a` has the byte of lower rank.
pub open spec fn decided_at(a: Seq<u8>, b: Seq<u8>, k: int) -> bool {
    &&& 0 <= k <= a.len()
    &&& k <= b.len()
    &&& forall|i: int| 0 <= i < k ==> a[i] == b[i]
    &&& k < b.len()
    &&& k < a.len() ==> rank(a[k]) < rank(b[k])
}

/// `a` comes before `b`: where they first differ, `a` ends or has the byte of
/// lower rank. This is the order of paths by their components, each component
/// by its bytes, as `order::lemma_order_by_components` shows.
pub open spec fn bytes_before(a: Seq<u8>, b: Seq<u8>) -> bool {
    exists|k: int| decided_at(a, b, k)
}

/// The order of path texts: that of their UTF-8 bytes.
pub open spec fn path_before(a: Seq<char>, b: Seq<char>) -> bool {
    bytes_before(encode_utf8(a), encode_utf8(b))
}

/// Where one path stands to another.
#[derive(Clone, Copy, Debug, PartialEq, Eq, Structural)]
pub enum PathOrder {
    Before,
    Same,
    After,
}

/// Where `a` stands to `b`.
pub open spec fn path_order(a: Seq<char>, b: Seq<char>) -> PathOrder {
    if a == b {
        PathOrder::Same
    } else if path_before(a, b) {
        PathOrder::Before
    } else {
        PathOrder::After
    }
}

/// No path comes before itself.
pub proof fn lemma_before_irreflexive(a: Seq<char>)
    ensures
        !path_before(a, a),
{
}

/// The order of paths is transitive.
pub proof fn lemma_before_transitive(a: Seq<char>, b: Seq<char>, c: Seq<char>)
    requires
        path_before(a, b),
        path_before(b, c),
    ensures
        path_before(a, c),
{
    let (x, y, z) = (encode_utf8(a), encode_utf8(b), encode_utf8(c));
    let k1 = choose|k: int| decided_at(x, y, k);
    let k2 = choose|k: int| decided_at(y, z, k);
    let k = if k1 <= k2 {
        k1
    } else {
        k2
    };
    assert(decided_at(x, z, k));
}

/// Of two paths, never both come before the other.
pub proof fn lemma_before_asymmetric(a: Seq<char>, b: Seq<char>)
    requires
        path_before(a, b),
    ensures
        !path_before(b, a),
        a != b,
{
    if path_before(b, a) {
        lemma_before_transitive(a, b, a);
    }
}

/// Two texts with the same bytes are the same text.
pub proof fn lemma_same_bytes_same_text(a: Seq<char>, b: Seq<char>)
    requires
        encode_utf8(a) == encode_utf8(b),
    ensures
        a == b,
{
    encode_utf8_decode_utf8(a);
    encode_utf8_decode_utf8(b);
}

/// The order of paths is total: two texts that are not the same stand one
/// before the other.
pub proof fn lemma_before_total(a: Seq<char>, b: Seq<char>)
    ensures
        a == b || path_before(a, b) || path_before(b, a),
{
    let (x, y) = (encode_utf8(a), encode_utf8(b));
    if x == y {
        lemma_same_bytes_same_text(a, b);
    } else {
        lemma_first_difference(x, y, 0);
    }
}

/// Two byte sequences that are the same up to `k` and not the same
/// altogether stand one before the other.
proof fn lemma_first_difference(x: Seq<u8>, y: Seq<u8>, k: int)
    requires
        x != y,
        0 <= k <= x.len(),
        k <= y.len(),
        forall|i: int| 0 <= i < k ==> x[i] == y[i],
    ensures
        bytes_before(x, y) || bytes_before(y, x),
    decreases x.len() - k,
{
    if k == x.len() {
        if k == y.len() {
            assert(x =~= y);
        } else {
            assert(decided_at(x, y, k));
        }
    } else if k == y.len() {
        assert(decided_at(y, x, k));
    } else if x[k] == y[k] {
        lemma_first_difference(x, y, k + 1);
    } else if rank(x[k]) < rank(y[k]) {
        assert(decided_at(x, y, k));
    } else {
        assert(decided_at(y, x, k));
    }
}

/// Compares two paths by their components.
pub fn compare_paths(a: &str, b: &str) -> (order: PathOrder)
    ensures
        order == path_order(a@, b@),
{
    let x = a.as_bytes();
    let y = b.as_bytes();
    let mut at: usize = 0;
    while at < x.len() && at < y.len() && x[at] == y[at]
        invariant
            at <= x@.len(),
            at <= y@.len(),
            forall|i: int| 0 <= i < at ==> x@[i] == y@[i],
        decreases x@.len() - at,
    {
        at = at + 1;
    }
    if at == x.len() {
        if at == y.len() {
            proof {
                assert(x@ =~= y@);
                lemma_same_bytes_same_text(a@, b@);
            }
            PathOrder::Same
        } else {
            proof {
                assert(decided_at(x@, y@, at as int));
                lemma_before_asymmetric(a@, b@);
            }
            PathOrder::Before
        }
    } else if at == y.len() {
        proof {
            assert(decided_at(y@, x@, at as int));
            lemma_before_asymmetric(b@, a@);
        }
        PathOrder::After
    } else {
        let left: u8 = x[at];
        let right: u8 = y[at];
        if left == SEPARATOR || (right != SEPARATOR && left < right) {
            proof {
                assert(decided_at(x@, y@, at as int));
                lemma_before_asymmetric(a@, b@);
            }
            PathOrder::Before
        } else {
            proof {
                assert(decided_at(y@, x@, at as int));
                lemma_before_asymmetric(b@, a@);
            }
            PathOrder::After
        }
    }
}

/// The number of bytes between the end of `prefix` and what lies below it: a
/// separator, unless the prefix is empty or ends in one.
pub open spec fn gap(prefix: Seq<u8>) -> nat {
    if prefix.len() == 0 || prefix.last() == SEPARATOR {
        0
    } else {
        1
    }
}

/// `path` is `prefix` itself or lies below it: it starts with `prefix`, and
/// goes on with a separator where `prefix` does not end in one.
pub open spec fn under_prefix(path: Seq<u8>, prefix: Seq<u8>) -> bool {
    ||| path == prefix
    ||| {
        &&& prefix.len() + gap(prefix) <= path.len()
        &&& path.take(prefix.len() as int) == prefix
        &&& gap(prefix) == 1 ==> path[prefix.len() as int] == SEPARATOR
    }
}

/// What is left of `path` when `prefix` and the separator after it are taken
/// away.
pub open spec fn relative_bytes(path: Seq<u8>, prefix: Seq<u8>) -> Seq<u8> {
    if path == prefix {
        Seq::empty()
    } else {
        path.skip((prefix.len() + gap(prefix)) as int)
    }
}

/// The key of `path` in a manifest rooted at `prefix`: the text of the path
/// from the root on, in canonical composition. A path whose bytes from the
/// root on are no text has no key.
pub open spec fn path_key(path: Seq<u8>, prefix: Seq<u8>) -> Option<Seq<char>> {
    let relative = relative_bytes(path, prefix);
    if valid_utf8(relative) {
        Some(nfc_text(decode_utf8(relative)))
    } else {
        None
    }
}

/// A path whose bytes cannot be read as text.
#[derive(Debug)]
pub struct InvalidPathEncoding {
    /// The path, as it was given.
    pub path: Vec<u8>,
}

/// Whether two slices hold the same bytes.
fn same_bytes(a: &[u8], b: &[u8]) -> (same: bool)
    ensures
        same == (a@ == b@),
{
    if a.len() != b.len() {
        return false;
    }
    let mut at: usize = 0;
    while at < a.len()
        invariant
            a@.len() == b@.len(),
            at <= a@.len(),
            forall|i: int| 0 <= i < at ==> a@[i] == b@[i],
        decreases a@.len() - at,
    {
        if a[at] != b[at] {
            return false;
        }
        at = at + 1;
    }
    assert(a@ =~= b@);
    true
}

/// Whether two strings hold the same text.
pub fn same_text(a: &str, b: &str) -> (same: bool)
    ensures
        same == (a@ == b@),
{
    let same = same_bytes(a.as_bytes(), b.as_bytes());
    proof {
        if same {
            lemma_same_bytes_same_text(a@, b@);
        }
    }
    same
}

/// The number of bytes between the end of `prefix` and what lies below it.
fn gap_of(prefix: &[u8]) -> (extra: usize)
    ensures
        extra == gap(prefix@),
{
    if prefix.len() == 0 || prefix[prefix.len() - 1] == SEPARATOR {
        0
    } else {
        1
    }
}

/// Whether `path` is `prefix` or lies below it.
pub fn is_under_prefix(path: &[u8], prefix: &[u8]) -> (under: bool)
    ensures
        under == under_prefix(path@, prefix@),
{
    if same_bytes(path, prefix) {
        return true;
    }
    let extra = gap_of(prefix);
    if path.len() < prefix.len() || path.len() - prefix.len() < extra {
        return false;
    }
    if !same_bytes(slice_subrange(path, 0, prefix.len()), prefix) {
        return false;
    }
    extra == 0 || path[prefix.len()] == SEPARATOR
}

/// Turns a path below `prefix` into the key of its entry: the prefix is taken
/// away, the rest is read as UTF-8 and brought into canonical composition.
pub fn normalize_path(path: &[u8], prefix: &[u8]) -> (key: Result<String, InvalidPathEncoding>)
    requires
        under_prefix(path@, prefix@),
    ensures
        match key {
            Ok(text) => path_key(path@, prefix@) == Some(text@),
            Err(error) => path_key(path@, prefix@) is None && error.path@ == path@,
        },
{
    let relative = if same_bytes(path, prefix) {
        slice_subrange(path, 0, 0)
    } else {
        let extra = gap_of(prefix);
        let end: usize = path.len();
        slice_subrange(path, prefix.len() + extra, end)
    };
    assert(relative@ =~= relative_bytes(path@, prefix@));
    match text_from_utf8(relative) {
        Some(text) => Ok(nfc(text.as_str())),
        None => Err(InvalidPathEncoding { path: vstd::slice::slice_to_vec(path) }),
    }
}

} // verus!
