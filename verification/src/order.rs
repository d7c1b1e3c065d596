//! The order of paths, component by component, and why comparing byte by
//! byte with the separator ranked lowest gives it.

use crate::path::{bytes_before, decided_at, path_before, rank, SEPARATOR};
use vstd::utf8::encode_utf8;
use vstd::prelude::*;

verus! {

/// The length of the first component of a path: the number of bytes before
/// its first separator.
pub open spec fn head_len(path: Seq<u8>) -> nat
    decreases path.len(),
{
    if path.len() == 0 || path[0] == SEPARATOR {
        0
    } else {
        1 + head_len(path.drop_first())
    }
}

/// The components of a path: what stands between its separators.
pub open spec fn components(path: Seq<u8>) -> Seq<Seq<u8>>
    decreases path.len(),
{
    let head = head_len(path) as int;
    if head >= path.len() {
        seq![path]
    } else {
        seq![path.take(head)] + components(path.skip(head + 1))
    }
}

/// One component comes before another: at the first byte where they differ
/// it has the lower one, or it ends there while the other goes on.
pub open spec fn component_before(a: Seq<u8>, b: Seq<u8>) -> bool
    decreases a.len(),
{
    if b.len() == 0 {
        false
    } else if a.len() == 0 {
        true
    } else if a[0] != b[0] {
        a[0] < b[0]
    } else {
        component_before(a.drop_first(), b.drop_first())
    }
}

/// One list of components comes before another: at the first place where
/// they differ it has the component that comes before, or it ends there while
/// the other goes on.
pub open spec fn components_before(a: Seq<Seq<u8>>, b: Seq<Seq<u8>>) -> bool
    decreases a.len(),
{
    if b.len() == 0 {
        false
    } else if a.len() == 0 {
        true
    } else if a[0] != b[0] {
        component_before(a[0], b[0])
    } else {
        components_before(a.drop_first(), b.drop_first())
    }
}

/// No byte of a path is a separator.
pub open spec fn unbroken(path: Seq<u8>) -> bool {
    forall|i: int| 0 <= i < path.len() ==> path[i] != SEPARATOR
}

/// The first component ends within the path, holds no separator, and is
/// followed by one unless the path ends with it.
proof fn lemma_head(path: Seq<u8>)
    ensures
        head_len(path) <= path.len(),
        unbroken(path.take(head_len(path) as int)),
        head_len(path) < path.len() ==> path[head_len(path) as int] == SEPARATOR,
    decreases path.len(),
{
    if path.len() == 0 || path[0] == SEPARATOR {
    } else {
        let rest = path.drop_first();
        lemma_head(rest);
        let head = head_len(path) as int;
        assert forall|i: int| 0 <= i < head implies path.take(head)[i] != SEPARATOR by {
            if i > 0 {
                assert(rest.take(head - 1)[i - 1] == path[i]);
            }
        }
    }
}

/// The first component ends at the first separator, or with the path.
proof fn lemma_head_is(path: Seq<u8>, end: int)
    requires
        0 <= end <= path.len(),
        forall|i: int| 0 <= i < end ==> path[i] != SEPARATOR,
        end < path.len() ==> path[end] == SEPARATOR,
    ensures
        head_len(path) == end,
    decreases path.len(),
{
    if end > 0 {
        let rest = path.drop_first();
        assert forall|i: int| 0 <= i < end - 1 implies rest[i] != SEPARATOR by {
            assert(rest[i] == path[i + 1]);
        }
        lemma_head_is(rest, end - 1);
    }
}

/// A path has at least one component; the others are the components of what
/// follows the first separator.
proof fn lemma_components_first(path: Seq<u8>)
    ensures
        components(path).len() > 0,
        components(path)[0] == path.take(head_len(path) as int),
        head_len(path) < path.len() ==> components(path).drop_first() == components(
            path.skip(head_len(path) as int + 1),
        ),
        head_len(path) >= path.len() ==> components(path).drop_first() == Seq::<Seq<u8>>::empty(),
{
    lemma_head(path);
    let head = head_len(path) as int;
    if head >= path.len() {
        assert(path.take(head) =~= path);
        assert(components(path).drop_first() =~= Seq::<Seq<u8>>::empty());
    } else {
        assert(components(path).drop_first() =~= components(path.skip(head + 1)));
    }
}

/// Behind the same bytes, two paths stand to each other as without them.
proof fn lemma_shift(front: Seq<u8>, a: Seq<u8>, b: Seq<u8>)
    ensures
        bytes_before(front + a, front + b) <==> bytes_before(a, b),
{
    let (x, y) = (front + a, front + b);
    let n = front.len() as int;
    if bytes_before(a, b) {
        let k = choose|k: int| decided_at(a, b, k);
        assert forall|i: int| 0 <= i < k + n implies x[i] == y[i] by {
            if i >= n {
                assert(a[i - n] == b[i - n]);
            }
        }
        if k < a.len() {
            assert(x[k + n] == a[k]);
        }
        assert(y[k + n] == b[k]);
        assert(decided_at(x, y, k + n));
    }
    if bytes_before(x, y) {
        let k = choose|k: int| decided_at(x, y, k);
        if k < n {
            assert(x[k] == front[k] && y[k] == front[k]);
        }
        assert forall|i: int| 0 <= i < k - n implies a[i] == b[i] by {
            assert(x[i + n] == a[i] && y[i + n] == b[i]);
        }
        if k - n < a.len() {
            assert(x[k] == a[k - n]);
        }
        assert(y[k] == b[k - n]);
        assert(decided_at(a, b, k - n));
    }
}

/// Where two paths first differ, the ranks of the bytes there decide.
proof fn lemma_differ_at(a: Seq<u8>, b: Seq<u8>, k: int)
    requires
        0 <= k < a.len(),
        k < b.len(),
        forall|i: int| 0 <= i < k ==> a[i] == b[i],
        a[k] != b[k],
    ensures
        bytes_before(a, b) <==> rank(a[k]) < rank(b[k]),
{
    if rank(a[k]) < rank(b[k]) {
        assert(decided_at(a, b, k));
    }
    if bytes_before(a, b) {
        let found = choose|found: int| decided_at(a, b, found);
        if found < k {
            assert(a[found] == b[found]);
        } else if found > k {
            assert(a[k] == b[k]);
        }
    }
}

/// Within a component the order by ranks is the order of its bytes.
proof fn lemma_component_order(a: Seq<u8>, b: Seq<u8>)
    requires
        unbroken(a),
        unbroken(b),
    ensures
        component_before(a, b) <==> bytes_before(a, b),
    decreases a.len(),
{
    if b.len() == 0 {
        if bytes_before(a, b) {
            let k = choose|k: int| decided_at(a, b, k);
        }
    } else if a.len() == 0 {
        assert(decided_at(a, b, 0));
    } else if a[0] != b[0] {
        lemma_differ_at(a, b, 0);
    } else {
        let (x, y) = (a.drop_first(), b.drop_first());
        assert(unbroken(x)) by {
            assert forall|i: int| 0 <= i < x.len() implies x[i] != SEPARATOR by {
                assert(x[i] == a[i + 1]);
            }
        }
        assert(unbroken(y)) by {
            assert forall|i: int| 0 <= i < y.len() implies y[i] != SEPARATOR by {
                assert(y[i] == b[i + 1]);
            }
        }
        lemma_component_order(x, y);
        lemma_shift(seq![a[0]], x, y);
        assert(seq![a[0]] + x =~= a);
        assert(seq![a[0]] + y =~= b);
    }
}

/// Two paths whose first components differ stand to each other as those
/// components do.
proof fn lemma_heads_decide(a: Seq<u8>, b: Seq<u8>)
    requires
        a.take(head_len(a) as int) != b.take(head_len(b) as int),
    ensures
        bytes_before(a, b) <==> bytes_before(a.take(head_len(a) as int), b.take(head_len(b) as int)),
{
    lemma_head(a);
    lemma_head(b);
    let (n, m) = (head_len(a) as int, head_len(b) as int);
    let (x, y) = (a.take(n), b.take(m));
    if bytes_before(x, y) {
        let k = choose|k: int| decided_at(x, y, k);
        assert forall|i: int| 0 <= i < k implies a[i] == b[i] by {
            assert(x[i] == y[i]);
        }
        assert(y[k] != SEPARATOR);
        if k < n {
            assert(x[k] == a[k]);
        }
        assert(decided_at(a, b, k));
    }
    if bytes_before(a, b) {
        let k = choose|k: int| decided_at(a, b, k);
        if k > n {
            assert(a[n] == b[n]);
            assert forall|i: int| 0 <= i < n implies b[i] != SEPARATOR by {
                assert(a[i] == b[i]);
                assert(x[i] == a[i]);
            }
            lemma_head_is(b, n);
            assert(x =~= y);
        }
        if k > m {
            assert(a[m] == b[m]);
            assert forall|i: int| 0 <= i < m implies a[i] != SEPARATOR by {
                assert(a[i] == b[i]);
                assert(y[i] == b[i]);
            }
            lemma_head_is(a, m);
            assert(x =~= y);
        }
        if k == m {
            if m < n {
                assert(x[m] == a[m]);
            } else {
                assert(x =~= y);
            }
        }
        assert forall|i: int| 0 <= i < k implies x[i] == y[i] by {
            assert(a[i] == b[i]);
        }
        assert(decided_at(x, y, k));
    }
}

/// The order of paths is the order of their components: a path comes before
/// another exactly if, at the first component in which they differ, its
/// component comes before the other by its bytes, or if it ends where the
/// other goes on.
pub proof fn lemma_order_by_components(a: Seq<u8>, b: Seq<u8>)
    ensures
        bytes_before(a, b) <==> components_before(components(a), components(b)),
    decreases a.len(),
{
    lemma_head(a);
    lemma_head(b);
    lemma_components_first(a);
    lemma_components_first(b);
    let (n, m) = (head_len(a) as int, head_len(b) as int);
    let (x, y) = (a.take(n), b.take(m));
    let (parts_a, parts_b) = (components(a), components(b));
    if x != y {
        lemma_heads_decide(a, b);
        lemma_component_order(x, y);
        assert(components_before(parts_a, parts_b) == component_before(x, y));
    } else {
        assert(n == m);
        let (rest_a, rest_b) = (a.skip(n), b.skip(n));
        assert(x + rest_a =~= a);
        assert(x + rest_b =~= b);
        lemma_shift(x, rest_a, rest_b);
        assert(components_before(parts_a, parts_b) == components_before(
            parts_a.drop_first(),
            parts_b.drop_first(),
        ));
        if rest_a.len() == 0 {
            if rest_b.len() == 0 {
                if bytes_before(rest_a, rest_b) {
                    let k = choose|k: int| decided_at(rest_a, rest_b, k);
                }
                assert(!components_before(parts_a.drop_first(), parts_b.drop_first()));
            } else {
                assert(decided_at(rest_a, rest_b, 0));
                lemma_components_first(b.skip(n + 1));
                assert(components_before(parts_a.drop_first(), parts_b.drop_first()));
            }
        } else if rest_b.len() == 0 {
            if bytes_before(rest_a, rest_b) {
                let k = choose|k: int| decided_at(rest_a, rest_b, k);
            }
            assert(!components_before(parts_a.drop_first(), parts_b.drop_first()));
        } else {
            let (tail_a, tail_b) = (a.skip(n + 1), b.skip(n + 1));
            assert(rest_a[0] == a[n] && rest_b[0] == b[n]);
            assert(seq![SEPARATOR] + tail_a =~= rest_a);
            assert(seq![SEPARATOR] + tail_b =~= rest_b);
            lemma_shift(seq![SEPARATOR], tail_a, tail_b);
            lemma_order_by_components(tail_a, tail_b);
        }
    }
}

/// The order of path texts is the order of the components of their UTF-8
/// bytes.
pub proof fn lemma_path_order_by_components(a: Seq<char>, b: Seq<char>)
    ensures
        path_before(a, b) <==> components_before(
            components(encode_utf8(a)),
            components(encode_utf8(b)),
        ),
{
    lemma_order_by_components(encode_utf8(a), encode_utf8(b));
}

} // verus!
