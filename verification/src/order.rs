//! The orderings of file entries: by a timestamp or by the bytes of the name.

use vstd::prelude::*;
use crate::entry::FileEntry;
use crate::options::FileOrdering;

verus! {

/// Lexicographic order on byte strings: `a` is a proper prefix of `b`, or at
/// the first position where they differ `a` holds the smaller byte.
pub open spec fn bytes_lt(a: Seq<u8>, b: Seq<u8>) -> bool {
    exists|k: int| #[trigger] differ_at(a, b, k) && (k == a.len() || a[k] < b[k])
}

/// `a` and `b` agree before position `k`, and `b` goes on at `k` with a byte
/// that `a` does not have there.
pub open spec fn differ_at(a: Seq<u8>, b: Seq<u8>, k: int) -> bool {
    &&& 0 <= k <= a.len()
    &&& k < b.len()
    &&& forall|j: int| 0 <= j < k ==> a[j] == b[j]
    &&& k < a.len() ==> a[k] != b[k]
}

/// A timestamp as a number. It is meant for a timestamp that is there.
pub open spec fn time_key(t: Option<i128>) -> int
    recommends
        t.is_some(),
{
    t->Some_0 as int
}

/// Whether the key of `a` under `order` is strictly below that of `b`.
pub open spec fn key_lt(order: FileOrdering, a: FileEntry, b: FileEntry) -> bool {
    match order {
        FileOrdering::Modified => time_key(a.modified) < time_key(b.modified),
        FileOrdering::Created => time_key(a.created) < time_key(b.created),
        FileOrdering::Name => bytes_lt(a.name@, b.name@),
    }
}

/// Whether the key of `a` under `order` is at most that of `b`.
pub open spec fn key_le(order: FileOrdering, a: FileEntry, b: FileEntry) -> bool {
    !key_lt(order, b, a)
}

/// The first position from `i` on at which `a` and `b` differ or one of them ends.
spec fn mismatch_from(a: Seq<u8>, b: Seq<u8>, i: int) -> int
    decreases a.len() - i,
{
    if 0 <= i < a.len() && i < b.len() && a[i] == b[i] {
        mismatch_from(a, b, i + 1)
    } else {
        i
    }
}

proof fn lemma_mismatch_from(a: Seq<u8>, b: Seq<u8>, i: int)
    requires
        0 <= i <= a.len(),
        i <= b.len(),
    ensures
        i <= mismatch_from(a, b, i) <= a.len(),
        mismatch_from(a, b, i) <= b.len(),
        forall|j: int| i <= j < mismatch_from(a, b, i) ==> a[j] == b[j],
        mismatch_from(a, b, i) < a.len() && mismatch_from(a, b, i) < b.len() ==> a[mismatch_from(
            a,
            b,
            i,
        )] != b[mismatch_from(a, b, i)],
    decreases a.len() - i,
{
    if i < a.len() && i < b.len() && a[i] == b[i] {
        lemma_mismatch_from(a, b, i + 1);
    }
}

/// Two byte strings are equal, or one is below the other.
pub proof fn lemma_bytes_lt_total(a: Seq<u8>, b: Seq<u8>)
    ensures
        a == b || bytes_lt(a, b) || bytes_lt(b, a),
{
    lemma_mismatch_from(a, b, 0);
    let k = mismatch_from(a, b, 0);
    if k == a.len() && k == b.len() {
        assert(a =~= b);
    } else if k == a.len() {
        assert(differ_at(a, b, k));
    } else if k == b.len() {
        assert(differ_at(b, a, k));
    } else if a[k] < b[k] {
        assert(differ_at(a, b, k));
    } else {
        assert(differ_at(b, a, k));
    }
}

/// No byte string is below itself, and of two at most one is below the other.
pub proof fn lemma_bytes_lt_asymmetric(a: Seq<u8>, b: Seq<u8>)
    ensures
        !(bytes_lt(a, b) && bytes_lt(b, a)),
        !bytes_lt(a, a),
{
    if bytes_lt(a, b) && bytes_lt(b, a) {
        let k = choose|k: int| #[trigger] differ_at(a, b, k) && (k == a.len() || a[k] < b[k]);
        let m = choose|m: int| #[trigger] differ_at(b, a, m) && (m == b.len() || b[m] < a[m]);
        if k < m {
            assert(b[k] == a[k]);
        } else if m < k {
            assert(a[m] == b[m]);
        }
    }
    if bytes_lt(a, a) {
        let k = choose|k: int| #[trigger] differ_at(a, a, k) && (k == a.len() || a[k] < a[k]);
    }
}

/// The order on byte strings is transitive.
pub proof fn lemma_bytes_lt_transitive(a: Seq<u8>, b: Seq<u8>, c: Seq<u8>)
    requires
        bytes_lt(a, b),
        bytes_lt(b, c),
    ensures
        bytes_lt(a, c),
{
    let k = choose|k: int| #[trigger] differ_at(a, b, k) && (k == a.len() || a[k] < b[k]);
    let m = choose|m: int| #[trigger] differ_at(b, c, m) && (m == b.len() || b[m] < c[m]);
    let n = if k <= m { k } else { m };
    assert forall|j: int| 0 <= j < n implies a[j] == c[j] by {
        assert(a[j] == b[j]);
        assert(b[j] == c[j]);
    }
    if k < m {
        assert(b[k] == c[k]);
    } else if m < k {
        assert(a[m] == b[m]);
    }
    assert(differ_at(a, c, n));
}

/// Under every ordering the keys form a strict weak order: no entry is below
/// itself, and both "below" and "not below" are transitive.
pub proof fn lemma_key_order(order: FileOrdering, a: FileEntry, b: FileEntry, c: FileEntry)
    ensures
        !key_lt(order, a, a),
        key_lt(order, a, b) ==> !key_lt(order, b, a),
        key_lt(order, a, b) && key_lt(order, b, c) ==> key_lt(order, a, c),
        key_le(order, a, b) && key_le(order, b, c) ==> key_le(order, a, c),
        key_le(order, a, b) || key_le(order, b, a),
{
    if order == FileOrdering::Name {
        let x = a.name@;
        let y = b.name@;
        let z = c.name@;
        lemma_bytes_lt_asymmetric(x, y);
        if bytes_lt(x, y) && bytes_lt(y, z) {
            lemma_bytes_lt_transitive(x, y, z);
        }
        if !bytes_lt(y, x) && !bytes_lt(z, y) && bytes_lt(z, x) {
            lemma_bytes_lt_total(x, y);
            lemma_bytes_lt_total(y, z);
            if x == y {
            } else if y == z {
            } else {
                lemma_bytes_lt_transitive(x, y, z);
                lemma_bytes_lt_asymmetric(x, z);
            }
        }
    }
}

/// Compares two byte strings lexicographically.
pub fn bytes_less(a: &[u8], b: &[u8]) -> (less: bool)
    ensures
        less == bytes_lt(a@, b@),
{
    let mut i: usize = 0;
    while i < a.len() && i < b.len() && a[i] == b[i]
        invariant
            i <= a.len(),
            i <= b.len(),
            forall|j: int| 0 <= j < i ==> a@[j] == b@[j],
        decreases a.len() - i,
    {
        i += 1;
    }
    let less = i < b.len() && (i == a.len() || a[i] < b[i]);
    proof {
        let n = i as int;
        if less {
            assert(differ_at(a@, b@, n));
        } else {
            assert forall|k: int| #[trigger] differ_at(a@, b@, k) implies !(k == a@.len() || a@[k]
                < b@[k]) by {
                if k < n {
                    assert(a@[k] == b@[k]);
                } else if k > n {
                    assert(a@[n] == b@[n]);
                }
            }
        }
    }
    less
}

/// Whether the key of `a` under `order` is strictly below that of `b`. Both
/// entries carry the key.
pub fn key_less(order: FileOrdering, a: &FileEntry, b: &FileEntry) -> (less: bool)
    requires
        a.has_key(order),
        b.has_key(order),
    ensures
        less == key_lt(order, *a, *b),
{
    match order {
        FileOrdering::Modified => {
            match (a.modified, b.modified) {
                (Some(x), Some(y)) => x < y,
                _ => false,
            }
        },
        FileOrdering::Created => {
            match (a.created, b.created) {
                (Some(x), Some(y)) => x < y,
                _ => false,
            }
        },
        FileOrdering::Name => bytes_less(a.name.as_slice(), b.name.as_slice()),
    }
}

} // verus!
