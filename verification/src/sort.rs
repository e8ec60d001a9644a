//! Stable sorting of file entries by one of the ordering keys.

use vstd::prelude::*;
use crate::entry::FileEntry;
use crate::options::FileOrdering;
use crate::order::{key_less, key_lt, lemma_key_order};

verus! {

/// The entries a slice of references points at.
pub open spec fn entries_of(items: Seq<&FileEntry>) -> Seq<FileEntry> {
    Seq::new(items.len(), |i: int| *items[i])
}

/// Whether every entry carries the key that `order` reads.
pub open spec fn all_have_key(items: Seq<FileEntry>, order: FileOrdering) -> bool {
    forall|i: int| 0 <= i < items.len() ==> (#[trigger] items[i]).has_key(order)
}

/// Whether position `i` comes before position `j` in a stable sort of
/// `items`: its key is smaller, or the keys tie and `i` stood first.
pub open spec fn before(items: Seq<FileEntry>, order: FileOrdering, i: int, j: int) -> bool {
    key_lt(order, items[i], items[j]) || (!key_lt(order, items[j], items[i]) && i < j)
}

/// Whether `perm` lists the positions of `items` in stably sorted order:
/// every position occurs, and each one comes before all that follow it.
pub open spec fn is_stable_order(perm: Seq<int>, items: Seq<FileEntry>, order: FileOrdering) -> bool {
    &&& perm.len() == items.len()
    &&& forall|k: int| 0 <= k < perm.len() ==> 0 <= #[trigger] perm[k] < items.len()
    &&& forall|i: int| 0 <= i < items.len() ==> #[trigger] perm.contains(i)
    &&& forall|p: int, q: int|
        0 <= p < q < perm.len() ==> before(items, order, #[trigger] perm[p], #[trigger] perm[q])
}

/// The entries of `items` in the order that `perm` lists their positions.
pub open spec fn arranged(perm: Seq<int>, items: Seq<FileEntry>) -> Seq<FileEntry> {
    Seq::new(perm.len(), |k: int| items[perm[k]])
}

/// Whether `sorted` is `items` sorted ascending by the key of `order`, with
/// entries of equal key in the order in which `items` has them.
pub open spec fn is_stable_sort(sorted: Seq<FileEntry>, items: Seq<FileEntry>, order: FileOrdering) -> bool {
    exists|perm: Seq<int>| #[trigger] is_stable_order(perm, items, order) && sorted == arranged(perm, items)
}

/// The positions a vector of indices holds.
pub open spec fn positions(v: Seq<usize>) -> Seq<int> {
    Seq::new(v.len(), |k: int| v[k] as int)
}

/// "Before" is a strict total order on the positions of `items`.
pub proof fn lemma_before_order(items: Seq<FileEntry>, order: FileOrdering, i: int, j: int, k: int)
    ensures
        !before(items, order, i, i),
        i != j ==> (before(items, order, i, j) <==> !before(items, order, j, i)),
        before(items, order, i, j) && before(items, order, j, k) ==> before(items, order, i, k),
{
    let (a, b, c) = (items[i], items[j], items[k]);
    lemma_key_order(order, a, b, c);
    lemma_key_order(order, b, c, a);
    lemma_key_order(order, c, a, b);
}

/// Two stable orders of the same entries agree in their first `k` places.
proof fn lemma_orders_agree(p: Seq<int>, q: Seq<int>, items: Seq<FileEntry>, order: FileOrdering, k: int)
    requires
        is_stable_order(p, items, order),
        is_stable_order(q, items, order),
        0 <= k <= items.len(),
    ensures
        forall|j: int| 0 <= j < k ==> p[j] == q[j],
    decreases k,
{
    if k > 0 {
        lemma_orders_agree(p, q, items, order, k - 1);
        let at = k - 1;
        let (x, y) = (p[at], q[at]);
        if x != y {
            lemma_before_order(items, order, x, y, x);
            assert(q.contains(x));
            let m = choose|m: int| 0 <= m < q.len() && q[m] == x;
            assert(p.contains(y));
            let n = choose|n: int| 0 <= n < p.len() && p[n] == y;
            if m < at {
                assert(p[m] == q[m]);
                assert(before(items, order, p[m], p[at]));
            } else {
                assert(before(items, order, q[at], q[m]));
                if n < at {
                    assert(p[n] == q[n]);
                    assert(before(items, order, q[n], q[at]));
                    lemma_before_order(items, order, y, y, y);
                } else {
                    assert(before(items, order, p[at], p[n]));
                }
            }
        }
    }
}

/// There is one stable order of given entries.
pub proof fn lemma_stable_order_unique(p: Seq<int>, q: Seq<int>, items: Seq<FileEntry>, order: FileOrdering)
    requires
        is_stable_order(p, items, order),
        is_stable_order(q, items, order),
    ensures
        p == q,
{
    lemma_orders_agree(p, q, items, order, items.len() as int);
    assert(p =~= q);
}

/// A stable sort has one result: sorting the same entries again yields
/// the same sequence.
pub proof fn lemma_stable_sort_unique(
    first: Seq<FileEntry>,
    second: Seq<FileEntry>,
    items: Seq<FileEntry>,
    order: FileOrdering,
)
    requires
        is_stable_sort(first, items, order),
        is_stable_sort(second, items, order),
    ensures
        first == second,
{
    let p = choose|p: Seq<int>| #[trigger] is_stable_order(p, items, order) && first == arranged(p, items);
    let q = choose|q: Seq<int>| #[trigger] is_stable_order(q, items, order) && second == arranged(q, items);
    lemma_stable_order_unique(p, q, items, order);
}

/// Whether position `x` stands somewhere in `s`.
spec fn occurs(s: Seq<usize>, x: int) -> bool {
    exists|k: int| 0 <= k < s.len() && s[k] == x
}

/// What the sort of the positions `lo..hi` yields: each of them once, every
/// one before those that follow it.
spec fn orders_range(out: Seq<usize>, items: Seq<FileEntry>, order: FileOrdering, lo: int, hi: int) -> bool {
    &&& out.len() == hi - lo
    &&& forall|k: int| 0 <= k < out.len() ==> lo <= #[trigger] out[k] < hi
    &&& forall|i: int| lo <= i < hi ==> #[trigger] occurs(out, i)
    &&& forall|p: int, q: int|
        0 <= p < q < out.len() ==> before(items, order, #[trigger] out[p] as int, #[trigger] out[q] as int)
}

/// What occurs in a sequence occurs in its extension, and so does the
/// element it was extended by.
proof fn lemma_occurs_push(s: Seq<usize>, x: usize, y: int)
    requires
        occurs(s, y) || y == x,
    ensures
        occurs(s.push(x), y),
{
    if y == x {
        assert(s.push(x)[s.len() as int] == y);
    } else {
        let k = choose|k: int| 0 <= k < s.len() && s[k] == y;
        assert(s.push(x)[k] == y);
    }
}

/// Merges the sorted positions `lo..mid` and `mid..hi`, taking from the
/// left run on a tie.
fn merge(
    items: &Vec<&FileEntry>,
    order: FileOrdering,
    left: &Vec<usize>,
    right: &Vec<usize>,
    Ghost(lo): Ghost<int>,
    Ghost(mid): Ghost<int>,
    Ghost(hi): Ghost<int>,
) -> (out: Vec<usize>)
    requires
        0 <= lo <= mid <= hi <= items.len(),
        all_have_key(entries_of(items@), order),
        orders_range(left@, entries_of(items@), order, lo, mid),
        orders_range(right@, entries_of(items@), order, mid, hi),
    ensures
        orders_range(out@, entries_of(items@), order, lo, hi),
{
    let ghost es = entries_of(items@);
    let mut out: Vec<usize> = Vec::new();
    let mut i: usize = 0;
    let mut j: usize = 0;
    while i < left.len() || j < right.len()
        invariant
            0 <= lo <= mid <= hi <= items.len(),
            es == entries_of(items@),
            all_have_key(es, order),
            orders_range(left@, es, order, lo, mid),
            orders_range(right@, es, order, mid, hi),
            i <= left.len(),
            j <= right.len(),
            out.len() == i + j,
            forall|k: int| 0 <= k < out.len() ==> lo <= #[trigger] out[k] < hi,
            forall|a: int| 0 <= a < i ==> occurs(out@, #[trigger] left[a] as int),
            forall|b: int| 0 <= b < j ==> occurs(out@, #[trigger] right[b] as int),
            forall|p: int, q: int|
                0 <= p < q < out.len() ==> before(es, order, #[trigger] out[p] as int, #[trigger] out[q] as int),
            forall|p: int, a: int|
                0 <= p < out.len() && i <= a < left.len() ==> before(
                    es,
                    order,
                    #[trigger] out[p] as int,
                    #[trigger] left[a] as int,
                ),
            forall|p: int, b: int|
                0 <= p < out.len() && j <= b < right.len() ==> before(
                    es,
                    order,
                    #[trigger] out[p] as int,
                    #[trigger] right[b] as int,
                ),
        decreases left.len() - i + right.len() - j,
    {
        let ghost prev = out@;
        let take_right = if i == left.len() {
            true
        } else if j == right.len() {
            false
        } else {
            assert(es[left[i as int] as int].has_key(order));
            assert(es[right[j as int] as int].has_key(order));
            key_less(order, items[right[j]], items[left[i]])
        };
        if take_right {
            let x = right[j];
            out.push(x);
            proof {
                assert forall|a: int| i <= a < left.len() implies before(
                    es,
                    order,
                    x as int,
                    #[trigger] left[a] as int,
                ) by {
                    lemma_before_order(es, order, x as int, left[i as int] as int, left[a] as int);
                }
                assert forall|b: int| j + 1 <= b < right.len() implies before(
                    es,
                    order,
                    x as int,
                    #[trigger] right[b] as int,
                ) by {}
                assert forall|a: int| 0 <= a < i implies occurs(out@, #[trigger] left[a] as int) by {
                    lemma_occurs_push(prev, x, left[a] as int);
                }
                assert forall|b: int| 0 <= b < j + 1 implies occurs(out@, #[trigger] right[b] as int) by {
                    lemma_occurs_push(prev, x, right[b] as int);
                }
            }
            j += 1;
        } else {
            let x = left[i];
            out.push(x);
            proof {
                assert forall|b: int| j <= b < right.len() implies before(
                    es,
                    order,
                    x as int,
                    #[trigger] right[b] as int,
                ) by {
                    if j < right.len() {
                        lemma_before_order(es, order, x as int, right[j as int] as int, right[b] as int);
                    }
                }
                assert forall|a: int| i + 1 <= a < left.len() implies before(
                    es,
                    order,
                    x as int,
                    #[trigger] left[a] as int,
                ) by {}
                assert forall|a: int| 0 <= a < i + 1 implies occurs(out@, #[trigger] left[a] as int) by {
                    lemma_occurs_push(prev, x, left[a] as int);
                }
                assert forall|b: int| 0 <= b < j implies occurs(out@, #[trigger] right[b] as int) by {
                    lemma_occurs_push(prev, x, right[b] as int);
                }
            }
            i += 1;
        }
    }
    proof {
        assert forall|x: int| lo <= x < hi implies #[trigger] occurs(out@, x) by {
            if x < mid {
                assert(occurs(left@, x));
                let a = choose|a: int| 0 <= a < left.len() && left[a] == x;
                assert(occurs(out@, left[a] as int));
            } else {
                assert(occurs(right@, x));
                let b = choose|b: int| 0 <= b < right.len() && right[b] == x;
                assert(occurs(out@, right[b] as int));
            }
        }
    }
    out
}

/// Sorts the positions `lo..hi` of `items` by merging its sorted halves.
fn sort_range(items: &Vec<&FileEntry>, order: FileOrdering, lo: usize, hi: usize) -> (out: Vec<usize>)
    requires
        lo <= hi <= items.len(),
        all_have_key(entries_of(items@), order),
    ensures
        orders_range(out@, entries_of(items@), order, lo as int, hi as int),
    decreases hi - lo,
{
    let mut out: Vec<usize> = Vec::new();
    if hi - lo == 1 {
        out.push(lo);
        assert(out@[0] == lo);
        assert(occurs(out@, lo as int));
    } else if hi - lo > 1 {
        let mid = lo + (hi - lo) / 2;
        let left = sort_range(items, order, lo, mid);
        let right = sort_range(items, order, mid, hi);
        out = merge(items, order, &left, &right, Ghost(lo as int), Ghost(mid as int), Ghost(hi as int));
    }
    out
}

/// The positions of `items` in stably sorted order under `order`. Every
/// entry carries the key that `order` reads.
pub fn stable_order(items: &Vec<&FileEntry>, order: FileOrdering) -> (perm: Vec<usize>)
    requires
        all_have_key(entries_of(items@), order),
    ensures
        is_stable_order(positions(perm@), entries_of(items@), order),
{
    let perm = sort_range(items, order, 0, items.len());
    proof {
        let ps = positions(perm@);
        let es = entries_of(items@);
        assert forall|i: int| 0 <= i < es.len() implies #[trigger] ps.contains(i) by {
            assert(occurs(perm@, i));
            let k = choose|k: int| 0 <= k < perm@.len() && perm@[k] == i;
            assert(ps[k] == i);
        }
        assert forall|p: int, q: int| 0 <= p < q < ps.len() implies before(
            es,
            order,
            #[trigger] ps[p],
            #[trigger] ps[q],
        ) by {
            assert(before(es, order, perm@[p] as int, perm@[q] as int));
        }
    }
    perm
}

} // verus!
