//! Running again: what does not depend on the order in which the files of
//! a scan arrive.

use vstd::prelude::*;
use crate::deduplicator::{
    bucketed, collisions_upto, digests_match, found_collisions, found_groups, found_upto, is_report,
    lemma_found_holds, lemma_found_origin, size_keys,
};
use crate::duplicates::{
    as_sets, digest_keys, duplicate_groups, is_traversal, lemma_group_moves, lemma_groups_shared,
    lemma_rerun_same_groups, size_collisions,
};
use crate::entry::FileEntry;
use crate::grouping::{
    grouping, is_moved, is_rearrangement, is_shared, lemma_class_moves, lemma_class_shares_key,
    lemma_classes_paired, lemma_sum_rearranged, lemma_total_concat, shared_classes, sum, total,
};
use crate::options::Options;
use crate::report::{lemma_output_keeps_groups, reclaimable, reported, Report};

verus! {

/// Whether `again` holds the files of `entries` in another order of
/// arrival: the file at position `k` stands at position `to[k]`, and
/// `back` leads the other way.
pub open spec fn is_rescan(entries: Seq<FileEntry>, again: Seq<FileEntry>, to: Seq<int>, back: Seq<int>) -> bool {
    &&& again.len() == entries.len()
    &&& is_rearrangement(to, back, entries.len())
    &&& forall|k: int| 0 <= k < entries.len() ==> again[#[trigger] to[k]] == entries[k]
}

/// Whether the digests handed in are those that `digest_of` gives the
/// files: every file of a bucket with several files has its digest
/// standing at its place.
pub open spec fn digests_are(
    buckets: Seq<Seq<FileEntry>>,
    digests: Seq<Vec<Option<Vec<u8>>>>,
    digest_of: spec_fn(FileEntry) -> Option<Seq<u8>>,
) -> bool {
    &&& digests_match(buckets, digests)
    &&& forall|b: int, m: int|
        0 <= b < buckets.len() && buckets[b].len() != 1 && 0 <= m < buckets[b].len() ==> digest_keys(digests[b]@)[m]
            == digest_of(#[trigger] buckets[b][m])
}

/// Whether bucket `h` of the other scan holds what bucket `b` holds: the
/// positions of the one are those that the positions of the other went to.
pub open spec fn is_same_bucket(
    entries: Seq<FileEntry>,
    again: Seq<FileEntry>,
    to: Seq<int>,
    back: Seq<int>,
    b: int,
    h: int,
) -> bool {
    let here = grouping(size_keys(entries))[b];
    let there = grouping(size_keys(again))[h];
    &&& 0 <= b < grouping(size_keys(entries)).len()
    &&& 0 <= h < grouping(size_keys(again)).len()
    &&& there.len() == here.len()
    &&& forall|i: int| #[trigger] here.contains(i) ==> there.contains(to[i])
    &&& forall|j: int| #[trigger] there.contains(j) ==> here.contains(back[j])
}

/// The files of a bucket stand in the bucket that holds the same files,
/// each at the place that the returned rearrangement names.
pub proof fn lemma_bucket_slots(
    entries: Seq<FileEntry>,
    again: Seq<FileEntry>,
    to: Seq<int>,
    back: Seq<int>,
    b: int,
    h: int,
) -> (found: (Seq<int>, Seq<int>))
    requires
        is_rescan(entries, again, to, back),
        is_same_bucket(entries, again, to, back, b, h),
    ensures
        bucketed(again)[h].len() == bucketed(entries)[b].len(),
        is_rearrangement(found.0, found.1, bucketed(entries)[b].len()),
        forall|m: int|
            0 <= m < bucketed(entries)[b].len() ==> bucketed(again)[h][#[trigger] found.0[m]] == bucketed(entries)[b][m],
{
    let keys = size_keys(entries);
    let moved = size_keys(again);
    let here = grouping(keys)[b];
    let there = grouping(moved)[h];
    lemma_class_shares_key(keys, b);
    lemma_class_shares_key(moved, h);
    let onward = Seq::new(here.len(), |m: int| there.index_of(to[here[m]]));
    let homeward = Seq::new(there.len(), |n: int| here.index_of(back[there[n]]));
    assert forall|m: int| 0 <= m < here.len() implies 0 <= #[trigger] onward[m] < there.len() && there[onward[m]]
        == to[here[m]] && homeward[onward[m]] == m by {
        assert(here.contains(here[m]));
        assert(there.contains(to[here[m]]));
        let n = onward[m];
        assert(0 <= n < there.len() && there[n] == to[here[m]]);
        assert(back[there[n]] == here[m]);
        let i = here.index_of(here[m]);
        assert(0 <= i < here.len() && here[i] == here[m]);
        if i < m {
            assert(here[i] < here[m]);
        } else if m < i {
            assert(here[m] < here[i]);
        }
    }
    assert forall|n: int| 0 <= n < there.len() implies 0 <= #[trigger] homeward[n] < here.len() && onward[homeward[n]]
        == n by {
        assert(there.contains(there[n]));
        assert(here.contains(back[there[n]]));
        let m = homeward[n];
        assert(0 <= m < here.len() && here[m] == back[there[n]]);
        assert(to[here[m]] == there[n]);
        let i = there.index_of(there[n]);
        assert(0 <= i < there.len() && there[i] == there[n]);
        if i < n {
            assert(there[i] < there[n]);
        } else if n < i {
            assert(there[n] < there[i]);
        }
    }
    assert forall|m: int| 0 <= m < bucketed(entries)[b].len() implies bucketed(again)[h][#[trigger] onward[m]]
        == bucketed(entries)[b][m] by {
        assert(there[onward[m]] == to[here[m]]);
        assert(again[to[here[m]]] == entries[here[m]]);
    }
    (onward, homeward)
}

/// A size bucket keeps its files when they arrive in another order: the
/// bucket at `b` has a bucket of the other scan that holds the same files,
/// each at the place that the returned rearrangement names.
pub proof fn lemma_bucket_moves(
    entries: Seq<FileEntry>,
    again: Seq<FileEntry>,
    to: Seq<int>,
    back: Seq<int>,
    b: int,
) -> (found: (int, Seq<int>, Seq<int>))
    requires
        is_rescan(entries, again, to, back),
        0 <= b < bucketed(entries).len(),
    ensures
        0 <= found.0 < bucketed(again).len(),
        bucketed(again)[found.0].len() == bucketed(entries)[b].len(),
        is_rearrangement(found.1, found.2, bucketed(entries)[b].len()),
        forall|m: int|
            0 <= m < bucketed(entries)[b].len() ==> bucketed(again)[found.0][#[trigger] found.1[m]] == bucketed(
                entries,
            )[b][m],
{
    assert(is_moved(size_keys(entries), size_keys(again), to, back));
    let h = lemma_class_moves(size_keys(entries), size_keys(again), to, back, b);
    let (onward, homeward) = lemma_bucket_slots(entries, again, to, back, b, h);
    (h, onward, homeward)
}

/// Every reported group of one scan is, as a set of files, a reported
/// group of the other.
proof fn lemma_found_moves(
    entries: Seq<FileEntry>,
    digests: Seq<Vec<Option<Vec<u8>>>>,
    again: Seq<FileEntry>,
    digests_again: Seq<Vec<Option<Vec<u8>>>>,
    to: Seq<int>,
    back: Seq<int>,
    digest_of: spec_fn(FileEntry) -> Option<Seq<u8>>,
    f: int,
)
    requires
        is_rescan(entries, again, to, back),
        digests_are(bucketed(entries), digests, digest_of),
        digests_are(bucketed(again), digests_again, digest_of),
        0 <= f < found_groups(bucketed(entries), digests).len(),
    ensures
        as_sets(found_groups(bucketed(again), digests_again)).contains(
            found_groups(bucketed(entries), digests)[f].to_set(),
        ),
{
    let buckets = bucketed(entries);
    let others = bucketed(again);
    let group = found_groups(buckets, digests)[f];
    lemma_found_origin(buckets, digests, buckets.len(), f);
    let (b, g) = choose|b: int, g: int|
        0 <= b < buckets.len() && 0 <= g < duplicate_groups(buckets[b], digests[b]@).len() && group
            == #[trigger] duplicate_groups(buckets[b], digests[b]@)[g];
    let (h, onward, homeward) = lemma_bucket_moves(entries, again, to, back, b);
    assert(buckets[b].len() != 1);
    assert(is_traversal(buckets[b], digests[b]@, others[h], digests_again[h]@, onward, homeward)) by {
        let keys = digest_keys(digests[b]@);
        let moved = digest_keys(digests_again[h]@);
        assert forall|m: int| 0 <= m < keys.len() implies moved[#[trigger] onward[m]] == keys[m] by {
            assert(others[h][onward[m]] == buckets[b][m]);
            assert(moved[onward[m]] == digest_of(others[h][onward[m]]));
            assert(keys[m] == digest_of(buckets[b][m]));
        }
    }
    lemma_group_moves(buckets[b], digests[b]@, others[h], digests_again[h]@, onward, homeward, g);
    let there = duplicate_groups(others[h], digests_again[h]@);
    let k = choose|k: int| 0 <= k < there.len() && group.to_set() == (#[trigger] there[k]).to_set();
    lemma_found_holds(others, digests_again, others.len(), h, k);
    let found = found_groups(others, digests_again);
    let at = choose|at: int| 0 <= at < found.len() && #[trigger] found[at] == there[k];
    assert(group.to_set() == found[at].to_set());
}

/// Running the engine again on an unchanged tree reports the same
/// duplicates, in whatever order the files arrive: where the same files
/// arrive in another order and every file has the digest it had before,
/// the reported groups are the same sets of files.
pub proof fn lemma_rerun_same_found(
    entries: Seq<FileEntry>,
    digests: Seq<Vec<Option<Vec<u8>>>>,
    again: Seq<FileEntry>,
    digests_again: Seq<Vec<Option<Vec<u8>>>>,
    to: Seq<int>,
    back: Seq<int>,
    digest_of: spec_fn(FileEntry) -> Option<Seq<u8>>,
)
    requires
        is_rescan(entries, again, to, back),
        digests_are(bucketed(entries), digests, digest_of),
        digests_are(bucketed(again), digests_again, digest_of),
    ensures
        as_sets(found_groups(bucketed(entries), digests)) == as_sets(found_groups(bucketed(again), digests_again)),
{
    let first = found_groups(bucketed(entries), digests);
    let second = found_groups(bucketed(again), digests_again);
    assert(is_rescan(again, entries, back, to)) by {
        assert forall|j: int| 0 <= j < again.len() implies entries[#[trigger] back[j]] == again[j] by {
            assert(again[to[back[j]]] == entries[back[j]]);
        }
    }
    assert(as_sets(first) =~= as_sets(second)) by {
        assert forall|s: Set<FileEntry>| as_sets(first).contains(s) implies as_sets(second).contains(s) by {
            let f = choose|f: int| 0 <= f < first.len() && s == (#[trigger] first[f]).to_set();
            lemma_found_moves(entries, digests, again, digests_again, to, back, digest_of, f);
        }
        assert forall|s: Set<FileEntry>| as_sets(second).contains(s) implies as_sets(first).contains(s) by {
            let f = choose|f: int| 0 <= f < second.len() && s == (#[trigger] second[f]).to_set();
            lemma_found_moves(again, digests_again, entries, digests, back, to, digest_of, f);
        }
    }
}

/// Another order of arrival fills the same size buckets: where the same
/// files arrive in another order, the size buckets are the same sets of
/// files.
pub proof fn lemma_rerun_same_bucket_sets(entries: Seq<FileEntry>, again: Seq<FileEntry>, to: Seq<int>, back: Seq<int>)
    requires
        is_rescan(entries, again, to, back),
    ensures
        as_sets(bucketed(entries)) == as_sets(bucketed(again)),
{
    assert(is_rescan(again, entries, back, to)) by {
        assert forall|j: int| 0 <= j < again.len() implies entries[#[trigger] back[j]] == again[j] by {
            assert(again[to[back[j]]] == entries[back[j]]);
        }
    }
    assert(as_sets(bucketed(entries)) =~= as_sets(bucketed(again))) by {
        assert forall|s: Set<FileEntry>| as_sets(bucketed(entries)).contains(s) implies as_sets(
            bucketed(again),
        ).contains(s) by {
            let b = choose|b: int| 0 <= b < bucketed(entries).len() && s == (#[trigger] bucketed(entries)[b]).to_set();
            lemma_bucket_set_moves(entries, again, to, back, b);
        }
        assert forall|s: Set<FileEntry>| as_sets(bucketed(again)).contains(s) implies as_sets(
            bucketed(entries),
        ).contains(s) by {
            let b = choose|b: int| 0 <= b < bucketed(again).len() && s == (#[trigger] bucketed(again)[b]).to_set();
            lemma_bucket_set_moves(again, entries, back, to, b);
        }
    }
}

/// Every size bucket of one scan is, as a set of files, a size bucket of
/// the other.
proof fn lemma_bucket_set_moves(entries: Seq<FileEntry>, again: Seq<FileEntry>, to: Seq<int>, back: Seq<int>, b: int)
    requires
        is_rescan(entries, again, to, back),
        0 <= b < bucketed(entries).len(),
    ensures
        as_sets(bucketed(again)).contains(bucketed(entries)[b].to_set()),
{
    let (h, onward, homeward) = lemma_bucket_moves(entries, again, to, back, b);
    let here = bucketed(entries)[b];
    let there = bucketed(again)[h];
    assert(here.to_set() =~= there.to_set()) by {
        assert forall|x: FileEntry| here.to_set().contains(x) implies there.to_set().contains(x) by {
            let m = choose|m: int| 0 <= m < here.len() && here[m] == x;
            assert(there[onward[m]] == x);
        }
        assert forall|x: FileEntry| there.to_set().contains(x) implies here.to_set().contains(x) by {
            let n = choose|n: int| 0 <= n < there.len() && there[n] == x;
            assert(onward[homeward[n]] == n);
            assert(here[homeward[n]] == x);
        }
    }
}

/// The number of duplicate groups among the files of one bucket.
pub open spec fn groups_in() -> spec_fn(Seq<FileEntry>, Seq<Option<Vec<u8>>>) -> int {
    |files: Seq<FileEntry>, digests: Seq<Option<Vec<u8>>>| duplicate_groups(files, digests).len() as int
}

/// The number of files in the duplicate groups of one bucket.
pub open spec fn members_in() -> spec_fn(Seq<FileEntry>, Seq<Option<Vec<u8>>>) -> int {
    |files: Seq<FileEntry>, digests: Seq<Option<Vec<u8>>>| total(duplicate_groups(files, digests)) as int
}

/// The number of size collisions in one bucket.
pub open spec fn collisions_in() -> spec_fn(Seq<FileEntry>, Seq<Option<Vec<u8>>>) -> int {
    |files: Seq<FileEntry>, digests: Seq<Option<Vec<u8>>>| size_collisions(files, digests) as int
}

/// The bytes that the duplicates of one bucket take.
pub open spec fn space_in() -> spec_fn(Seq<FileEntry>, Seq<Option<Vec<u8>>>) -> int {
    |files: Seq<FileEntry>, digests: Seq<Option<Vec<u8>>>| reclaimable(duplicate_groups(files, digests)) as int
}

/// What each of the first `n` buckets is worth.
pub open spec fn per_bucket(
    buckets: Seq<Seq<FileEntry>>,
    digests: Seq<Vec<Option<Vec<u8>>>>,
    n: nat,
    worth: spec_fn(Seq<FileEntry>, Seq<Option<Vec<u8>>>) -> int,
) -> Seq<int> {
    Seq::new(n, |b: int| worth(buckets[b], digests[b]@))
}

/// The space that two lists of groups free is the sum of what each frees.
proof fn lemma_reclaimable_concat(a: Seq<Seq<FileEntry>>, b: Seq<Seq<FileEntry>>)
    requires
        forall|g: int| 0 <= g < b.len() ==> (#[trigger] b[g]).len() >= 1,
    ensures
        reclaimable(a + b) == reclaimable(a) + reclaimable(b),
    decreases b.len(),
{
    if b.len() == 0 {
        assert(a + b =~= a);
    } else {
        lemma_reclaimable_concat(a, b.drop_last());
        assert((a + b).drop_last() =~= a + b.drop_last());
        assert((a + b).last() == b.last());
        let group = b.last();
        assert(group[0].size * (group.len() - 1) >= 0) by (nonlinear_arith)
            requires
                group[0].size >= 0,
                group.len() >= 1,
        ;
    }
}

/// The counts of a run are sums over its size buckets.
proof fn lemma_counts_per_bucket(buckets: Seq<Seq<FileEntry>>, digests: Seq<Vec<Option<Vec<u8>>>>, n: nat)
    requires
        n <= buckets.len(),
    ensures
        found_upto(buckets, digests, n).len() == sum(per_bucket(buckets, digests, n, groups_in())),
        total(found_upto(buckets, digests, n)) == sum(per_bucket(buckets, digests, n, members_in())),
        collisions_upto(buckets, digests, n) == sum(per_bucket(buckets, digests, n, collisions_in())),
        reclaimable(found_upto(buckets, digests, n)) == sum(per_bucket(buckets, digests, n, space_in())),
    decreases n,
{
    if n > 0 {
        let m = (n - 1) as nat;
        lemma_counts_per_bucket(buckets, digests, m);
        let before = found_upto(buckets, digests, m);
        let added = duplicate_groups(buckets[n - 1], digests[n - 1]@);
        lemma_total_concat(before, added);
        lemma_groups_shared(buckets[n - 1], digests[n - 1]@);
        lemma_reclaimable_concat(before, added);
        assert(per_bucket(buckets, digests, n, groups_in()).drop_last() =~= per_bucket(buckets, digests, m, groups_in()));
        assert(per_bucket(buckets, digests, n, members_in()).drop_last() =~= per_bucket(
            buckets,
            digests,
            m,
            members_in(),
        ));
        assert(per_bucket(buckets, digests, n, collisions_in()).drop_last() =~= per_bucket(
            buckets,
            digests,
            m,
            collisions_in(),
        ));
        assert(per_bucket(buckets, digests, n, space_in()).drop_last() =~= per_bucket(buckets, digests, m, space_in()));
    }
}

/// Groups of files of one size free that size for each member beyond the
/// first.
proof fn lemma_reclaimable_uniform(groups: Seq<Seq<FileEntry>>, size: int)
    requires
        forall|g: int| 0 <= g < groups.len() ==> (#[trigger] groups[g]).len() >= 1 && groups[g][0].size == size,
    ensures
        reclaimable(groups) == size * (total(groups) - groups.len()),
    decreases groups.len(),
{
    if groups.len() == 0 {
        assert(size * 0 == 0);
    } else {
        let init = groups.drop_last();
        let group = groups.last();
        lemma_reclaimable_uniform(init, size);
        let (t, l, n) = (total(init) as int, init.len() as int, group.len() as int);
        assert(size * (t - l) + size * (n - 1) == size * ((t + n) - (l + 1))) by (nonlinear_arith);
        assert(size * (n - 1) >= 0) by (nonlinear_arith)
            requires
                size >= 0,
                n >= 1,
        ;
        assert(size * (t - l) >= 0);
    }
}

/// Two buckets that hold the same files are worth the same: as many
/// duplicate groups with as many members, as many size collisions, and as
/// much space.
proof fn lemma_bucket_worth_moves(
    entries: Seq<FileEntry>,
    digests: Seq<Vec<Option<Vec<u8>>>>,
    again: Seq<FileEntry>,
    digests_again: Seq<Vec<Option<Vec<u8>>>>,
    to: Seq<int>,
    back: Seq<int>,
    digest_of: spec_fn(FileEntry) -> Option<Seq<u8>>,
    b: int,
    h: int,
)
    requires
        is_rescan(entries, again, to, back),
        digests_are(bucketed(entries), digests, digest_of),
        digests_are(bucketed(again), digests_again, digest_of),
        is_same_bucket(entries, again, to, back, b, h),
    ensures
        groups_in()(bucketed(entries)[b], digests[b]@) == groups_in()(bucketed(again)[h], digests_again[h]@),
        members_in()(bucketed(entries)[b], digests[b]@) == members_in()(bucketed(again)[h], digests_again[h]@),
        collisions_in()(bucketed(entries)[b], digests[b]@) == collisions_in()(bucketed(again)[h], digests_again[h]@),
        space_in()(bucketed(entries)[b], digests[b]@) == space_in()(bucketed(again)[h], digests_again[h]@),
{
    let here = bucketed(entries)[b];
    let there = bucketed(again)[h];
    let (onward, homeward) = lemma_bucket_slots(entries, again, to, back, b, h);
    if here.len() != 1 {
        assert(is_traversal(here, digests[b]@, there, digests_again[h]@, onward, homeward)) by {
            let keys = digest_keys(digests[b]@);
            let moved = digest_keys(digests_again[h]@);
            assert forall|m: int| 0 <= m < keys.len() implies moved[#[trigger] onward[m]] == keys[m] by {
                assert(there[onward[m]] == here[m]);
                assert(moved[onward[m]] == digest_of(there[onward[m]]));
                assert(keys[m] == digest_of(here[m]));
            }
        }
        lemma_rerun_same_groups(here, digests[b]@, there, digests_again[h]@, onward, homeward);
        lemma_class_shares_key(size_keys(entries), b);
        lemma_class_shares_key(size_keys(again), h);
        let size = here[0].size as int;
        assert(there[onward[0]] == here[0]);
        lemma_bucket_groups_sized(entries, digests[b]@, b, size);
        lemma_bucket_groups_sized(again, digests_again[h]@, h, size);
        lemma_reclaimable_uniform(duplicate_groups(here, digests[b]@), size);
        lemma_reclaimable_uniform(duplicate_groups(there, digests_again[h]@), size);
    }
}

/// Every duplicate group of a bucket has a member, and its first member
/// has the size of the bucket.
proof fn lemma_bucket_groups_sized(entries: Seq<FileEntry>, digests: Seq<Option<Vec<u8>>>, b: int, size: int)
    requires
        0 <= b < bucketed(entries).len(),
        bucketed(entries)[b].len() != 1 ==> digests.len() == bucketed(entries)[b].len(),
        exists|m: int| 0 <= m < bucketed(entries)[b].len() && (#[trigger] bucketed(entries)[b][m]).size == size,
    ensures
        forall|g: int|
            0 <= g < duplicate_groups(bucketed(entries)[b], digests).len() ==> (#[trigger] duplicate_groups(
                bucketed(entries)[b],
                digests,
            )[g]).len() >= 1 && duplicate_groups(bucketed(entries)[b], digests)[g][0].size == size,
{
    let files = bucketed(entries)[b];
    let groups = duplicate_groups(files, digests);
    lemma_groups_shared(files, digests);
    lemma_class_shares_key(size_keys(entries), b);
    let slots = grouping(size_keys(entries))[b];
    let known = choose|m: int| 0 <= m < files.len() && (#[trigger] files[m]).size == size;
    assert forall|g: int| 0 <= g < groups.len() implies (#[trigger] groups[g]).len() >= 1 && groups[g][0].size
        == size by {
        let keys = digest_keys(digests);
        let class = shared_classes(keys)[g];
        grouping(keys).lemma_filter_pred(is_shared(), g);
        assert(shared_classes(keys).contains(class));
        grouping(keys).lemma_filter_contains_rev(is_shared(), class);
        let at = choose|at: int| 0 <= at < grouping(keys).len() && grouping(keys)[at] == class;
        lemma_class_shares_key(keys, at);
        assert(groups[g][0] == files[class[0]]);
        assert(files[class[0]] == entries[slots[class[0]]]);
        assert(files[known] == entries[slots[known]]);
        assert(size_keys(entries)[slots[class[0]]] == size_keys(entries)[slots[known]]);
    }
}

/// Running the engine again on an unchanged tree gives the same counts, in
/// whatever order the files arrive: where the same files arrive in another
/// order and every file has the digest it had before, there are as many
/// duplicate groups with as many files, as many size collisions, and as
/// much space to free.
pub proof fn lemma_rerun_same_counts(
    entries: Seq<FileEntry>,
    digests: Seq<Vec<Option<Vec<u8>>>>,
    again: Seq<FileEntry>,
    digests_again: Seq<Vec<Option<Vec<u8>>>>,
    to: Seq<int>,
    back: Seq<int>,
    digest_of: spec_fn(FileEntry) -> Option<Seq<u8>>,
)
    requires
        is_rescan(entries, again, to, back),
        digests_are(bucketed(entries), digests, digest_of),
        digests_are(bucketed(again), digests_again, digest_of),
    ensures
        found_groups(bucketed(entries), digests).len() == found_groups(bucketed(again), digests_again).len(),
        total(found_groups(bucketed(entries), digests)) == total(found_groups(bucketed(again), digests_again)),
        found_collisions(bucketed(entries), digests) == found_collisions(bucketed(again), digests_again),
        reclaimable(found_groups(bucketed(entries), digests)) == reclaimable(
            found_groups(bucketed(again), digests_again),
        ),
{
    let buckets = bucketed(entries);
    let others = bucketed(again);
    let keys = size_keys(entries);
    let moved = size_keys(again);
    assert(is_moved(keys, moved, to, back));
    let (onward, homeward) = lemma_classes_paired(keys, moved, to, back);
    assert forall|b: int| 0 <= b < buckets.len() implies is_same_bucket(entries, again, to, back, b, #[trigger] onward[b]) by {}
    lemma_counts_per_bucket(buckets, digests, buckets.len());
    lemma_counts_per_bucket(others, digests_again, others.len());
    assert forall|b: int| 0 <= b < buckets.len() implies per_bucket(others, digests_again, others.len(), groups_in())[#[trigger] onward[b]]
        == per_bucket(buckets, digests, buckets.len(), groups_in())[b] && per_bucket(
        others,
        digests_again,
        others.len(),
        members_in(),
    )[onward[b]] == per_bucket(buckets, digests, buckets.len(), members_in())[b] && per_bucket(
        others,
        digests_again,
        others.len(),
        collisions_in(),
    )[onward[b]] == per_bucket(buckets, digests, buckets.len(), collisions_in())[b] && per_bucket(
        others,
        digests_again,
        others.len(),
        space_in(),
    )[onward[b]] == per_bucket(buckets, digests, buckets.len(), space_in())[b] by {
        lemma_bucket_worth_moves(entries, digests, again, digests_again, to, back, digest_of, b, onward[b]);
    }
    lemma_sum_rearranged(
        per_bucket(buckets, digests, buckets.len(), groups_in()),
        per_bucket(others, digests_again, others.len(), groups_in()),
        onward,
        homeward,
    );
    lemma_sum_rearranged(
        per_bucket(buckets, digests, buckets.len(), members_in()),
        per_bucket(others, digests_again, others.len(), members_in()),
        onward,
        homeward,
    );
    lemma_sum_rearranged(
        per_bucket(buckets, digests, buckets.len(), collisions_in()),
        per_bucket(others, digests_again, others.len(), collisions_in()),
        onward,
        homeward,
    );
    lemma_sum_rearranged(
        per_bucket(buckets, digests, buckets.len(), space_in()),
        per_bucket(others, digests_again, others.len(), space_in()),
        onward,
        homeward,
    );
}

/// Idempotence: two runs over an unchanged tree report the same
/// duplicates, in whatever order the files arrive. Where the same files
/// arrive in another order and every file has the digest it had before,
/// the reported groups are the same sets of files and the summaries are
/// equal.
pub proof fn lemma_rerun_same_outcome(
    first: Report<'_>,
    second: Report<'_>,
    entries: Seq<FileEntry>,
    digests: Seq<Vec<Option<Vec<u8>>>>,
    again: Seq<FileEntry>,
    digests_again: Seq<Vec<Option<Vec<u8>>>>,
    to: Seq<int>,
    back: Seq<int>,
    digest_of: spec_fn(FileEntry) -> Option<Seq<u8>>,
    options: Options,
)
    requires
        is_rescan(entries, again, to, back),
        digests_are(bucketed(entries), digests, digest_of),
        digests_are(bucketed(again), digests_again, digest_of),
        is_report(first, bucketed(entries), digests, options),
        is_report(second, bucketed(again), digests_again, options),
    ensures
        as_sets(reported(first.groups@)) == as_sets(reported(second.groups@)),
        first.summary == second.summary,
{
    let found = found_groups(bucketed(entries), digests);
    let found_again = found_groups(bucketed(again), digests_again);
    lemma_rerun_same_found(entries, digests, again, digests_again, to, back, digest_of);
    lemma_rerun_same_counts(entries, digests, again, digests_again, to, back, digest_of);
    lemma_output_keeps_groups(reported(first.groups@), found, options.sort_output);
    lemma_output_keeps_groups(reported(second.groups@), found_again, options.sort_output);
    lemma_same_groups_same_sets(reported(first.groups@), found);
    lemma_same_groups_same_sets(reported(second.groups@), found_again);
}

/// Two lists that hold the same groups hold the same sets of files.
proof fn lemma_same_groups_same_sets(ordered: Seq<Seq<FileEntry>>, found: Seq<Seq<FileEntry>>)
    requires
        forall|k: int| 0 <= k < ordered.len() ==> found.contains(#[trigger] ordered[k]),
        forall|f: int| 0 <= f < found.len() ==> ordered.contains(#[trigger] found[f]),
    ensures
        as_sets(ordered) == as_sets(found),
{
    assert(as_sets(ordered) =~= as_sets(found)) by {
        assert forall|s: Set<FileEntry>| as_sets(ordered).contains(s) implies as_sets(found).contains(s) by {
            let k = choose|k: int| 0 <= k < ordered.len() && s == (#[trigger] ordered[k]).to_set();
            assert(found.contains(ordered[k]));
            let f = choose|f: int| 0 <= f < found.len() && found[f] == ordered[k];
            assert(s == found[f].to_set());
        }
        assert forall|s: Set<FileEntry>| as_sets(found).contains(s) implies as_sets(ordered).contains(s) by {
            let f = choose|f: int| 0 <= f < found.len() && s == (#[trigger] found[f]).to_set();
            assert(ordered.contains(found[f]));
            let k = choose|k: int| 0 <= k < ordered.len() && ordered[k] == found[f];
            assert(s == ordered[k].to_set());
        }
    }
}

} // verus!
