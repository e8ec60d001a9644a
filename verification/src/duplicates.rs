//! Telling true duplicates from size collisions among files of one size.

use std::collections::HashMap;
use vstd::prelude::*;
use vstd::std_specs::hash::group_hash_axioms;
use crate::entry::FileEntry;
use crate::digest::sha256;
use crate::grouping::{
    grouping, is_first, is_lone, is_shared, leaders, lemma_class_shares_key, lemma_filter_none,
    keyed, lemma_grouping_join, lemma_grouping_open, lemma_grouping_skip, lemma_grouping_total, lemma_leaders,
    is_moved, lemma_class_moves, lemma_counts_move, lemma_order_independent, lemma_shared_iff_same_key,
    lemma_total_shared_lone, lone_classes, share_class, shared_classes, total,
};
use crate::sort::entries_of;

verus! {

/// The digest of each position as a key: its bytes, or nothing where the
/// file could not be read.
pub open spec fn digest_keys(digests: Seq<Option<Vec<u8>>>) -> Seq<Option<Seq<u8>>> {
    Seq::new(
        digests.len(),
        |i: int|
            match digests[i] {
                Some(bytes) => Some(bytes@),
                None => None,
            },
    )
}

/// The positions a vector of classes holds.
pub open spec fn class_views(classes: Seq<Vec<usize>>) -> Seq<Seq<int>> {
    Seq::new(classes.len(), |g: int| Seq::new(classes[g]@.len(), |m: int| classes[g]@[m] as int))
}

/// Whether two byte strings are equal.
pub fn bytes_equal(a: &[u8], b: &[u8]) -> (equal: bool)
    ensures
        equal == (a@ == b@),
{
    if a.len() != b.len() {
        return false;
    }
    let mut i: usize = 0;
    while i < a.len()
        invariant
            i <= a.len(),
            a.len() == b.len(),
            forall|j: int| 0 <= j < i ==> a@[j] == b@[j],
        decreases a.len() - i,
    {
        if a[i] != b[i] {
            return false;
        }
        i += 1;
    }
    assert(a@ =~= b@);
    true
}

/// The first `n` bytes of a digest as a number, the first byte highest.
pub open spec fn short_key_upto(digest: Seq<u8>, n: nat) -> u64
    decreases n,
{
    if n == 0 {
        0
    } else {
        (short_key_upto(digest, (n - 1) as nat) << 8) | (digest[n - 1] as u64)
    }
}

/// The first bytes of a digest, at most eight, as a number. Classes are
/// looked up by it, so that a digest is compared only with the few that
/// begin like it.
pub open spec fn short_key(digest: Seq<u8>) -> u64 {
    short_key_upto(digest, if digest.len() < 8 { digest.len() } else { 8 })
}

/// The first bytes of a digest, at most eight, as a number.
pub fn short_key_of(digest: &[u8]) -> (key: u64)
    ensures
        key == short_key(digest@),
{
    let n: usize = if digest.len() < 8 {
        digest.len()
    } else {
        8
    };
    let mut key: u64 = 0;
    let mut i: usize = 0;
    while i < n
        invariant
            i <= n <= digest.len(),
            key == short_key_upto(digest@, i as nat),
        decreases n - i,
    {
        key = (key << 8) | (digest[i] as u64);
        i += 1;
    }
    key
}

/// The digest that the leader of class `g` has.
spec fn head_key(keys: Seq<Option<Seq<u8>>>, heads: Seq<usize>, g: int) -> Option<Seq<u8>> {
    keys[heads[g] as int]
}

/// Whether class `g`, whose leader has the given digest, stands in the
/// chain of the short key of that digest.
spec fn chained(chains: Map<u64, Vec<usize>>, digest: Option<Seq<u8>>, g: int) -> bool {
    match digest {
        Some(bytes) => chains.contains_key(short_key(bytes)) && chains[short_key(bytes)]@.contains(g as usize),
        None => false,
    }
}

/// Whether the chains find every class: each class stands in the chain of
/// the short key of its digest, and the chains list nothing but classes.
spec fn indexed(chains: Map<u64, Vec<usize>>, keys: Seq<Option<Seq<u8>>>, heads: Seq<usize>) -> bool {
    &&& forall|g: int| 0 <= g < heads.len() ==> #[trigger] chained(chains, head_key(keys, heads, g), g)
    &&& forall|key: u64, c: int|
        chains.contains_key(key) && 0 <= c < chains[key]@.len() ==> (#[trigger] chains[key]@[c]) < heads.len()
}

/// Looks in a chain for the class with the given digest.
fn find_in_chain(digests: &Vec<Option<Vec<u8>>>, heads: &Vec<usize>, chain: &Vec<usize>, digest: &[u8]) -> (found:
    Option<usize>)
    requires
        forall|c: int| 0 <= c < chain.len() ==> #[trigger] chain[c] < heads.len(),
        forall|g: int| 0 <= g < heads.len() ==> #[trigger] heads[g] < digests.len(),
    ensures
        match found {
            Some(g) => g < heads.len() && head_key(digest_keys(digests@), heads@, g as int) == Some(digest@),
            None => forall|c: int|
                0 <= c < chain.len() ==> head_key(digest_keys(digests@), heads@, #[trigger] chain[c] as int)
                    != Some(digest@),
        },
{
    let mut c: usize = 0;
    while c < chain.len()
        invariant
            c <= chain.len(),
            forall|c: int| 0 <= c < chain.len() ==> #[trigger] chain[c] < heads.len(),
            forall|g: int| 0 <= g < heads.len() ==> #[trigger] heads[g] < digests.len(),
            forall|b: int|
                0 <= b < c ==> head_key(digest_keys(digests@), heads@, #[trigger] chain[b] as int) != Some(digest@),
        decreases chain.len() - c,
    {
        let g = chain[c];
        let same = match &digests[heads[g]] {
            Some(other) => bytes_equal(other.as_slice(), digest),
            None => false,
        };
        if same {
            return Some(g);
        }
        c += 1;
    }
    None
}

/// Groups the positions of `digests` by digest.
pub fn group_positions(digests: &Vec<Option<Vec<u8>>>) -> (classes: Vec<Vec<usize>>)
    ensures
        class_views(classes@) == grouping(digest_keys(digests@)),
{
    broadcast use group_hash_axioms;

    let ghost keys = digest_keys(digests@);
    let mut heads: Vec<usize> = Vec::new();
    let mut classes: Vec<Vec<usize>> = Vec::new();
    let mut chains: HashMap<u64, Vec<usize>> = HashMap::new();
    let mut i: usize = 0;
    proof {
        lemma_leaders(keys.take(0));
        assert(class_views(classes@) =~= grouping(keys.take(0)));
    }
    while i < digests.len()
        invariant
            i <= digests.len(),
            keys == digest_keys(digests@),
            heads.len() == classes.len(),
            heads.len() == leaders(keys.take(i as int)).len(),
            forall|g: int| 0 <= g < heads.len() ==> #[trigger] heads[g] as int == leaders(keys.take(i as int))[g],
            class_views(classes@) == grouping(keys.take(i as int)),
            indexed(chains@, keys, heads@),
        decreases digests.len() - i,
    {
        let ghost seen = keys.take(i as int);
        proof {
            assert(keys.take(i + 1) =~= seen.push(keys[i as int]));
            lemma_leaders(seen);
            assert forall|g: int| 0 <= g < heads.len() implies #[trigger] heads[g] < i by {
                assert(is_first(seen, leaders(seen)[g]));
            }
        }
        match &digests[i] {
            None => {
                proof {
                    lemma_grouping_skip(seen);
                }
            },
            Some(digest) => {
                let key = short_key_of(digest.as_slice());
                let ghost before = chains@;
                let ghost old_heads = heads@;
                let mut chain = match chains.remove(&key) {
                    Some(chain) => chain,
                    None => Vec::new(),
                };
                let ghost old_chain = chain@;
                let found = find_in_chain(digests, &heads, &chain, digest.as_slice());
                match found {
                    Some(g) => {
                        classes[g].push(i);
                        proof {
                            assert(seen[heads[g as int] as int] == keys[heads[g as int] as int]);
                            lemma_grouping_join(seen, keys[i as int], g as int);
                            assert(class_views(classes@) =~~= grouping(seen).update(
                                g as int,
                                grouping(seen)[g as int].push(i as int),
                            ));
                        }
                    },
                    None => {
                        proof {
                            assert forall|g: int| 0 <= g < leaders(seen).len() implies seen[#[trigger] leaders(
                                seen,
                            )[g]] != keys[i as int] by {
                                assert(seen[heads[g] as int] == keys[heads[g] as int]);
                                if head_key(keys, heads@, g) == Some(digest@) {
                                    assert(chained(before, head_key(keys, heads@, g), g));
                                    assert(before.contains_key(key) && before[key]@.contains(g as usize));
                                    let c = choose|c: int| 0 <= c < old_chain.len() && old_chain[c] == g as usize;
                                    assert(head_key(keys, heads@, chain[c] as int) != Some(digest@));
                                }
                            }
                            lemma_grouping_open(seen, keys[i as int]);
                        }
                        chain.push(heads.len());
                        heads.push(i);
                        let mut class: Vec<usize> = Vec::new();
                        class.push(i);
                        classes.push(class);
                        proof {
                            assert(class_views(classes@) =~~= grouping(seen).push(seq![i as int]));
                        }
                    },
                }
                chains.insert(key, chain);
                proof {
                    assert forall|g: int| 0 <= g < heads.len() implies #[trigger] chained(
                        chains@,
                        head_key(keys, heads@, g),
                        g,
                    ) by {
                        if g < old_heads.len() {
                            assert(head_key(keys, old_heads, g) == head_key(keys, heads@, g));
                            assert(chained(before, head_key(keys, old_heads, g), g));
                            let d = head_key(keys, old_heads, g)->Some_0;
                            if short_key(d) == key {
                                assert(old_chain.contains(g as usize));
                                let c = choose|c: int| 0 <= c < old_chain.len() && old_chain[c] == g as usize;
                                assert(chain@[c] == g as usize);
                            } else {
                                assert(before.remove(key).contains_key(short_key(d)));
                            }
                        } else {
                            assert(head_key(keys, heads@, g) == Some(digest@));
                            assert(chain@[chain.len() - 1] == g as usize);
                        }
                    }
                    assert forall|k: u64, c: int|
                        chains@.contains_key(k) && 0 <= c < chains@[k]@.len() implies (#[trigger] chains@[k]@[c])
                        < heads.len() by {
                        if k == key {
                            if c < old_chain.len() {
                                assert(chain@[c] == old_chain[c]);
                                if before.contains_key(key) {
                                    assert(before[key]@[c] < old_heads.len());
                                }
                            }
                        } else {
                            assert(before.contains_key(k));
                            assert(before[k]@[c] < old_heads.len());
                        }
                    }
                }
            },
        }
        i += 1;
    }
    assert(keys.take(i as int) =~= keys);
    classes
}

/// The entries at the positions that each class lists.
pub open spec fn members(files: Seq<FileEntry>, classes: Seq<Seq<int>>) -> Seq<Seq<FileEntry>> {
    Seq::new(classes.len(), |g: int| Seq::new(classes[g].len(), |m: int| files[classes[g][m]]))
}

/// The entries that each group refers to.
pub open spec fn group_entries(groups: Seq<Vec<&FileEntry>>) -> Seq<Seq<FileEntry>> {
    Seq::new(groups.len(), |g: int| entries_of(groups[g]@))
}

/// The duplicate groups among files of one size: the files of each digest
/// that at least two files have, groups in the order in which their digest
/// first occurs, members in arrival order.
pub open spec fn duplicate_groups(files: Seq<FileEntry>, digests: Seq<Option<Vec<u8>>>) -> Seq<
    Seq<FileEntry>,
> {
    if files.len() == 1 {
        Seq::empty()
    } else {
        members(files, shared_classes(digest_keys(digests)))
    }
}

/// The number of size collisions among files of one size: digests that a
/// single file has. A file that is alone with its size is no collision.
pub open spec fn size_collisions(files: Seq<FileEntry>, digests: Seq<Option<Vec<u8>>>) -> nat {
    if files.len() == 1 {
        0
    } else {
        lone_classes(digest_keys(digests)).len()
    }
}

/// The references to the files at the positions of one class.
pub(crate) fn class_members<'a>(files: &Vec<&'a FileEntry>, class: &Vec<usize>) -> (group: Vec<&'a FileEntry>)
    requires
        forall|m: int| 0 <= m < class.len() ==> #[trigger] class[m] < files.len(),
    ensures
        entries_of(group@) == Seq::new(class@.len(), |m: int| *files@[class@[m] as int]),
{
    let mut group: Vec<&'a FileEntry> = Vec::new();
    let mut m: usize = 0;
    while m < class.len()
        invariant
            m <= class.len(),
            group.len() == m,
            forall|m: int| 0 <= m < class.len() ==> #[trigger] class[m] < files.len(),
            forall|k: int| 0 <= k < m ==> *#[trigger] group[k] == *files[class[k] as int],
        decreases class.len() - m,
    {
        let entry: &'a FileEntry = files[class[m]];
        group.push(entry);
        m += 1;
    }
    assert(entries_of(group@) =~= Seq::new(class@.len(), |m: int| *files@[class@[m] as int]));
    group
}

/// Finds the true duplicates among files of one size, given the digest of
/// each or `None` where the file could not be read.
///
/// Files with the same digest form a group when there are at least two of
/// them; a digest that only one file has counts as a size collision. A
/// file that is alone with its size is neither, and its digest is not
/// looked at.
pub(crate) fn true_duplicates<'a>(files: &Vec<&'a FileEntry>, digests: &Vec<Option<Vec<u8>>>) -> (result: (
    Vec<Vec<&'a FileEntry>>,
    usize,
))
    requires
        files.len() != 1 ==> digests.len() == files.len(),
    ensures
        group_entries(result.0@) == duplicate_groups(entries_of(files@), digests@),
        result.1 == size_collisions(entries_of(files@), digests@),
{
    let ghost entries = entries_of(files@);
    let mut groups: Vec<Vec<&'a FileEntry>> = Vec::new();
    let mut collisions: usize = 0;
    if files.len() == 1 {
        assert(group_entries(groups@) =~= duplicate_groups(entries, digests@));
        return (groups, collisions);
    }
    let classes = group_positions(digests);
    let ghost keys = digest_keys(digests@);
    let ghost all = grouping(keys);
    let mut g: usize = 0;
    proof {
        assert(all.take(0) =~= Seq::<Seq<int>>::empty());
        lemma_filter_none(all.take(0), is_shared());
        lemma_filter_none(all.take(0), is_lone());
        assert(group_entries(groups@) =~= members(entries, all.take(0).filter(is_shared())));
    }
    while g < classes.len()
        invariant
            g <= classes.len(),
            collisions <= g,
            keys == digest_keys(digests@),
            keys.len() == files.len(),
            entries == entries_of(files@),
            all == grouping(keys),
            class_views(classes@) == all,
            group_entries(groups@) == members(entries, all.take(g as int).filter(is_shared())),
            collisions == all.take(g as int).filter(is_lone()).len(),
        decreases classes.len() - g,
    {
        let ghost done = all.take(g as int);
        let class = &classes[g];
        proof {
            assert(all.take(g + 1) =~= done.push(all[g as int]));
            done.lemma_filter_push(all[g as int], is_shared());
            done.lemma_filter_push(all[g as int], is_lone());
            lemma_class_shares_key(keys, g as int);
            assert(class_views(classes@)[g as int] == all[g as int]);
            assert(class@.len() == all[g as int].len());
            assert forall|m: int| 0 <= m < class.len() implies #[trigger] class[m] < files.len() by {
                assert(class[m] as int == all[g as int][m]);
            }
        }
        if class.len() > 1 {
            let group = class_members(files, class);
            let ghost prev = groups@;
            groups.push(group);
            proof {
                let shared = done.filter(is_shared());
                let target = members(entries, shared.push(all[g as int]));
                assert(entries_of(group@) =~= Seq::new(
                    all[g as int].len(),
                    |m: int| entries[all[g as int][m]],
                )) by {
                    assert forall|m: int| 0 <= m < class.len() implies *files@[class@[m] as int]
                        == entries[all[g as int][m]] by {
                        assert(class[m] as int == all[g as int][m]);
                    }
                }
                assert(group_entries(prev).len() == prev.len());
                assert(members(entries, shared).len() == shared.len());
                assert(target.len() == shared.len() + 1);
                assert forall|h: int| 0 <= h < groups.len() implies #[trigger] group_entries(groups@)[h]
                    == target[h] by {
                    if h < prev.len() {
                        assert(group_entries(prev)[h] == members(entries, shared)[h]);
                        assert(group_entries(groups@)[h] =~= group_entries(prev)[h]);
                        assert(target[h] =~= members(entries, shared)[h]);
                    } else {
                        assert(target[h] =~= Seq::new(all[g as int].len(), |m: int| entries[all[g as int][m]]));
                    }
                }
                assert(group_entries(groups@) =~= target);
            }
        } else {
            collisions += 1;
        }
        g += 1;
    }
    assert(all.take(g as int) =~= all);
    (groups, collisions)
}

/// The entries of classes are as many as the positions the classes list.
pub proof fn lemma_total_members(files: Seq<FileEntry>, classes: Seq<Seq<int>>)
    ensures
        total(members(files, classes)) == total(classes),
    decreases classes.len(),
{
    if classes.len() > 0 {
        lemma_total_members(files, classes.drop_last());
        assert(members(files, classes).drop_last() =~~= members(files, classes.drop_last()));
    }
}

/// The number of files of one size that were read: those that have a
/// digest, where there are several files of the size. A file that is alone
/// with its size is not read.
pub open spec fn files_read(files: Seq<FileEntry>, digests: Seq<Option<Vec<u8>>>) -> nat {
    if files.len() == 1 {
        0
    } else {
        keyed(digest_keys(digests))
    }
}

/// Every file that was read stands in exactly one duplicate group or is
/// exactly one size collision: the members of the groups and the
/// collisions are together as many as the files that were read, which are
/// no more than there are files.
pub proof fn lemma_duplicates_account(files: Seq<FileEntry>, digests: Seq<Option<Vec<u8>>>)
    requires
        files.len() != 1 ==> digests.len() == files.len(),
    ensures
        total(duplicate_groups(files, digests)) + size_collisions(files, digests) == files_read(files, digests),
        files_read(files, digests) <= files.len(),
{
    if files.len() != 1 {
        let keys = digest_keys(digests);
        lemma_total_members(files, shared_classes(keys));
        lemma_total_shared_lone(grouping(keys));
        lemma_grouping_total(keys);
        assert forall|g: int| 0 <= g < grouping(keys).len() implies (#[trigger] grouping(keys)[g]).len() >= 1 by {
            lemma_class_shares_key(keys, g);
        }
    }
}

/// Whether the files at positions `i` and `j` of one size are reported
/// together in a duplicate group.
pub open spec fn grouped(digests: Seq<Option<Vec<u8>>>, i: int, j: int) -> bool {
    share_class(shared_classes(digest_keys(digests)), i, j)
}

/// No false duplicates: two files of one size whose digests differ, or of
/// which one could not be read, are never reported in one group.
pub proof fn lemma_no_false_duplicates(digests: Seq<Option<Vec<u8>>>, i: int, j: int)
    requires
        0 <= i < digests.len(),
        0 <= j < digests.len(),
        i != j,
        digest_keys(digests)[i].is_none() || digest_keys(digests)[i] != digest_keys(digests)[j],
    ensures
        !grouped(digests, i, j),
{
    lemma_shared_iff_same_key(digest_keys(digests), i, j);
}

/// No missed duplicates: two files with identical content, both read, are
/// reported in one group, wherever in the traversal they stand. Their
/// digests are those of their contents, and equal contents have equal
/// lengths, so the files also share their size bucket.
pub proof fn lemma_identical_content_grouped(
    contents: Seq<Seq<u8>>,
    digests: Seq<Option<Vec<u8>>>,
    i: int,
    j: int,
)
    requires
        contents.len() == digests.len(),
        0 <= i < digests.len(),
        0 <= j < digests.len(),
        i != j,
        digest_keys(digests)[i] == Some(sha256(contents[i])),
        digest_keys(digests)[j] == Some(sha256(contents[j])),
        contents[i] == contents[j],
    ensures
        grouped(digests, i, j),
        contents[i].len() == contents[j].len(),
{
    lemma_shared_iff_same_key(digest_keys(digests), i, j);
}

/// A second run over the same files finds the same duplicates, whatever
/// the order in which the files arrive: where `again` holds the digests of
/// `digests` in another order, the file at position `i` standing at
/// position `to[i]`, two files are reported together in the first run
/// exactly when they are in the second.
pub proof fn lemma_rerun_same_duplicates(
    digests: Seq<Option<Vec<u8>>>,
    again: Seq<Option<Vec<u8>>>,
    to: Seq<int>,
    i: int,
    j: int,
)
    requires
        to.len() == digests.len(),
        forall|k: int|
            0 <= k < digests.len() ==> 0 <= #[trigger] to[k] < again.len() && digest_keys(again)[to[k]]
                == digest_keys(digests)[k],
        0 <= i < digests.len(),
        0 <= j < digests.len(),
        i != j,
        to[i] != to[j],
    ensures
        grouped(digests, i, j) <==> grouped(again, to[i], to[j]),
{
    lemma_order_independent(digest_keys(digests), digest_keys(again), to, i, j);
}

/// Every duplicate group has at least two members.
pub proof fn lemma_groups_shared(files: Seq<FileEntry>, digests: Seq<Option<Vec<u8>>>)
    ensures
        forall|g: int|
            0 <= g < duplicate_groups(files, digests).len() ==> (#[trigger] duplicate_groups(
                files,
                digests,
            )[g]).len() >= 2,
{
    if files.len() != 1 {
        let classes = grouping(digest_keys(digests));
        assert forall|g: int| 0 <= g < duplicate_groups(files, digests).len() implies (#[trigger] duplicate_groups(
            files,
            digests,
        )[g]).len() >= 2 by {
            classes.lemma_filter_pred(is_shared(), g);
        }
    }
}

/// Groups as a set of sets of files: what is left of them when neither the
/// order of the groups nor the order of their members counts.
pub open spec fn as_sets(groups: Seq<Seq<FileEntry>>) -> Set<Set<FileEntry>> {
    Set::new(|files: Set<FileEntry>| exists|g: int| 0 <= g < groups.len() && files == (#[trigger] groups[g]).to_set())
}

/// Whether `again` and `digests_again` hold the files of `files` and their
/// digests in another order: the file at position `k` stands at position
/// `to[k]`, and `back` leads the other way.
pub open spec fn is_traversal(
    files: Seq<FileEntry>,
    digests: Seq<Option<Vec<u8>>>,
    again: Seq<FileEntry>,
    digests_again: Seq<Option<Vec<u8>>>,
    to: Seq<int>,
    back: Seq<int>,
) -> bool {
    &&& digests.len() == files.len()
    &&& digests_again.len() == again.len()
    &&& again.len() == files.len()
    &&& is_moved(digest_keys(digests), digest_keys(digests_again), to, back)
    &&& forall|k: int| 0 <= k < files.len() ==> again[#[trigger] to[k]] == files[k]
}

/// Every duplicate group of one traversal is, as a set of files, a
/// duplicate group of the other.
pub proof fn lemma_group_moves(
    files: Seq<FileEntry>,
    digests: Seq<Option<Vec<u8>>>,
    again: Seq<FileEntry>,
    digests_again: Seq<Option<Vec<u8>>>,
    to: Seq<int>,
    back: Seq<int>,
    g: int,
)
    requires
        is_traversal(files, digests, again, digests_again, to, back),
        0 <= g < duplicate_groups(files, digests).len(),
    ensures
        as_sets(duplicate_groups(again, digests_again)).contains(duplicate_groups(files, digests)[g].to_set()),
{
    let keys = digest_keys(digests);
    let moved = digest_keys(digests_again);
    let shared = shared_classes(keys);
    let class = shared[g];
    let group = duplicate_groups(files, digests)[g];
    grouping(keys).lemma_filter_pred(is_shared(), g);
    assert(shared.contains(class));
    grouping(keys).lemma_filter_contains_rev(is_shared(), class);
    let at = choose|at: int| 0 <= at < grouping(keys).len() && grouping(keys)[at] == class;
    let there = lemma_class_moves(keys, moved, to, back, at);
    let other = grouping(moved)[there];
    grouping(moved).lemma_filter_contains(is_shared(), there);
    let h = choose|h: int| 0 <= h < shared_classes(moved).len() && shared_classes(moved)[h] == other;
    let met = duplicate_groups(again, digests_again)[h];
    lemma_class_shares_key(keys, at);
    lemma_class_shares_key(moved, there);
    assert(group.to_set() =~= met.to_set()) by {
        assert forall|x: FileEntry| group.to_set().contains(x) implies met.to_set().contains(x) by {
            let m = choose|m: int| 0 <= m < group.len() && group[m] == x;
            assert(class.contains(class[m]));
            assert(other.contains(to[class[m]]));
            let n = choose|n: int| 0 <= n < other.len() && other[n] == to[class[m]];
            assert(met[n] == x);
        }
        assert forall|x: FileEntry| met.to_set().contains(x) implies group.to_set().contains(x) by {
            let n = choose|n: int| 0 <= n < met.len() && met[n] == x;
            assert(other.contains(other[n]));
            assert(class.contains(back[other[n]]));
            let m = choose|m: int| 0 <= m < class.len() && class[m] == back[other[n]];
            assert(to[back[other[n]]] == other[n]);
            assert(group[m] == x);
        }
    }
}

/// Another traversal order yields the same duplicates: where the same
/// files with the same digests arrive in another order, the duplicate
/// groups are the same sets of files, there are as many of them with as
/// many members, and there are as many size collisions.
pub proof fn lemma_rerun_same_groups(
    files: Seq<FileEntry>,
    digests: Seq<Option<Vec<u8>>>,
    again: Seq<FileEntry>,
    digests_again: Seq<Option<Vec<u8>>>,
    to: Seq<int>,
    back: Seq<int>,
)
    requires
        is_traversal(files, digests, again, digests_again, to, back),
    ensures
        as_sets(duplicate_groups(files, digests)) == as_sets(duplicate_groups(again, digests_again)),
        duplicate_groups(files, digests).len() == duplicate_groups(again, digests_again).len(),
        total(duplicate_groups(files, digests)) == total(duplicate_groups(again, digests_again)),
        size_collisions(files, digests) == size_collisions(again, digests_again),
{
    let first = duplicate_groups(files, digests);
    let second = duplicate_groups(again, digests_again);
    let keys = digest_keys(digests);
    let moved = digest_keys(digests_again);
    assert(is_traversal(again, digests_again, files, digests, back, to)) by {
        assert forall|j: int| 0 <= j < moved.len() implies keys[#[trigger] back[j]] == moved[j] && files[back[j]]
            == again[j] by {
            assert(moved[to[back[j]]] == keys[back[j]]);
            assert(again[to[back[j]]] == files[back[j]]);
        }
    }
    assert(as_sets(first) =~= as_sets(second)) by {
        assert forall|s: Set<FileEntry>| as_sets(first).contains(s) implies as_sets(second).contains(s) by {
            let g = choose|g: int| 0 <= g < first.len() && s == (#[trigger] first[g]).to_set();
            lemma_group_moves(files, digests, again, digests_again, to, back, g);
        }
        assert forall|s: Set<FileEntry>| as_sets(second).contains(s) implies as_sets(first).contains(s) by {
            let g = choose|g: int| 0 <= g < second.len() && s == (#[trigger] second[g]).to_set();
            lemma_group_moves(again, digests_again, files, digests, back, to, g);
        }
    }
    if files.len() != 1 {
        lemma_counts_move(keys, moved, to, back);
        lemma_total_members(files, shared_classes(keys));
        lemma_total_members(again, shared_classes(moved));
    }
}

} // verus!
