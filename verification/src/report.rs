//! The report of a run of the exact-duplicate engine.

use vstd::prelude::*;
use crate::duplicates::group_entries;
use crate::entry::FileEntry;
use crate::options::FileOrdering;
use crate::grouping::lemma_filter_none;
use crate::selection::{MetadataMissing, SelectionResult};
use crate::sort::{
    all_have_key, entries_of, is_stable_order, lemma_stable_order_unique, positions, stable_order,
};

verus! {

/// The last member of each group.
pub open spec fn last_members(groups: Seq<Seq<FileEntry>>) -> Seq<FileEntry> {
    Seq::new(groups.len(), |g: int| groups[g].last())
}

/// The predicate "the last member carries the key of `order`".
pub open spec fn last_has_key(order: FileOrdering) -> spec_fn(Seq<FileEntry>) -> bool {
    |group: Seq<FileEntry>| group.last().has_key(order)
}

/// The predicate "the last member lacks the key of `order`".
pub open spec fn last_lacks_key(order: FileOrdering) -> spec_fn(Seq<FileEntry>) -> bool {
    |group: Seq<FileEntry>| !group.last().has_key(order)
}

/// The groups that can be placed by the key of their last member, as found.
pub open spec fn sortable(found: Seq<Seq<FileEntry>>, order: FileOrdering) -> Seq<Seq<FileEntry>> {
    found.filter(last_has_key(order))
}

/// The groups whose last member has no timestamp to place them by, as found.
pub open spec fn unsortable(found: Seq<Seq<FileEntry>>, order: FileOrdering) -> Seq<Seq<FileEntry>> {
    found.filter(last_lacks_key(order))
}

/// Whether `ordered` holds the groups of `found` in the order of output:
/// as they were found, or stably sorted by the key that their last member
/// has under the requested ordering. A group whose last member lacks the
/// timestamp stands behind those that can be sorted, in the order in which
/// the groups were found: the missing timestamp costs that group its
/// place and touches no other.
pub open spec fn is_output_order(
    ordered: Seq<Seq<FileEntry>>,
    found: Seq<Seq<FileEntry>>,
    sort: Option<FileOrdering>,
) -> bool {
    match sort {
        None => ordered == found,
        Some(order) => exists|perm: Seq<int>| #[trigger]
            is_stable_order(perm, last_members(sortable(found, order)), order) && ordered == Seq::new(
                perm.len(),
                |k: int| sortable(found, order)[perm[k]],
            ) + unsortable(found, order),
    }
}

/// The bytes that removing the duplicates of every group would free: for
/// each group its size times the number of members beyond the first.
pub open spec fn reclaimable(groups: Seq<Seq<FileEntry>>) -> nat
    decreases groups.len(),
{
    if groups.len() == 0 {
        0
    } else {
        let group = groups.last();
        (reclaimable(groups.drop_last()) + group[0].size * (group.len() - 1)) as nat
    }
}

/// The counts that close a run.
#[derive(Debug, Clone, Copy, PartialEq, Eq, Structural)]
pub struct Summary {
    /// The number of duplicate groups.
    pub duplicate_groups: usize,
    /// The number of files in duplicate groups, sources included.
    pub duplicate_count: usize,
    /// The number of files that share their size with others but their
    /// content with none.
    pub collision_count: usize,
    /// The bytes that removing the reported duplicates frees.
    pub space_saved: u128,
}

/// What the engine reports of one duplicate group.
#[derive(Debug)]
pub struct GroupReport<'a> {
    /// The members in arrival order.
    pub members: Vec<&'a FileEntry>,
    /// The member to keep and the duplicates, or the member whose
    /// timestamp is missing.
    pub selection: Result<SelectionResult<'a>, MetadataMissing>,
}

/// The outcome of a run.
#[derive(Debug)]
pub struct Report<'a> {
    /// The duplicate groups in the order of output.
    pub groups: Vec<GroupReport<'a>>,
    pub summary: Summary,
}

/// The files that a report gives up for removal: the duplicates of every
/// group that was split, in the order of the report. No source is among
/// them, and no member of a group that could not be split.
pub open spec fn doomed(groups: Seq<GroupReport<'_>>) -> Seq<FileEntry>
    decreases groups.len(),
{
    if groups.len() == 0 {
        Seq::empty()
    } else {
        doomed(groups.drop_last()) + match groups.last().selection {
            Ok(selection) => entries_of(selection.duplicates@),
            Err(_) => Seq::empty(),
        }
    }
}

/// The members of each reported group.
pub open spec fn reported(groups: Seq<GroupReport<'_>>) -> Seq<Seq<FileEntry>> {
    Seq::new(groups.len(), |g: int| entries_of(groups[g].members@))
}

/// A copy of the references that a group holds.
fn copy_group<'a>(group: &Vec<&'a FileEntry>) -> (copy: Vec<&'a FileEntry>)
    ensures
        entries_of(copy@) == entries_of(group@),
{
    let mut copy: Vec<&'a FileEntry> = Vec::new();
    let mut m: usize = 0;
    while m < group.len()
        invariant
            m <= group.len(),
            copy.len() == m,
            forall|k: int| 0 <= k < m ==> *#[trigger] copy[k] == *group[k],
        decreases group.len() - m,
    {
        let entry: &'a FileEntry = group[m];
        copy.push(entry);
        m += 1;
    }
    assert(entries_of(copy@) =~= entries_of(group@));
    copy
}

/// The groups grow by one where a group is pushed.
proof fn lemma_group_entries_push(groups: Seq<Vec<&FileEntry>>, group: Vec<&FileEntry>)
    ensures
        group_entries(groups.push(group)) == group_entries(groups).push(entries_of(group@)),
{
    assert(group_entries(groups.push(group)) =~= group_entries(groups).push(entries_of(group@)));
}

/// Puts duplicate groups into the order of output: as they are, or stably
/// sorted by the key that the last member of each has under `sort`, the
/// groups whose last member lacks that key behind the others as they are.
pub fn order_groups<'a>(groups: Vec<Vec<&'a FileEntry>>, sort: Option<FileOrdering>) -> (ordered: Vec<
    Vec<&'a FileEntry>,
>)
    requires
        forall|g: int| 0 <= g < groups.len() ==> (#[trigger] groups[g]).len() > 0,
    ensures
        is_output_order(group_entries(ordered@), group_entries(groups@), sort),
{
    let order = match sort {
        None => {
            return groups;
        },
        Some(order) => order,
    };
    let ghost all = groups@;
    let ghost found = group_entries(groups@);
    let mut keyed: Vec<Vec<&'a FileEntry>> = Vec::new();
    let mut rest: Vec<Vec<&'a FileEntry>> = Vec::new();
    let ghost mut done: Seq<Seq<FileEntry>> = Seq::empty();
    proof {
        lemma_filter_none(done, last_has_key(order));
        lemma_filter_none(done, last_lacks_key(order));
        assert(group_entries(keyed@) =~= done.filter(last_has_key(order)));
        assert(group_entries(rest@) =~= done.filter(last_lacks_key(order)));
    }
    for group in it: groups
        invariant
            it.seq() == all,
            found == group_entries(all),
            forall|g: int| 0 <= g < all.len() ==> (#[trigger] all[g]).len() > 0,
            done == found.take(it.index() as int),
            group_entries(keyed@) == done.filter(last_has_key(order)),
            group_entries(rest@) == done.filter(last_lacks_key(order)),
            forall|h: int|
                0 <= h < keyed.len() ==> (#[trigger] keyed[h]).len() > 0 && keyed[h]@.last().has_key(order),
    {
        let ghost entries = entries_of(group@);
        proof {
            assert(group == all[it.index() as int]);
            assert(found.take(it.index() + 1) =~= done.push(entries));
            done.lemma_filter_push(entries, last_has_key(order));
            done.lemma_filter_push(entries, last_lacks_key(order));
            lemma_group_entries_push(keyed@, group);
            lemma_group_entries_push(rest@, group);
            assert(entries.last() == *group@.last());
            done = done.push(entries);
        }
        let last: &'a FileEntry = group[group.len() - 1];
        if last.has_key_for(order) {
            keyed.push(group);
        } else {
            rest.push(group);
        }
    }
    assert(done =~= found);
    let ghost first = group_entries(keyed@);
    let mut last: Vec<&'a FileEntry> = Vec::new();
    let mut g: usize = 0;
    while g < keyed.len()
        invariant
            g <= keyed.len(),
            last.len() == g,
            forall|h: int|
                0 <= h < keyed.len() ==> (#[trigger] keyed[h]).len() > 0 && keyed[h]@.last().has_key(order),
            forall|h: int| 0 <= h < g ==> *#[trigger] last[h] == *keyed[h]@.last(),
        decreases keyed.len() - g,
    {
        let group = &keyed[g];
        let entry: &'a FileEntry = group[group.len() - 1];
        last.push(entry);
        g += 1;
    }
    assert(entries_of(last@) =~= last_members(first));
    assert(all_have_key(entries_of(last@), order)) by {
        assert forall|h: int| 0 <= h < last.len() implies (#[trigger] entries_of(last@)[h]).has_key(order) by {
            assert(keyed[h]@.last().has_key(order));
        }
    }
    let perm = stable_order(&last, order);
    let ghost ps = positions(perm@);
    let mut ordered: Vec<Vec<&'a FileEntry>> = Vec::new();
    let mut k: usize = 0;
    while k < perm.len()
        invariant
            k <= perm.len(),
            ordered.len() == k,
            ps == positions(perm@),
            first == group_entries(keyed@),
            is_stable_order(ps, last_members(first), order),
            forall|j: int| 0 <= j < k ==> entries_of(#[trigger] ordered[j]@) == first[ps[j]],
        decreases perm.len() - k,
    {
        assert(0 <= ps[k as int] < first.len());
        let copy = copy_group(&keyed[perm[k]]);
        ordered.push(copy);
        k += 1;
    }
    let ghost sorted = ordered@;
    let ghost behind = rest@;
    ordered.append(&mut rest);
    assert(group_entries(ordered@) =~= Seq::new(ps.len(), |k: int| first[ps[k]]) + group_entries(behind)) by {
        assert(group_entries(sorted) =~= Seq::new(ps.len(), |k: int| first[ps[k]]));
        assert(group_entries(ordered@) =~= group_entries(sorted) + group_entries(behind));
    }
    assert(first == sortable(found, order));
    assert(group_entries(behind) == unsortable(found, order));
    assert(is_stable_order(ps, last_members(sortable(found, order)), order));
    assert(is_output_order(group_entries(ordered@), found, sort));
    ordered
}

/// The order of output is determined by the groups that were found: two
/// runs that find the same groups put them out in the same order.
pub proof fn lemma_output_order_unique(
    first: Seq<Seq<FileEntry>>,
    second: Seq<Seq<FileEntry>>,
    found: Seq<Seq<FileEntry>>,
    sort: Option<FileOrdering>,
)
    requires
        is_output_order(first, found, sort),
        is_output_order(second, found, sort),
    ensures
        first == second,
{
    if let Some(order) = sort {
        let keyed = sortable(found, order);
        let rest = unsortable(found, order);
        let p = choose|p: Seq<int>| #[trigger]
            is_stable_order(p, last_members(keyed), order) && first == Seq::new(p.len(), |k: int| keyed[p[k]])
                + rest;
        let q = choose|q: Seq<int>| #[trigger]
            is_stable_order(q, last_members(keyed), order) && second == Seq::new(q.len(), |k: int| keyed[q[k]])
                + rest;
        lemma_stable_order_unique(p, q, last_members(keyed), order);
    }
}

/// The groups that can be sorted and those that cannot are together all
/// the groups.
proof fn lemma_partition_len(found: Seq<Seq<FileEntry>>, order: FileOrdering)
    ensures
        sortable(found, order).len() + unsortable(found, order).len() == found.len(),
    decreases found.len(),
{
    if found.len() == 0 {
        lemma_filter_none(found, last_has_key(order));
        lemma_filter_none(found, last_lacks_key(order));
    } else {
        let init = found.drop_last();
        lemma_partition_len(init, order);
        assert(init.push(found.last()) =~= found);
        init.lemma_filter_push(found.last(), last_has_key(order));
        init.lemma_filter_push(found.last(), last_lacks_key(order));
    }
}

/// The order of output loses no group and adds none: as many groups are
/// put out as were found, every one of them was found, and every group
/// that was found is put out, whether or not it could be placed by its key.
pub proof fn lemma_output_keeps_groups(
    ordered: Seq<Seq<FileEntry>>,
    found: Seq<Seq<FileEntry>>,
    sort: Option<FileOrdering>,
)
    requires
        is_output_order(ordered, found, sort),
    ensures
        ordered.len() == found.len(),
        forall|k: int| 0 <= k < ordered.len() ==> found.contains(#[trigger] ordered[k]),
        forall|f: int| 0 <= f < found.len() ==> ordered.contains(#[trigger] found[f]),
{
    if let Some(order) = sort {
        let keyed = sortable(found, order);
        let rest = unsortable(found, order);
        let p = choose|p: Seq<int>| #[trigger]
            is_stable_order(p, last_members(keyed), order) && ordered == Seq::new(p.len(), |k: int| keyed[p[k]])
                + rest;
        lemma_partition_len(found, order);
        assert forall|k: int| 0 <= k < ordered.len() implies found.contains(#[trigger] ordered[k]) by {
            if k < p.len() {
                assert(ordered[k] == keyed[p[k]]);
                assert(keyed.contains(keyed[p[k]]));
                found.lemma_filter_contains_rev(last_has_key(order), ordered[k]);
            } else {
                assert(ordered[k] == rest[k - p.len()]);
                assert(rest.contains(rest[k - p.len()]));
                found.lemma_filter_contains_rev(last_lacks_key(order), ordered[k]);
            }
        }
        assert forall|f: int| 0 <= f < found.len() implies ordered.contains(#[trigger] found[f]) by {
            if last_has_key(order)(found[f]) {
                found.lemma_filter_contains(last_has_key(order), f);
                let h = choose|h: int| 0 <= h < keyed.len() && keyed[h] == found[f];
                assert(p.contains(h));
                let k = choose|k: int| 0 <= k < p.len() && p[k] == h;
                assert(ordered[k] == found[f]);
            } else {
                found.lemma_filter_contains(last_lacks_key(order), f);
                let r = choose|r: int| 0 <= r < rest.len() && rest[r] == found[f];
                assert(ordered[p.len() + r] == found[f]);
            }
        }
    }
}

} // verus!
