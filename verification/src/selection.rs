//! The selection policy: which member of a duplicate group is kept.

use vstd::prelude::*;
use crate::entry::FileEntry;
use crate::options::{FileOrdering, Keep};
use crate::order::{key_le, lemma_key_order};
use crate::sort::{
    all_have_key, arranged, before, entries_of, is_stable_order, is_stable_sort, positions,
    stable_order,
};

verus! {

/// Ordering by a timestamp met a member whose timestamp is not known.
#[derive(Debug, Clone, Copy, PartialEq, Eq, Structural)]
pub struct MetadataMissing {
    /// Position in the group of the first member without the timestamp.
    pub position: usize,
}

/// A duplicate group split into the member to keep and the rest.
#[derive(Debug)]
pub struct SelectionResult<'a> {
    /// The member that is retained.
    pub source: &'a FileEntry,
    /// Every other member, in sorted order.
    pub duplicates: Vec<&'a FileEntry>,
}

impl<'a> SelectionResult<'a> {
    /// The whole group in sorted order: the source stands first where the
    /// first member is kept, last where the last one is.
    pub open spec fn in_order(&self, keep: Keep) -> Seq<FileEntry> {
        match keep {
            Keep::First => seq![*self.source] + entries_of(self.duplicates@),
            Keep::Last => entries_of(self.duplicates@).push(*self.source),
        }
    }
}

/// Whether `position` is the first member of `items` that lacks the key of `order`.
pub open spec fn first_without_key(items: Seq<FileEntry>, order: FileOrdering, position: int) -> bool {
    &&& 0 <= position < items.len()
    &&& !items[position].has_key(order)
    &&& forall|i: int| 0 <= i < position ==> (#[trigger] items[i]).has_key(order)
}

/// Whether `result` is what the selection policy yields for `group`: the
/// group stably sorted by the key of `order` and split at the end that
/// `keep` names, or the first member whose timestamp is missing.
pub open spec fn is_selection(
    result: Result<SelectionResult<'_>, MetadataMissing>,
    group: Seq<FileEntry>,
    order: FileOrdering,
    keep: Keep,
) -> bool {
    match result {
        Ok(selection) => {
            &&& all_have_key(group, order)
            &&& is_stable_sort(selection.in_order(keep), group, order)
            &&& selection.duplicates.len() == group.len() - 1
        },
        Err(missing) => first_without_key(group, order, missing.position as int),
    }
}

/// In a stably sorted group the first member has the least key and the last
/// member the greatest.
pub proof fn lemma_sorted_ends(sorted: Seq<FileEntry>, group: Seq<FileEntry>, order: FileOrdering, i: int)
    requires
        is_stable_sort(sorted, group, order),
        0 <= i < group.len(),
    ensures
        sorted.len() == group.len(),
        key_le(order, sorted.first(), group[i]),
        key_le(order, group[i], sorted.last()),
{
    let perm = choose|perm: Seq<int>| #[trigger] is_stable_order(perm, group, order) && sorted == arranged(perm, group);
    assert(perm.contains(i));
    let k = choose|k: int| 0 <= k < perm.len() && perm[k] == i;
    let last = perm.len() - 1;
    lemma_key_order(order, group[i], sorted.first(), sorted.last());
    if 0 < k {
        assert(before(group, order, perm[0], perm[k]));
    }
    if k < last {
        assert(before(group, order, perm[k], perm[last]));
    }
}

/// Looks for a member that lacks the key of `order`.
pub fn find_without_key(files: &Vec<&FileEntry>, order: FileOrdering) -> (found: Option<usize>)
    ensures
        match found {
            Some(position) => first_without_key(entries_of(files@), order, position as int),
            None => all_have_key(entries_of(files@), order),
        },
{
    let mut i: usize = 0;
    while i < files.len()
        invariant
            i <= files.len(),
            forall|j: int| 0 <= j < i ==> (#[trigger] entries_of(files@)[j]).has_key(order),
        decreases files.len() - i,
    {
        if !files[i].has_key_for(order) {
            assert(!entries_of(files@)[i as int].has_key(order));
            return Some(i);
        }
        assert(entries_of(files@)[i as int].has_key(order));
        i += 1;
    }
    None
}

/// The members of `files` in the order that `perm` lists their positions.
pub(crate) fn arrange<'a>(files: &Vec<&'a FileEntry>, perm: &Vec<usize>) -> (sorted: Vec<&'a FileEntry>)
    requires
        forall|k: int| 0 <= k < perm.len() ==> #[trigger] perm[k] < files.len(),
    ensures
        entries_of(sorted@) == arranged(positions(perm@), entries_of(files@)),
        sorted.len() == perm.len(),
{
    let mut sorted: Vec<&'a FileEntry> = Vec::new();
    let mut k: usize = 0;
    while k < perm.len()
        invariant
            k <= perm.len(),
            sorted.len() == k,
            forall|k: int| 0 <= k < perm.len() ==> #[trigger] perm[k] < files.len(),
            forall|j: int| 0 <= j < k ==> *#[trigger] sorted[j] == *files[perm[j] as int],
        decreases perm.len() - k,
    {
        let entry: &'a FileEntry = files[perm[k]];
        sorted.push(entry);
        k += 1;
    }
    assert(entries_of(sorted@) =~= arranged(positions(perm@), entries_of(files@)));
    sorted
}

/// Splits a duplicate group into the member to keep and the duplicates.
///
/// The members are sorted ascending by the key of `order`, members of equal
/// key staying in the order in which the group has them. With `Keep::First`
/// the head of the sorted group is the source and the tail the duplicates;
/// with `Keep::Last` the last member is the source and those before it the
/// duplicates. Ordering by a timestamp fails when a member has none;
/// ordering by name never fails.
pub fn select<'a>(files: &Vec<&'a FileEntry>, order: FileOrdering, keep: Keep) -> (result: Result<
    SelectionResult<'a>,
    MetadataMissing,
>)
    requires
        files.len() > 0,
    ensures
        result.is_ok() <==> all_have_key(entries_of(files@), order),
        is_selection(result, entries_of(files@), order, keep),
        result matches Ok(selection) ==> {
            &&& keep == Keep::First ==> forall|i: int|
                0 <= i < files.len() ==> key_le(order, *selection.source, *#[trigger] files[i])
            &&& keep == Keep::Last ==> forall|i: int|
                0 <= i < files.len() ==> key_le(order, *#[trigger] files[i], *selection.source)
        },
{
    match find_without_key(files, order) {
        Some(position) => {
            assert(!entries_of(files@)[position as int].has_key(order));
            Err(MetadataMissing { position })
        },
        None => {
            let perm = stable_order(files, order);
            let ghost es = entries_of(files@);
            let ghost ps = positions(perm@);
            assert forall|k: int| 0 <= k < perm.len() implies #[trigger] perm[k] < files.len() by {
                assert(0 <= ps[k] < es.len());
            }
            let mut sorted = arrange(files, &perm);
            let ghost whole = entries_of(sorted@);
            let ghost at = if keep == Keep::First { 0 } else { ps.len() - 1 };
            assert(whole[at] == *sorted[at]);
            let source = match keep {
                Keep::First => sorted.remove(0),
                Keep::Last => {
                    let last = sorted.pop();
                    last.unwrap()
                },
            };
            let selection = SelectionResult { source, duplicates: sorted };
            proof {
                assert(selection.in_order(keep) =~= whole);
                assert(is_stable_order(ps, es, order));
                assert(*source == whole[at]);
                assert forall|i: int| 0 <= i < files.len() implies (keep == Keep::First ==> key_le(
                    order,
                    *source,
                    *#[trigger] files[i],
                )) && (keep == Keep::Last ==> key_le(order, *files[i], *source)) by {
                    assert(*files[i] == es[i]);
                    lemma_sorted_ends(whole, es, order, i);
                }
            }
            Ok(selection)
        },
    }
}

} // verus!
