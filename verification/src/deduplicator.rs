//! The exact-duplicate engine: files are bucketed by size, and the files
//! of one size by content digest.

use std::collections::HashMap;
use vstd::prelude::*;
use vstd::std_specs::hash::group_hash_axioms;
use vstd::string::*;
use crate::duplicates::{
    class_views, digest_keys, duplicate_groups, files_read, group_entries, lemma_duplicates_account,
    lemma_groups_shared, lemma_total_members, members, size_collisions, true_duplicates,
};
use crate::entry::FileEntry;
use crate::grouping::{
    grouping, is_first, is_shared, leaders, lemma_class_shares_key, lemma_grouping_join, lemma_grouping_open,
    lemma_grouping_total, lemma_leaders, lemma_order_independent, lemma_shared_iff_same_key,
    lemma_together_iff_same_key, lemma_total_concat, lemma_total_push, lemma_total_take, shared_classes,
    together, total,
};
use crate::options::{Keep, Options};
use crate::report::{
    doomed, is_output_order, lemma_output_keeps_groups, lemma_output_order_unique, order_groups, reclaimable,
    reported, GroupReport, Report, Summary,
};
use crate::selection::{is_selection, select, MetadataMissing, SelectionResult};
use crate::sort::{all_have_key, entries_of, lemma_stable_sort_unique};

verus! {

/// The size of each entry as a key.
pub open spec fn size_keys(entries: Seq<FileEntry>) -> Seq<Option<u64>> {
    Seq::new(entries.len(), |i: int| Some(entries[i].size))
}

/// The size buckets of `entries`: the entries of each size in arrival
/// order, buckets in the order in which their size first occurs.
pub open spec fn bucketed(entries: Seq<FileEntry>) -> Seq<Seq<FileEntry>> {
    members(entries, grouping(size_keys(entries)))
}

/// The entries among scan results, in order; a `None` stands for a file
/// whose metadata could not be read.
pub open spec fn accepted(results: Seq<Option<FileEntry>>) -> Seq<FileEntry>
    decreases results.len(),
{
    if results.len() == 0 {
        Seq::empty()
    } else {
        match results.last() {
            Some(entry) => accepted(results.drop_last()).push(entry),
            None => accepted(results.drop_last()),
        }
    }
}

/// The duplicate groups of the first `b` size buckets, bucket by bucket.
pub open spec fn found_upto(
    buckets: Seq<Seq<FileEntry>>,
    digests: Seq<Vec<Option<Vec<u8>>>>,
    b: nat,
) -> Seq<Seq<FileEntry>>
    decreases b,
{
    if b == 0 {
        Seq::empty()
    } else {
        found_upto(buckets, digests, (b - 1) as nat) + duplicate_groups(buckets[b - 1], digests[b - 1]@)
    }
}

/// The size collisions in the first `b` size buckets.
pub open spec fn collisions_upto(
    buckets: Seq<Seq<FileEntry>>,
    digests: Seq<Vec<Option<Vec<u8>>>>,
    b: nat,
) -> nat
    decreases b,
{
    if b == 0 {
        0
    } else {
        collisions_upto(buckets, digests, (b - 1) as nat) + size_collisions(buckets[b - 1], digests[b - 1]@)
    }
}

/// The number of files read in the first `b` size buckets.
pub open spec fn read_upto(buckets: Seq<Seq<FileEntry>>, digests: Seq<Vec<Option<Vec<u8>>>>, b: nat) -> nat
    decreases b,
{
    if b == 0 {
        0
    } else {
        read_upto(buckets, digests, (b - 1) as nat) + files_read(buckets[b - 1], digests[b - 1]@)
    }
}

/// The number of files of a scan that were read: those that share their
/// size with another file and have a digest.
pub open spec fn found_read(buckets: Seq<Seq<FileEntry>>, digests: Seq<Vec<Option<Vec<u8>>>>) -> nat {
    read_upto(buckets, digests, buckets.len())
}

/// Every duplicate group of a scan: those of the first size bucket, then
/// those of the second, and so on.
pub open spec fn found_groups(buckets: Seq<Seq<FileEntry>>, digests: Seq<Vec<Option<Vec<u8>>>>) -> Seq<
    Seq<FileEntry>,
> {
    found_upto(buckets, digests, buckets.len())
}

/// The number of size collisions of a scan.
pub open spec fn found_collisions(buckets: Seq<Seq<FileEntry>>, digests: Seq<Vec<Option<Vec<u8>>>>) -> nat {
    collisions_upto(buckets, digests, buckets.len())
}

/// Whether the digests stand bucket by bucket beside the files: one list
/// for each bucket, with one digest for each file of a bucket that holds
/// more than one.
pub open spec fn digests_match(buckets: Seq<Seq<FileEntry>>, digests: Seq<Vec<Option<Vec<u8>>>>) -> bool {
    &&& digests.len() == buckets.len()
    &&& forall|b: int|
        0 <= b < buckets.len() && buckets[b].len() != 1 ==> (#[trigger] digests[b]).len() == buckets[b].len()
}

/// Whether `report` is what a run yields for the given size buckets and
/// digests: every duplicate group in the order of output, each split by
/// the selection policy or marked with the member whose timestamp is
/// missing, and the summary counts. A missing timestamp stays with its
/// group: the other groups are split and put out, and the counts are those
/// of all groups.
pub open spec fn is_report(
    report: Report<'_>,
    buckets: Seq<Seq<FileEntry>>,
    digests: Seq<Vec<Option<Vec<u8>>>>,
    options: Options,
) -> bool {
    let found = found_groups(buckets, digests);
    &&& is_output_order(reported(report.groups@), found, options.sort_output)
    &&& report.groups.len() == found.len()
    &&& forall|g: int| 0 <= g < report.groups.len() ==> (#[trigger] report.groups[g]).members.len() >= 2
    &&& forall|g: int|
        0 <= g < report.groups.len() ==> is_selection(
            (#[trigger] report.groups[g]).selection,
            entries_of(report.groups[g].members@),
            options.order,
            options.keep,
        )
    &&& report.summary.duplicate_groups == found.len()
    &&& report.summary.duplicate_count == total(found)
    &&& report.summary.collision_count == found_collisions(buckets, digests)
    &&& report.summary.space_saved == reclaimable(found)
}

/// A path without the root of the scan and the separator behind it: what
/// follows the first `root.len() + 1` characters.
pub open spec fn shortened(root: Seq<char>, path: Seq<char>) -> Seq<char> {
    if path.len() <= root.len() + 1 {
        Seq::empty()
    } else {
        path.subrange(root.len() as int + 1, path.len() as int)
    }
}

/// Finds exact duplicates among the files of a scan.
pub struct Deduplicator {
    options: Options,
    /// Every file recorded so far, in arrival order.
    entries: Vec<FileEntry>,
    /// Where the bucket of each size stands in `buckets`.
    index: HashMap<u64, usize>,
    /// The positions in `entries` of the files of one size each, in the
    /// order in which the sizes arrived.
    buckets: Vec<Vec<usize>>,
}

impl Deduplicator {
    /// The configuration of the run.
    pub closed spec fn options(&self) -> Options {
        self.options
    }

    /// Every file recorded so far, in arrival order.
    pub closed spec fn collected(&self) -> Seq<FileEntry> {
        self.entries@
    }

    /// The size buckets of the files recorded so far.
    pub open spec fn size_buckets(&self) -> Seq<Seq<FileEntry>> {
        bucketed(self.collected())
    }

    /// The buckets list the recorded files by size, and the index finds the
    /// bucket of every size that has arrived.
    pub closed spec fn wf(&self) -> bool {
        let keys = size_keys(self.entries@);
        &&& class_views(self.buckets@) == grouping(keys)
        &&& self.buckets.len() == leaders(keys).len()
        &&& forall|b: int|
            0 <= b < leaders(keys).len() ==> {
                let size = self.entries@[#[trigger] leaders(keys)[b]].size;
                self.index@.contains_key(size) && self.index@[size] == b
            }
        &&& forall|size: u64| #[trigger]
            self.index@.contains_key(size) ==> {
                let b = self.index@[size] as int;
                0 <= b < leaders(keys).len() && self.entries@[leaders(keys)[b]].size == size
            }
    }

    /// An engine that has recorded no file yet.
    pub fn new(options: Options) -> (engine: Self)
        ensures
            engine.wf(),
            engine.options() == options,
            engine.collected() == Seq::<FileEntry>::empty(),
    {
        let engine = Deduplicator {
            options,
            entries: Vec::new(),
            index: HashMap::new(),
            buckets: Vec::new(),
        };
        proof {
            let keys = size_keys(engine.entries@);
            lemma_leaders(keys);
            assert(leaders(keys).len() == 0) by {
                if leaders(keys).len() > 0 {
                    assert(is_first(keys, leaders(keys)[0]));
                }
            }
            assert(class_views(engine.buckets@) =~= grouping(keys));
        }
        engine
    }

    /// Records one scan result: an entry goes into the bucket of its size,
    /// and a file whose metadata could not be read is dropped.
    pub fn record(&mut self, result: Option<FileEntry>)
        requires
            old(self).wf(),
        ensures
            final(self).wf(),
            final(self).options() == old(self).options(),
            final(self).collected() == match result {
                Some(entry) => old(self).collected().push(entry),
                None => old(self).collected(),
            },
    {
        broadcast use group_hash_axioms;

        let entry = match result {
            Some(entry) => entry,
            None => {
                return ;
            },
        };
        let ghost seen = self.entries@;
        let ghost keys = size_keys(seen);
        let ghost more = seen.push(entry);
        let ghost key = Some(entry.size);
        proof {
            assert(size_keys(more) =~= keys.push(key));
            lemma_leaders(keys);
        }
        let size = entry.size;
        let position = self.entries.len();
        let found = match self.index.get(&size) {
            Some(at) => Some(*at),
            None => None,
        };
        self.entries.push(entry);
        match found {
            Some(b) => {
                self.buckets[b].push(position);
                proof {
                    assert(is_first(keys, leaders(keys)[b as int]));
                    lemma_grouping_join(keys, key, b as int);
                    assert(class_views(self.buckets@) =~~= grouping(keys).update(
                        b as int,
                        grouping(keys)[b as int].push(position as int),
                    ));
                }
            },
            None => {
                let at = self.buckets.len();
                let mut bucket: Vec<usize> = Vec::new();
                bucket.push(position);
                self.buckets.push(bucket);
                self.index.insert(size, at);
                proof {
                    assert forall|g: int| 0 <= g < leaders(keys).len() implies keys[#[trigger] leaders(
                        keys,
                    )[g]] != key by {
                        assert(is_first(keys, leaders(keys)[g]));
                    }
                    lemma_grouping_open(keys, key);
                    assert(class_views(self.buckets@) =~~= grouping(keys).push(seq![position as int]));
                    lemma_leaders(size_keys(more));
                }
            },
        }
    }

    /// Records the results of a scan in the order in which they arrived.
    pub fn collect(&mut self, results: Vec<Option<FileEntry>>)
        requires
            old(self).wf(),
        ensures
            final(self).wf(),
            final(self).options() == old(self).options(),
            final(self).collected() == old(self).collected() + accepted(results@),
    {
        let ghost start = self.collected();
        let ghost options = self.options();
        let ghost all = results@;
        let ghost mut done: Seq<Option<FileEntry>> = Seq::empty();
        for result in it: results
            invariant
                self.wf(),
                self.options() == options,
                it.seq() == all,
                done == all.take(it.index() as int),
                self.collected() == start + accepted(done),
        {
            proof {
                let next = all.take(it.index() + 1);
                assert(next.drop_last() =~= done);
                assert(next.last() == result);
                done = next;
            }
            self.record(result);
        }
        assert(done =~= all);
    }

    /// The files of one bucket.
    fn bucket_files(&self, b: usize) -> (files: Vec<&FileEntry>)
        requires
            self.wf(),
            b < self.size_buckets().len(),
        ensures
            entries_of(files@) == self.size_buckets()[b as int],
    {
        proof {
            lemma_class_shares_key(size_keys(self.entries@), b as int);
            assert(class_views(self.buckets@)[b as int] == grouping(size_keys(self.entries@))[b as int]);
        }
        let class = &self.buckets[b];
        let ghost positions = grouping(size_keys(self.entries@))[b as int];
        assert(class@.len() == positions.len());
        assert forall|k: int| 0 <= k < class.len() implies #[trigger] class[k] < self.entries.len() by {
            assert(class[k] as int == positions[k]);
        }
        let mut files: Vec<&FileEntry> = Vec::new();
        let mut m: usize = 0;
        while m < class.len()
            invariant
                m <= class.len(),
                files.len() == m,
                forall|k: int| 0 <= k < class.len() ==> #[trigger] class[k] < self.entries.len(),
                forall|k: int| 0 <= k < m ==> *#[trigger] files[k] == self.entries[class[k] as int],
            decreases class.len() - m,
        {
            files.push(&self.entries[class[m]]);
            m += 1;
        }
        assert(entries_of(files@) =~= self.size_buckets()[b as int]) by {
            assert forall|k: int| 0 <= k < class.len() implies *#[trigger] files[k] == self.entries@[positions[k]] by {
                assert(class[k] as int == positions[k]);
            }
        }
        files
    }

    /// The size buckets: the files of each size in arrival order, buckets
    /// in the order in which their size first arrived. Only the files of a
    /// bucket with more than one member can have duplicates, so only
    /// their content needs to be read.
    pub fn buckets(&self) -> (buckets: Vec<Vec<&FileEntry>>)
        requires
            self.wf(),
        ensures
            group_entries(buckets@) == self.size_buckets(),
    {
        let mut buckets: Vec<Vec<&FileEntry>> = Vec::new();
        let mut b: usize = 0;
        while b < self.buckets.len()
            invariant
                self.wf(),
                b <= self.buckets.len(),
                self.buckets.len() == self.size_buckets().len(),
                buckets.len() == b,
                forall|c: int| 0 <= c < b ==> entries_of(#[trigger] buckets[c]@) == self.size_buckets()[c],
            decreases self.buckets.len() - b,
        {
            let files = self.bucket_files(b);
            buckets.push(files);
            b += 1;
        }
        assert(group_entries(buckets@) =~= self.size_buckets());
        buckets
    }

    /// Which size buckets need digests: those that hold more than one file.
    /// A file that is alone with its size has no duplicate, so its content
    /// is never read.
    pub fn needs_digest(&self) -> (needed: Vec<bool>)
        requires
            self.wf(),
        ensures
            needed@.len() == self.size_buckets().len(),
            forall|b: int| 0 <= b < needed@.len() ==> needed@[b] == (self.size_buckets()[b].len() != 1),
    {
        let mut needed: Vec<bool> = Vec::new();
        let mut b: usize = 0;
        while b < self.buckets.len()
            invariant
                self.wf(),
                b <= self.buckets.len(),
                self.buckets.len() == self.size_buckets().len(),
                needed.len() == b,
                forall|c: int| 0 <= c < b ==> needed@[c] == (self.size_buckets()[c].len() != 1),
            decreases self.buckets.len() - b,
        {
            assert(class_views(self.buckets@)[b as int] == grouping(size_keys(self.entries@))[b as int]);
            needed.push(self.buckets[b].len() != 1);
            b += 1;
        }
        needed
    }

    /// Finds the duplicate groups of the scan from the digests of its files.
    /// `digests` holds one list for each size bucket, with the digest of
    /// each file of the bucket or `None` where the file could not be read;
    /// the list of a bucket with a single file is not looked at.
    pub fn find_groups<'a>(&'a self, digests: &Vec<Vec<Option<Vec<u8>>>>) -> (result: (
        Vec<Vec<&'a FileEntry>>,
        usize,
    ))
        requires
            self.wf(),
            digests_match(self.size_buckets(), digests@),
        ensures
            group_entries(result.0@) == found_groups(self.size_buckets(), digests@),
            result.1 == found_collisions(self.size_buckets(), digests@),
            total(group_entries(result.0@)) + result.1 == found_read(self.size_buckets(), digests@),
            found_read(self.size_buckets(), digests@) <= self.collected().len(),
            forall|g: int| 0 <= g < result.0.len() ==> (#[trigger] result.0[g]).len() >= 2,
    {
        let ghost sized = self.size_buckets();
        let mut groups: Vec<Vec<&'a FileEntry>> = Vec::new();
        let mut collisions: usize = 0;
        let mut b: usize = 0;
        proof {
            assert(group_entries(groups@) =~= found_upto(sized, digests@, 0));
            lemma_total_members(self.entries@, grouping(size_keys(self.entries@)));
            lemma_grouping_total(size_keys(self.entries@));
        }
        while b < self.buckets.len()
            invariant
                self.wf(),
                sized == self.size_buckets(),
                digests_match(sized, digests@),
                b <= self.buckets.len(),
                self.buckets.len() == sized.len(),
                group_entries(groups@) == found_upto(sized, digests@, b as nat),
                collisions == collisions_upto(sized, digests@, b as nat),
                total(group_entries(groups@)) + collisions == read_upto(sized, digests@, b as nat),
                read_upto(sized, digests@, b as nat) <= total(sized.take(b as int)),
                total(sized) <= self.entries.len(),
                forall|g: int| 0 <= g < groups.len() ==> (#[trigger] groups[g]).len() >= 2,
            decreases self.buckets.len() - b,
        {
            let files = self.bucket_files(b);
            let (mut more, lone) = true_duplicates(&files, &digests[b]);
            let ghost before = groups@;
            let ghost added = more@;
            proof {
                lemma_duplicates_account(sized[b as int], digests[b as int]@);
                assert(sized.take(b + 1) =~= sized.take(b as int).push(sized[b as int]));
                lemma_total_push(sized.take(b as int), sized[b as int]);
                lemma_total_take(sized, b + 1);
                lemma_total_concat(group_entries(before), group_entries(added));
                lemma_groups_shared(sized[b as int], digests[b as int]@);
            }
            groups.append(&mut more);
            proof {
                assert(group_entries(groups@) =~= group_entries(before) + group_entries(added));
                assert forall|g: int| 0 <= g < groups.len() implies (#[trigger] groups[g]).len() >= 2 by {
                    if g >= before.len() {
                        assert(group_entries(added)[g - before.len()].len() >= 2);
                    }
                }
            }
            collisions += lone;
            b += 1;
        }
        proof {
            assert(sized.take(b as int) =~= sized);
        }
        (groups, collisions)
    }

    /// The path as the report shows it: relative to the root of the scan.
    pub fn shorten_path(&self, path: &str) -> (short: String)
        ensures
            short@ == shortened(self.options().path@, path@),
    {
        let root_len = self.options.path.as_str().unicode_len();
        let path_len = path.unicode_len();
        if path_len <= root_len || path_len - root_len <= 1 {
            String::new()
        } else {
            path.substring_char(root_len + 1, path_len).to_owned()
        }
    }

    /// The files to remove after a run: the duplicates of every group of
    /// the report where removal was asked for, and none where it was not.
    pub fn deletions<'a>(&self, report: &Report<'a>) -> (files: Vec<&'a FileEntry>)
        ensures
            entries_of(files@) == if self.options().delete {
                doomed(report.groups@)
            } else {
                Seq::empty()
            },
    {
        let mut files: Vec<&'a FileEntry> = Vec::new();
        if !self.options.delete {
            assert(entries_of(files@) =~= Seq::<FileEntry>::empty());
            return files;
        }
        let mut g: usize = 0;
        assert(entries_of(files@) =~= doomed(report.groups@.take(0)));
        while g < report.groups.len()
            invariant
                g <= report.groups.len(),
                entries_of(files@) == doomed(report.groups@.take(g as int)),
            decreases report.groups.len() - g,
        {
            proof {
                assert(report.groups@.take(g + 1).drop_last() =~= report.groups@.take(g as int));
            }
            match &report.groups[g].selection {
                Ok(selection) => {
                    let ghost before = entries_of(files@);
                    let mut m: usize = 0;
                    while m < selection.duplicates.len()
                        invariant
                            m <= selection.duplicates.len(),
                            files.len() == before.len() + m,
                            forall|k: int| 0 <= k < before.len() ==> *#[trigger] files[k] == before[k],
                            forall|k: int|
                                before.len() <= k < files.len() ==> *#[trigger] files[k]
                                    == *selection.duplicates[k - before.len()],
                        decreases selection.duplicates.len() - m,
                    {
                        let entry: &'a FileEntry = selection.duplicates[m];
                        files.push(entry);
                        m += 1;
                    }
                    assert(entries_of(files@) =~= before + entries_of(selection.duplicates@));
                },
                Err(_) => {
                    assert(entries_of(files@) + Seq::<FileEntry>::empty() =~= entries_of(files@));
                },
            }
            g += 1;
        }
        assert(report.groups@.take(g as int) =~= report.groups@);
        files
    }

    /// Splits a duplicate group by the ordering and the keep policy of the run.
    pub fn select<'a>(&self, files: &Vec<&'a FileEntry>) -> (result: Result<
        SelectionResult<'a>,
        MetadataMissing,
    >)
        requires
            files.len() > 0,
        ensures
            is_selection(result, entries_of(files@), self.options().order, self.options().keep),
    {
        select(files, self.options.order, self.options.keep)
    }

    /// Finds the true duplicates among files of one size, given the digest
    /// of each or `None` where the file could not be read: the duplicate
    /// groups and the number of size collisions.
    pub fn get_true_dupes<'a>(files: &Vec<&'a FileEntry>, digests: &Vec<Option<Vec<u8>>>) -> (result: (
        Vec<Vec<&'a FileEntry>>,
        usize,
    ))
        requires
            files.len() != 1 ==> digests.len() == files.len(),
        ensures
            group_entries(result.0@) == duplicate_groups(entries_of(files@), digests@),
            result.1 == size_collisions(entries_of(files@), digests@),
    {
        true_duplicates(files, digests)
    }

    /// Turns the recorded files and their digests into the report of the
    /// run: every duplicate group in the order of output, each split into
    /// the member to keep and the duplicates, and the summary counts.
    ///
    /// A missing timestamp never fails the run. A group whose members
    /// cannot be ordered for want of one is reported with that failure and
    /// counted like the others; a group that cannot be placed in a sorted
    /// output stands behind those that can.
    pub fn consume<'a>(&'a self, digests: &Vec<Vec<Option<Vec<u8>>>>) -> (report: Report<'a>)
        requires
            self.wf(),
            digests_match(self.size_buckets(), digests@),
        ensures
            is_report(report, self.size_buckets(), digests@, self.options()),
    {
        let (found, collision_count) = self.find_groups(digests);
        let ghost groups = group_entries(found@);
        assert(total(groups) <= self.entries.len() <= usize::MAX);
        let duplicate_groups = found.len();
        let mut duplicate_count: usize = 0;
        let mut space_saved: u128 = 0;
        let mut g: usize = 0;
        while g < found.len()
            invariant
                g <= found.len(),
                groups == group_entries(found@),
                forall|h: int| 0 <= h < found.len() ==> (#[trigger] found[h]).len() >= 2,
                total(groups) <= usize::MAX,
                duplicate_count == total(groups.take(g as int)),
                space_saved == reclaimable(groups.take(g as int)),
                space_saved <= u64::MAX * duplicate_count,
            decreases found.len() - g,
        {
            let group = &found[g];
            let size = group[0].size;
            let extra = group.len() - 1;
            proof {
                let done = groups.take(g as int);
                let next = groups.take(g + 1);
                assert(next.drop_last() =~= done);
                assert(next.last() == groups[g as int]);
                assert(groups[g as int][0] == *group[0]);
                lemma_total_take(groups, g + 1);
                assert(size * extra <= u64::MAX * extra) by (nonlinear_arith)
                    requires
                        0 <= size <= u64::MAX,
                        0 <= extra,
                ;
                assert(u64::MAX * duplicate_count + u64::MAX * extra <= u64::MAX * usize::MAX) by (nonlinear_arith)
                    requires
                        0 <= duplicate_count + extra <= usize::MAX,
                ;
                assert(u64::MAX * usize::MAX < u128::MAX) by (nonlinear_arith)
                    requires
                        usize::MAX <= u64::MAX,
                ;
                assert(u64::MAX * duplicate_count + u64::MAX * extra <= u64::MAX * (duplicate_count
                    + group.len())) by (nonlinear_arith)
                    requires
                        extra <= group.len(),
                ;
            }
            space_saved = space_saved + (size as u128) * (extra as u128);
            duplicate_count = duplicate_count + group.len();
            g += 1;
        }
        assert(groups.take(g as int) =~= groups);
        let summary = Summary { duplicate_groups, duplicate_count, collision_count, space_saved };
        let ordered = order_groups(found, self.options.sort_output);
        let ghost output = group_entries(ordered@);
        proof {
            lemma_output_keeps_groups(output, groups, self.options.sort_output);
            assert forall|k: int| 0 <= k < output.len() implies (#[trigger] output[k]).len() >= 2 by {
                let f = choose|f: int| 0 <= f < groups.len() && groups[f] == output[k];
                assert(groups[f].len() == found[f].len());
            }
        }
        let mut reports: Vec<GroupReport<'a>> = Vec::new();
        let order = self.options.order;
        let keep = self.options.keep;
        for group in it: ordered
            invariant
                output.len() == it.seq().len(),
                forall|k: int| 0 <= k < output.len() ==> entries_of(#[trigger] it.seq()[k]@) == output[k],
                forall|k: int| 0 <= k < output.len() ==> (#[trigger] output[k]).len() >= 2,
                reports.len() == it.index(),
                forall|k: int| 0 <= k < reports.len() ==> entries_of((#[trigger] reports[k]).members@) == output[k],
                forall|k: int|
                    0 <= k < reports.len() ==> is_selection(
                        (#[trigger] reports[k]).selection,
                        entries_of(reports[k].members@),
                        order,
                        keep,
                    ),
        {
            assert(entries_of(group@) == output[it.index() as int]);
            assert(group.len() == output[it.index() as int].len());
            let selection = select(&group, order, keep);
            reports.push(GroupReport { members: group, selection });
        }
        assert(reported(reports@) =~= output);
        assert forall|g: int| 0 <= g < reports.len() implies (#[trigger] reports[g]).members.len() >= 2 by {
            assert(entries_of(reports[g].members@).len() == output[g].len());
        }
        Report { groups: reports, summary }
    }

    /// Runs the engine on a finished scan: records the results, then turns
    /// them and the digests into the report. `digests` stands beside the
    /// size buckets that the results lead to.
    pub fn execute<'a>(
        &'a mut self,
        results: Vec<Option<FileEntry>>,
        digests: &Vec<Vec<Option<Vec<u8>>>>,
    ) -> (report: Report<'a>)
        requires
            old(self).wf(),
            digests_match(bucketed(old(self).collected() + accepted(results@)), digests@),
        ensures
            final(self).wf(),
            final(self).options() == old(self).options(),
            final(self).collected() == old(self).collected() + accepted(results@),
            is_report(report, final(self).size_buckets(), digests@, final(self).options()),
    {
        self.collect(results);
        self.consume(digests)
    }
}

/// Every file that was read is counted once: the files in the duplicate
/// groups of a scan and its size collisions are together as many as the
/// files that were read.
pub proof fn lemma_read_files_counted(buckets: Seq<Seq<FileEntry>>, digests: Seq<Vec<Option<Vec<u8>>>>, n: nat)
    requires
        digests_match(buckets, digests),
        n <= buckets.len(),
    ensures
        total(found_upto(buckets, digests, n)) + collisions_upto(buckets, digests, n) == read_upto(
            buckets,
            digests,
            n,
        ),
    decreases n,
{
    if n > 0 {
        lemma_read_files_counted(buckets, digests, (n - 1) as nat);
        lemma_duplicates_account(buckets[n - 1], digests[n - 1]@);
        lemma_total_concat(
            found_upto(buckets, digests, (n - 1) as nat),
            duplicate_groups(buckets[n - 1], digests[n - 1]@),
        );
    }
}

/// Two recorded files stand in one size bucket exactly when they have the
/// same size.
pub proof fn lemma_same_size_same_bucket(entries: Seq<FileEntry>, i: int, j: int)
    requires
        0 <= i < entries.len(),
        0 <= j < entries.len(),
    ensures
        together(size_keys(entries), i, j) <==> entries[i].size == entries[j].size,
{
    lemma_together_iff_same_key(size_keys(entries), i, j);
}

/// A second run over the same files fills the same size buckets, whatever
/// the order in which the files arrive: where `again` holds the files of
/// `entries` in another order, the file at position `i` standing at
/// position `to[i]`, two files share a bucket in the first run exactly
/// when they do in the second.
pub proof fn lemma_rerun_same_buckets(
    entries: Seq<FileEntry>,
    again: Seq<FileEntry>,
    to: Seq<int>,
    i: int,
    j: int,
)
    requires
        to.len() == entries.len(),
        forall|k: int| 0 <= k < entries.len() ==> 0 <= #[trigger] to[k] < again.len() && again[to[k]] == entries[k],
        0 <= i < entries.len(),
        0 <= j < entries.len(),
    ensures
        together(size_keys(entries), i, j) <==> together(size_keys(again), to[i], to[j]),
{
    lemma_order_independent(size_keys(entries), size_keys(again), to, i, j);
}

/// Every reported group is a duplicate group of one of the size buckets.
pub proof fn lemma_found_origin(
    buckets: Seq<Seq<FileEntry>>,
    digests: Seq<Vec<Option<Vec<u8>>>>,
    n: nat,
    f: int,
)
    requires
        n <= buckets.len(),
        0 <= f < found_upto(buckets, digests, n).len(),
    ensures
        exists|b: int, g: int|
            0 <= b < n && 0 <= g < duplicate_groups(buckets[b], digests[b]@).len() && found_upto(
                buckets,
                digests,
                n,
            )[f] == #[trigger] duplicate_groups(buckets[b], digests[b]@)[g],
    decreases n,
{
    let before = found_upto(buckets, digests, (n - 1) as nat);
    if f < before.len() {
        lemma_found_origin(buckets, digests, (n - 1) as nat, f);
        let (b, g) = choose|b: int, g: int|
            0 <= b < n - 1 && 0 <= g < duplicate_groups(buckets[b], digests[b]@).len() && before[f]
                == #[trigger] duplicate_groups(buckets[b], digests[b]@)[g];
        assert(found_upto(buckets, digests, n)[f] == duplicate_groups(buckets[b], digests[b]@)[g]);
    } else {
        let b = n - 1;
        let g = f - before.len();
        assert(found_upto(buckets, digests, n)[f] == duplicate_groups(buckets[b], digests[b]@)[g]);
    }
}

/// What holds of every reported group: it has at least two members, and
/// all of them have the same size.
pub proof fn lemma_group_shares_size(entries: Seq<FileEntry>, digests: Seq<Vec<Option<Vec<u8>>>>, f: int)
    requires
        digests_match(bucketed(entries), digests),
        0 <= f < found_groups(bucketed(entries), digests).len(),
    ensures
        found_groups(bucketed(entries), digests)[f].len() >= 2,
        forall|a: int, c: int|
            0 <= a < found_groups(bucketed(entries), digests)[f].len() && 0 <= c < found_groups(
                bucketed(entries),
                digests,
            )[f].len() ==> (#[trigger] found_groups(bucketed(entries), digests)[f][a]).size
                == (#[trigger] found_groups(bucketed(entries), digests)[f][c]).size,
{
    let buckets = bucketed(entries);
    let group = found_groups(buckets, digests)[f];
    lemma_found_origin(buckets, digests, buckets.len(), f);
    let (b, g) = choose|b: int, g: int|
        0 <= b < buckets.len() && 0 <= g < duplicate_groups(buckets[b], digests[b]@).len() && group
            == #[trigger] duplicate_groups(buckets[b], digests[b]@)[g];
    lemma_groups_shared(buckets[b], digests[b]@);
    let keys = digest_keys(digests[b]@);
    let class = shared_classes(keys)[g];
    grouping(keys).lemma_filter_contains_rev(is_shared(), class);
    let h = choose|h: int| 0 <= h < grouping(keys).len() && grouping(keys)[h] == class;
    lemma_class_shares_key(keys, h);
    lemma_class_shares_key(size_keys(entries), b);
    assert forall|a: int, c: int| 0 <= a < group.len() && 0 <= c < group.len() implies (#[trigger] group[a]).size
        == (#[trigger] group[c]).size by {
        let slots = grouping(size_keys(entries))[b];
        assert(0 <= class[a] < keys.len() && 0 <= class[c] < keys.len());
        assert(group[a] == buckets[b][class[a]]);
        assert(group[c] == buckets[b][class[c]]);
        assert(buckets[b][class[a]] == entries[slots[class[a]]]);
        assert(buckets[b][class[c]] == entries[slots[class[c]]]);
        assert(size_keys(entries)[slots[class[a]]] == size_keys(entries)[slots[class[c]]]);
    }
}

/// Whether `group` is made of the files that stand at the places `class`
/// of size bucket `b`, all of which were read and have one digest.
pub open spec fn is_true_group(
    group: Seq<FileEntry>,
    buckets: Seq<Seq<FileEntry>>,
    digests: Seq<Vec<Option<Vec<u8>>>>,
    b: int,
    class: Seq<int>,
) -> bool {
    &&& 0 <= b < buckets.len()
    &&& class.len() >= 2
    &&& group.len() == class.len()
    &&& forall|a: int|
        0 <= a < class.len() ==> 0 <= #[trigger] class[a] < buckets[b].len() && group[a] == buckets[b][class[a]]
    &&& forall|a: int, c: int| 0 <= a < c < class.len() ==> #[trigger] class[a] < #[trigger] class[c]
    &&& forall|a: int, c: int|
        0 <= a < class.len() && 0 <= c < class.len() ==> digest_keys(digests[b]@)[#[trigger] class[a]].is_some()
            && digest_keys(digests[b]@)[class[a]] == digest_keys(digests[b]@)[#[trigger] class[c]]
}

/// No false duplicates are reported: every reported group is made of at
/// least two different files of one size bucket, all of which were read
/// and have the same digest.
pub proof fn lemma_reported_groups_are_true(entries: Seq<FileEntry>, digests: Seq<Vec<Option<Vec<u8>>>>, f: int)
    requires
        digests_match(bucketed(entries), digests),
        0 <= f < found_groups(bucketed(entries), digests).len(),
    ensures
        exists|b: int, class: Seq<int>| #[trigger]
            is_true_group(found_groups(bucketed(entries), digests)[f], bucketed(entries), digests, b, class),
{
    let buckets = bucketed(entries);
    let group = found_groups(buckets, digests)[f];
    lemma_found_origin(buckets, digests, buckets.len(), f);
    let (b, g) = choose|b: int, g: int|
        0 <= b < buckets.len() && 0 <= g < duplicate_groups(buckets[b], digests[b]@).len() && group
            == #[trigger] duplicate_groups(buckets[b], digests[b]@)[g];
    lemma_groups_shared(buckets[b], digests[b]@);
    let keys = digest_keys(digests[b]@);
    let class = shared_classes(keys)[g];
    grouping(keys).lemma_filter_contains_rev(is_shared(), class);
    let h = choose|h: int| 0 <= h < grouping(keys).len() && grouping(keys)[h] == class;
    lemma_class_shares_key(keys, h);
    assert(is_true_group(group, buckets, digests, b, class));
}

/// Every duplicate group of a size bucket is among the reported groups.
pub proof fn lemma_found_holds(
    buckets: Seq<Seq<FileEntry>>,
    digests: Seq<Vec<Option<Vec<u8>>>>,
    n: nat,
    b: int,
    g: int,
)
    requires
        0 <= b < n <= buckets.len(),
        0 <= g < duplicate_groups(buckets[b], digests[b]@).len(),
    ensures
        exists|f: int|
            0 <= f < found_upto(buckets, digests, n).len() && #[trigger] found_upto(buckets, digests, n)[f]
                == duplicate_groups(buckets[b], digests[b]@)[g],
    decreases n,
{
    let before = found_upto(buckets, digests, (n - 1) as nat);
    let whole = found_upto(buckets, digests, n);
    if b < n - 1 {
        lemma_found_holds(buckets, digests, (n - 1) as nat, b, g);
        let f = choose|f: int|
            0 <= f < before.len() && #[trigger] before[f] == duplicate_groups(buckets[b], digests[b]@)[g];
        assert(whole[f] == duplicate_groups(buckets[b], digests[b]@)[g]);
    } else {
        assert(whole[before.len() + g] == duplicate_groups(buckets[b], digests[b]@)[g]);
    }
}

/// No duplicate is missed: two files that stand in one size bucket, at
/// the different places `m` and `n`, and have the same digest are members
/// of one reported group.
pub proof fn lemma_duplicates_are_reported(
    entries: Seq<FileEntry>,
    digests: Seq<Vec<Option<Vec<u8>>>>,
    b: int,
    m: int,
    n: int,
)
    requires
        digests_match(bucketed(entries), digests),
        0 <= b < bucketed(entries).len(),
        0 <= m < bucketed(entries)[b].len(),
        0 <= n < bucketed(entries)[b].len(),
        m != n,
        digest_keys(digests[b]@)[m].is_some(),
        digest_keys(digests[b]@)[m] == digest_keys(digests[b]@)[n],
    ensures
        exists|f: int|
            0 <= f < found_groups(bucketed(entries), digests).len() && (#[trigger] found_groups(
                bucketed(entries),
                digests,
            )[f]).contains(bucketed(entries)[b][m]) && found_groups(bucketed(entries), digests)[f].contains(
                bucketed(entries)[b][n],
            ),
{
    let buckets = bucketed(entries);
    let keys = digest_keys(digests[b]@);
    let shared = shared_classes(keys);
    lemma_shared_iff_same_key(keys, m, n);
    let g = choose|g: int| 0 <= g < shared.len() && (#[trigger] shared[g]).contains(m) && shared[g].contains(n);
    let x = choose|x: int| 0 <= x < shared[g].len() && shared[g][x] == m;
    let y = choose|y: int| 0 <= y < shared[g].len() && shared[g][y] == n;
    let group = duplicate_groups(buckets[b], digests[b]@)[g];
    assert(buckets[b].len() != 1);
    assert(group[x] == buckets[b][m]);
    assert(group[y] == buckets[b][n]);
    assert(group.contains(buckets[b][m]) && group.contains(buckets[b][n]));
    lemma_found_holds(buckets, digests, buckets.len(), b, g);
    let found = found_groups(buckets, digests);
    let f = choose|f: int| 0 <= f < found.len() && #[trigger] found[f] == group;
    assert(found[f].contains(buckets[b][m]) && found[f].contains(buckets[b][n]));
}

/// Running the engine again on the same files and digests yields the same
/// report: the same groups in the same order, each split in the same way
/// or failing at the same member, and the same counts.
pub proof fn lemma_rerun_same_report(
    first: Report<'_>,
    second: Report<'_>,
    buckets: Seq<Seq<FileEntry>>,
    digests: Seq<Vec<Option<Vec<u8>>>>,
    options: Options,
)
    requires
        is_report(first, buckets, digests, options),
        is_report(second, buckets, digests, options),
    ensures
        reported(first.groups@) == reported(second.groups@),
        first.summary == second.summary,
        forall|g: int|
            0 <= g < first.groups.len() ==> match ((#[trigger] first.groups[g]).selection, second.groups[g].selection) {
                (Ok(x), Ok(y)) => x.in_order(options.keep) == y.in_order(options.keep) && *x.source == *y.source
                    && entries_of(x.duplicates@) == entries_of(y.duplicates@),
                (Err(x), Err(y)) => x == y,
                _ => false,
            },
{
    let found = found_groups(buckets, digests);
    let (a, b) = (first, second);
    lemma_output_order_unique(reported(a.groups@), reported(b.groups@), found, options.sort_output);
    assert forall|g: int| 0 <= g < a.groups.len() implies match (
        (#[trigger] a.groups[g]).selection,
        b.groups[g].selection,
    ) {
        (Ok(x), Ok(y)) => x.in_order(options.keep) == y.in_order(options.keep) && *x.source == *y.source
            && entries_of(x.duplicates@) == entries_of(y.duplicates@),
        (Err(x), Err(y)) => x == y,
        _ => false,
    } by {
        let group = reported(a.groups@)[g];
        assert(group == entries_of(a.groups[g].members@));
        assert(reported(b.groups@)[g] == entries_of(b.groups[g].members@));
        match (a.groups[g].selection, b.groups[g].selection) {
            (Ok(x), Ok(y)) => {
                let (p, q) = (x.in_order(options.keep), y.in_order(options.keep));
                lemma_stable_sort_unique(p, q, group, options.order);
                match options.keep {
                    Keep::First => {
                        assert(p[0] == *x.source && q[0] == *y.source);
                        assert(entries_of(x.duplicates@) =~= p.subrange(1, p.len() as int));
                        assert(entries_of(y.duplicates@) =~= q.subrange(1, q.len() as int));
                    },
                    Keep::Last => {
                        assert(p[p.len() - 1] == *x.source && q[q.len() - 1] == *y.source);
                        assert(entries_of(x.duplicates@) =~= p.subrange(0, p.len() - 1));
                        assert(entries_of(y.duplicates@) =~= q.subrange(0, q.len() - 1));
                    },
                }
            },
            (Err(x), Err(y)) => {
                let (m, n) = (x.position as int, y.position as int);
                if m < n {
                    assert(group[m].has_key(options.order));
                } else if n < m {
                    assert(group[n].has_key(options.order));
                }
            },
            (Ok(_), Err(y)) => {
                assert(group[y.position as int].has_key(options.order));
            },
            (Err(x), Ok(_)) => {
                assert(group[x.position as int].has_key(options.order));
            },
        }
    }
}

/// A missing timestamp stays with its group: whatever the other groups
/// lack, a group of which every member carries the key of the ordering is
/// split into its source and its duplicates.
pub proof fn lemma_failure_stays_with_group(
    report: Report<'_>,
    buckets: Seq<Seq<FileEntry>>,
    digests: Seq<Vec<Option<Vec<u8>>>>,
    options: Options,
    g: int,
)
    requires
        is_report(report, buckets, digests, options),
        0 <= g < report.groups.len(),
    ensures
        report.groups[g].selection.is_ok() <==> all_have_key(entries_of(report.groups[g].members@), options.order),
{
    let group = entries_of(report.groups[g].members@);
    if let Err(missing) = report.groups[g].selection {
        assert(!group[missing.position as int].has_key(options.order));
    }
}

} // verus!
