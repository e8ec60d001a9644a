//! The similarity engine: images whose perceptual fingerprints are close
//! enough are put into one group.

use std::collections::{HashMap, HashSet};
use vstd::prelude::*;
use vstd::std_specs::hash::group_hash_axioms;
use crate::entry::FileEntry;
use crate::fingerprint::{similarity_of, Fingerprint, SimilarityScore};
use crate::options::Options;

verus! {

/// Two files and how alike their fingerprints are.
#[derive(Debug, Clone, Copy, PartialEq, Eq, Structural)]
pub struct SimilarPair {
    /// Position of the first file.
    pub first: usize,
    /// Position of the second file, behind the first.
    pub second: usize,
    pub score: SimilarityScore,
}

/// The pairs `(i, i + 1)`, ..., `(i, j - 1)`.
pub open spec fn row(i: int, j: int) -> Seq<(int, int)> {
    Seq::new((j - i - 1) as nat, |k: int| (i, i + 1 + k))
}

/// The pairs `(a, b)` with `a < b < n` and `a < i`, ascending by `a` and then by `b`.
pub open spec fn rows(n: int, i: nat) -> Seq<(int, int)>
    decreases i,
{
    if i == 0 {
        Seq::empty()
    } else {
        rows(n, (i - 1) as nat) + row(i - 1, n)
    }
}

/// Every pair of distinct positions below `n` once, the smaller position
/// first, ascending by the first position and then by the second.
pub open spec fn all_pairs(n: nat) -> Seq<(int, int)> {
    rows(n as int, n)
}

/// The pairs with the similarity of the fingerprints at their positions.
pub open spec fn scored(fingerprints: Seq<Seq<u8>>, pairs: Seq<(int, int)>) -> Seq<SimilarPair> {
    Seq::new(
        pairs.len(),
        |k: int|
            SimilarPair {
                first: pairs[k].0 as usize,
                second: pairs[k].1 as usize,
                score: similarity_of(fingerprints[pairs[k].0], fingerprints[pairs[k].1]),
            },
    )
}

/// The predicate "is at least `percent` hundredths alike".
pub open spec fn alike(percent: u32) -> spec_fn(SimilarPair) -> bool {
    |pair: SimilarPair| pair.score.reaches(percent)
}

/// The pairs of fingerprints whose similarity reaches `percent`
/// hundredths, in the order of `all_pairs`.
pub open spec fn similar_pairs(fingerprints: Seq<Seq<u8>>, percent: u32) -> Seq<SimilarPair> {
    scored(fingerprints, all_pairs(fingerprints.len())).filter(alike(percent))
}

/// The pairs of the first `i` rows are the pairs `(a, b)` with
/// `a < b < n` and `a < i`, each once, in ascending order.
pub proof fn lemma_rows(n: int, i: nat)
    requires
        i <= n,
    ensures
        forall|k: int|
            0 <= k < rows(n, i).len() ==> 0 <= (#[trigger] rows(n, i)[k]).0 < rows(n, i)[k].1 < n && rows(
                n,
                i,
            )[k].0 < i,
        forall|k: int, l: int|
            0 <= k < l < rows(n, i).len() ==> (#[trigger] rows(n, i)[k]).0 < (#[trigger] rows(n, i)[l]).0 || (rows(
                n,
                i,
            )[k].0 == rows(n, i)[l].0 && rows(n, i)[k].1 < rows(n, i)[l].1),
        forall|a: int, b: int| 0 <= a < b < n && a < i ==> #[trigger] rows(n, i).contains((a, b)),
    decreases i,
{
    if i > 0 {
        let before = rows(n, (i - 1) as nat);
        let last = row(i - 1, n);
        let whole = rows(n, i);
        lemma_rows(n, (i - 1) as nat);
        assert forall|a: int, b: int| 0 <= a < b < n && a < i implies #[trigger] whole.contains((a, b)) by {
            if a < i - 1 {
                assert(before.contains((a, b)));
                let k = choose|k: int| 0 <= k < before.len() && before[k] == (a, b);
                assert(whole[k] == (a, b));
            } else {
                assert(last[b - a - 1] == (a, b));
                assert(whole[before.len() + (b - a - 1)] == (a, b));
            }
        }
    }
}

/// `all_pairs` lists every pair of distinct positions below `n` once, the
/// smaller position first, ascending by the first position and then by
/// the second.
pub proof fn lemma_all_pairs(n: nat)
    ensures
        forall|k: int|
            0 <= k < all_pairs(n).len() ==> 0 <= (#[trigger] all_pairs(n)[k]).0 < all_pairs(n)[k].1 < n,
        forall|k: int, l: int|
            0 <= k < l < all_pairs(n).len() ==> (#[trigger] all_pairs(n)[k]).0 < (#[trigger] all_pairs(n)[l]).0 || (
            all_pairs(n)[k].0 == all_pairs(n)[l].0 && all_pairs(n)[k].1 < all_pairs(n)[l].1),
        forall|a: int, b: int| 0 <= a < b < n ==> #[trigger] all_pairs(n).contains((a, b)),
{
    lemma_rows(n as int, n);
}

/// Every similar pair is a pair of two different images, the first before
/// the second, with the similarity of their fingerprints, and that
/// similarity reaches the threshold.
pub proof fn lemma_similar_pairs(fingerprints: Seq<Seq<u8>>, percent: u32, k: int)
    requires
        fingerprints.len() <= usize::MAX,
        0 <= k < similar_pairs(fingerprints, percent).len(),
    ensures
        ({
            let pair = similar_pairs(fingerprints, percent)[k];
            &&& pair.first < pair.second < fingerprints.len()
            &&& pair.score == similarity_of(fingerprints[pair.first as int], fingerprints[pair.second as int])
            &&& pair.score.reaches(percent)
        }),
{
    let all = scored(fingerprints, all_pairs(fingerprints.len()));
    let pair = similar_pairs(fingerprints, percent)[k];
    all.lemma_filter_pred(alike(percent), k);
    all.lemma_filter_contains_rev(alike(percent), pair);
    let at = choose|at: int| 0 <= at < all.len() && all[at] == pair;
    lemma_all_pairs(fingerprints.len());
    assert(0 <= all_pairs(fingerprints.len())[at].0 < all_pairs(fingerprints.len())[at].1 < fingerprints.len());
}

/// A similarity group as a value: the score of the pair that created it,
/// and its members in the order in which they joined.
pub struct Cluster {
    pub score: SimilarityScore,
    pub members: Seq<usize>,
}

/// The state of clustering: the groups so far, and the group that each
/// file was last put into.
pub struct Clustering {
    pub groups: Seq<Cluster>,
    pub assigned: Map<usize, int>,
}

/// The members with `file` among them: added at the end unless it is there.
pub open spec fn joined(members: Seq<usize>, file: usize) -> Seq<usize> {
    if members.contains(file) {
        members
    } else {
        members.push(file)
    }
}

/// The group that takes a pair: that of its first file if it has one,
/// else that of its second file if it has one, else a new group.
pub open spec fn target(state: Clustering, pair: SimilarPair) -> int {
    if state.assigned.contains_key(pair.first) {
        state.assigned[pair.first]
    } else if state.assigned.contains_key(pair.second) {
        state.assigned[pair.second]
    } else {
        state.groups.len() as int
    }
}

/// The clustering after one more pair: both files join the group that
/// takes the pair and are assigned to it. A group that is created for the
/// pair has the score of the pair. No two groups are ever merged.
pub open spec fn cluster_step(state: Clustering, pair: SimilarPair) -> Clustering {
    let g = target(state, pair);
    let groups = if g == state.groups.len() {
        state.groups.push(Cluster { score: pair.score, members: Seq::empty() })
    } else {
        state.groups
    };
    let group = Cluster {
        score: groups[g].score,
        members: joined(joined(groups[g].members, pair.first), pair.second),
    };
    Clustering {
        groups: groups.update(g, group),
        assigned: state.assigned.insert(pair.first, g).insert(pair.second, g),
    }
}

/// The clustering of a list of similar pairs, taken one after the other.
pub open spec fn cluster(pairs: Seq<SimilarPair>) -> Clustering
    decreases pairs.len(),
{
    if pairs.len() == 0 {
        Clustering { groups: Seq::empty(), assigned: Map::empty() }
    } else {
        cluster_step(cluster(pairs.drop_last()), pairs.last())
    }
}

/// What holds of every clustering: each assigned file is a member of the
/// group it is assigned to, no group lists a file twice, and every group
/// holds the two files of the pair that created it.
pub open spec fn consistent(state: Clustering) -> bool {
    &&& forall|file: usize| #[trigger]
        state.assigned.contains_key(file) ==> 0 <= state.assigned[file] < state.groups.len()
            && state.groups[state.assigned[file]].members.contains(file)
    &&& forall|g: int| 0 <= g < state.groups.len() ==> (#[trigger] state.groups[g]).members.no_duplicates()
    &&& forall|g: int| 0 <= g < state.groups.len() ==> (#[trigger] state.groups[g]).members.len() >= 2
}

/// Joining keeps the members that are there, in their places, and has the
/// file among the members afterwards.
pub proof fn lemma_joined(members: Seq<usize>, file: usize)
    ensures
        members.is_prefix_of(joined(members, file)),
        joined(members, file).contains(file),
        forall|other: usize| members.contains(other) ==> joined(members, file).contains(other),
        members.no_duplicates() ==> joined(members, file).no_duplicates(),
        joined(members, file).len() >= members.len(),
        !members.contains(file) ==> joined(members, file).len() == members.len() + 1,
{
    let after = joined(members, file);
    if members.contains(file) {
        assert(members.is_prefix_of(after));
    } else {
        assert(after[members.len() as int] == file);
        assert(members =~= after.subrange(0, members.len() as int));
        assert forall|other: usize| members.contains(other) implies after.contains(other) by {
            let k = choose|k: int| 0 <= k < members.len() && members[k] == other;
            assert(after[k] == other);
        }
    }
}

/// One more pair only adds: the groups that were there stay, with their
/// score and with their members in their places, the two files of the
/// pair stand together in a group afterwards, and a consistent clustering
/// stays consistent.
pub proof fn lemma_step_grows(state: Clustering, pair: SimilarPair)
    requires
        consistent(state),
        pair.first != pair.second,
    ensures
        consistent(cluster_step(state, pair)),
        cluster_step(state, pair).groups.len() >= state.groups.len(),
        forall|g: int|
            0 <= g < state.groups.len() ==> (#[trigger] cluster_step(state, pair).groups[g]).score
                == state.groups[g].score && state.groups[g].members.is_prefix_of(
                cluster_step(state, pair).groups[g].members,
            ),
        0 <= target(state, pair) < cluster_step(state, pair).groups.len(),
        cluster_step(state, pair).groups[target(state, pair)].members.contains(pair.first),
        cluster_step(state, pair).groups[target(state, pair)].members.contains(pair.second),
{
    let g = target(state, pair);
    let next = cluster_step(state, pair);
    let groups = if g == state.groups.len() {
        state.groups.push(Cluster { score: pair.score, members: Seq::empty() })
    } else {
        state.groups
    };
    let before = groups[g].members;
    let middle = joined(before, pair.first);
    let after = joined(middle, pair.second);
    lemma_joined(before, pair.first);
    lemma_joined(middle, pair.second);
    assert(before.is_prefix_of(after)) by {
        assert(before =~= after.subrange(0, before.len() as int));
    }
    assert(after.len() >= 2) by {
        if g == state.groups.len() {
            assert(!before.contains(pair.first));
            assert(!middle.contains(pair.second)) by {
                if middle.contains(pair.second) {
                    let k = choose|k: int| 0 <= k < middle.len() && middle[k] == pair.second;
                }
            }
        }
    }
    assert forall|h: int| 0 <= h < state.groups.len() implies (#[trigger] next.groups[h]).score
        == state.groups[h].score && state.groups[h].members.is_prefix_of(next.groups[h].members) by {
        if h != g {
            assert(state.groups[h].members.is_prefix_of(next.groups[h].members));
        }
    }
    assert forall|file: usize| #[trigger] next.assigned.contains_key(file) implies 0 <= next.assigned[file]
        < next.groups.len() && next.groups[next.assigned[file]].members.contains(file) by {
        if file != pair.first && file != pair.second {
            assert(state.assigned.contains_key(file));
            let h = state.assigned[file];
            assert(state.groups[h].members.contains(file));
            if h == g {
                assert(before.contains(file));
            }
        }
    }
}

/// The clustering of any list of pairs of distinct files is consistent.
pub proof fn lemma_cluster_consistent(pairs: Seq<SimilarPair>)
    requires
        forall|k: int| 0 <= k < pairs.len() ==> (#[trigger] pairs[k]).first != pairs[k].second,
    ensures
        consistent(cluster(pairs)),
    decreases pairs.len(),
{
    if pairs.len() > 0 {
        lemma_cluster_consistent(pairs.drop_last());
        lemma_step_grows(cluster(pairs.drop_last()), pairs.last());
    }
}

/// Files that were put into one group are never split: every group that
/// exists after the first `k` pairs exists after all of them, with the same
/// score and with its members still in their places. Later pairs only add
/// members or groups.
pub proof fn lemma_groups_only_grow(pairs: Seq<SimilarPair>, k: int)
    requires
        forall|k: int| 0 <= k < pairs.len() ==> (#[trigger] pairs[k]).first != pairs[k].second,
        0 <= k <= pairs.len(),
    ensures
        cluster(pairs.take(k)).groups.len() <= cluster(pairs).groups.len(),
        forall|g: int|
            0 <= g < cluster(pairs.take(k)).groups.len() ==> (#[trigger] cluster(pairs).groups[g]).score
                == cluster(pairs.take(k)).groups[g].score && cluster(pairs.take(k)).groups[g].members.is_prefix_of(
                cluster(pairs).groups[g].members,
            ),
    decreases pairs.len() - k,
{
    if k < pairs.len() {
        lemma_groups_only_grow(pairs, k + 1);
        let shorter = pairs.take(k);
        let longer = pairs.take(k + 1);
        assert(longer.drop_last() =~= shorter);
        lemma_cluster_consistent(shorter);
        lemma_step_grows(cluster(shorter), longer.last());
        assert forall|g: int| 0 <= g < cluster(shorter).groups.len() implies (#[trigger] cluster(
            pairs,
        ).groups[g]).score == cluster(shorter).groups[g].score && cluster(shorter).groups[g].members.is_prefix_of(
            cluster(pairs).groups[g].members,
        ) by {
            let a = cluster(shorter).groups[g].members;
            let b = cluster(longer).groups[g].members;
            let c = cluster(pairs).groups[g].members;
            assert(a.is_prefix_of(b) && b.is_prefix_of(c));
            assert(a =~= c.subrange(0, a.len() as int));
        }
    } else {
        assert(pairs.take(k) =~= pairs);
    }
}

/// The two files of every similar pair stand together in a group of the
/// final clustering.
pub proof fn lemma_pair_shares_group(pairs: Seq<SimilarPair>, k: int)
    requires
        forall|k: int| 0 <= k < pairs.len() ==> (#[trigger] pairs[k]).first != pairs[k].second,
        0 <= k < pairs.len(),
    ensures
        exists|g: int|
            0 <= g < cluster(pairs).groups.len() && (#[trigger] cluster(pairs).groups[g]).members.contains(
                pairs[k].first,
            ) && cluster(pairs).groups[g].members.contains(pairs[k].second),
{
    let shorter = pairs.take(k);
    let longer = pairs.take(k + 1);
    assert(longer.drop_last() =~= shorter);
    assert(longer.last() == pairs[k]);
    lemma_cluster_consistent(shorter);
    lemma_step_grows(cluster(shorter), pairs[k]);
    lemma_groups_only_grow(pairs, k + 1);
    let g = target(cluster(shorter), pairs[k]);
    let early = cluster(longer).groups[g].members;
    let late = cluster(pairs).groups[g].members;
    assert(early.is_prefix_of(late));
    let a = choose|a: int| 0 <= a < early.len() && early[a] == pairs[k].first;
    let b = choose|b: int| 0 <= b < early.len() && early[b] == pairs[k].second;
    assert(late[a] == pairs[k].first && late[b] == pairs[k].second);
}

/// Every member of a group is one of the two files of some pair.
pub proof fn lemma_members_are_paired(pairs: Seq<SimilarPair>, g: int, m: int)
    requires
        forall|k: int| 0 <= k < pairs.len() ==> (#[trigger] pairs[k]).first != pairs[k].second,
        0 <= g < cluster(pairs).groups.len(),
        0 <= m < cluster(pairs).groups[g].members.len(),
    ensures
        exists|k: int|
            0 <= k < pairs.len() && (cluster(pairs).groups[g].members[m] == (#[trigger] pairs[k]).first || cluster(
                pairs,
            ).groups[g].members[m] == pairs[k].second),
    decreases pairs.len(),
{
    if pairs.len() > 0 {
        let init = pairs.drop_last();
        let last = pairs.last();
        let before = cluster(init);
        let file = cluster(pairs).groups[g].members[m];
        lemma_cluster_consistent(init);
        lemma_step_grows(before, last);
        let t = target(before, last);
        let opened = if t == before.groups.len() {
            before.groups.push(Cluster { score: last.score, members: Seq::empty() })
        } else {
            before.groups
        };
        if g < before.groups.len() && m < before.groups[g].members.len() {
            assert(before.groups[g].members.is_prefix_of(cluster(pairs).groups[g].members));
            assert(before.groups[g].members[m] == file);
            lemma_members_are_paired(init, g, m);
            let k = choose|k: int|
                0 <= k < init.len() && (before.groups[g].members[m] == (#[trigger] init[k]).first
                    || before.groups[g].members[m] == init[k].second);
            assert(pairs[k] == init[k]);
        } else {
            assert(g == t);
            let old_members = opened[g].members;
            let middle = joined(old_members, last.first);
            lemma_joined(old_members, last.first);
            lemma_joined(middle, last.second);
            assert(m >= old_members.len());
            assert(file == last.first || file == last.second);
            assert(pairs[pairs.len() - 1] == last);
        }
    }
}

/// Every group was created by a pair: it has the score of that pair, and
/// the two files of the pair are its first members.
pub proof fn lemma_group_has_creator(pairs: Seq<SimilarPair>, g: int)
    requires
        forall|k: int| 0 <= k < pairs.len() ==> (#[trigger] pairs[k]).first != pairs[k].second,
        0 <= g < cluster(pairs).groups.len(),
    ensures
        exists|k: int|
            0 <= k < pairs.len() && cluster(pairs).groups[g].score == (#[trigger] pairs[k]).score && cluster(
                pairs,
            ).groups[g].members.len() >= 2 && cluster(pairs).groups[g].members[0] == pairs[k].first && cluster(
                pairs,
            ).groups[g].members[1] == pairs[k].second,
    decreases pairs.len(),
{
    if pairs.len() > 0 {
        let init = pairs.drop_last();
        let last = pairs.last();
        let before = cluster(init);
        let after = cluster(pairs);
        lemma_cluster_consistent(init);
        lemma_step_grows(before, last);
        if g < before.groups.len() {
            lemma_group_has_creator(init, g);
            let k = choose|k: int|
                0 <= k < init.len() && before.groups[g].score == (#[trigger] init[k]).score
                    && before.groups[g].members.len() >= 2 && before.groups[g].members[0] == init[k].first
                    && before.groups[g].members[1] == init[k].second;
            assert(before.groups[g].members.is_prefix_of(after.groups[g].members));
            assert(pairs[k] == init[k]);
        } else {
            let empty = Seq::<usize>::empty();
            assert(!empty.contains(last.first));
            assert(joined(empty, last.first) =~= seq![last.first]);
            assert(!seq![last.first].contains(last.second)) by {
                if seq![last.first].contains(last.second) {
                    let x = choose|x: int| 0 <= x < 1 && seq![last.first][x] == last.second;
                }
            }
            assert(after.groups[g].members =~= seq![last.first, last.second]);
            assert(pairs[pairs.len() - 1] == last);
        }
    }
}

/// A group of similar files.
#[derive(Debug)]
pub struct SimilarityGroup {
    score: SimilarityScore,
    members: Vec<usize>,
    lookup: HashSet<usize>,
}

impl View for SimilarityGroup {
    type V = Cluster;

    closed spec fn view(&self) -> Cluster {
        Cluster { score: self.score, members: self.members@ }
    }
}

impl SimilarityGroup {
    /// The lookup set holds exactly the members.
    spec fn wf(&self) -> bool {
        forall|file: usize| self.lookup@.contains(file) <==> self.members@.contains(file)
    }

    /// A group without members.
    fn new(score: SimilarityScore) -> (group: SimilarityGroup)
        ensures
            group.wf(),
            group@ == (Cluster { score, members: Seq::empty() }),
    {
        SimilarityGroup { score, members: Vec::new(), lookup: HashSet::new() }
    }

    /// Lets `file` join the group unless it is a member.
    fn insert(&mut self, file: usize)
        requires
            old(self).wf(),
        ensures
            final(self).wf(),
            final(self)@ == (Cluster { score: old(self)@.score, members: joined(old(self)@.members, file) }),
    {
        broadcast use group_hash_axioms;

        let ghost before = self.members@;
        if self.lookup.insert(file) {
            self.members.push(file);
            proof {
                assert forall|other: usize| self.lookup@.contains(other) <==> self.members@.contains(
                    other,
                ) by {
                    if before.contains(other) {
                        let k = choose|k: int| 0 <= k < before.len() && before[k] == other;
                        assert(self.members@[k] == other);
                    }
                    if other == file {
                        assert(self.members@[before.len() as int] == other);
                    }
                }
            }
        }
    }

    /// The similarity of the pair that created the group.
    pub fn score(&self) -> (score: SimilarityScore)
        ensures
            score == self@.score,
    {
        self.score
    }

    /// The positions of the member files, in the order in which they joined.
    pub fn members(&self) -> (members: &Vec<usize>)
        ensures
            members@ == self@.members,
    {
        &self.members
    }
}

/// The groups as values.
pub open spec fn group_views(groups: Seq<SimilarityGroup>) -> Seq<Cluster> {
    Seq::new(groups.len(), |g: int| groups[g]@)
}

/// The fingerprint of each image as a bit vector.
pub open spec fn fingerprint_views(hashes: Seq<(Fingerprint, FileEntry)>) -> Seq<Seq<u8>> {
    Seq::new(hashes.len(), |i: int| hashes[i].0@)
}

/// The images among scan results, in order; a `None` stands for a file
/// that is no image or could not be read.
pub open spec fn fingerprinted(results: Seq<Option<(Fingerprint, FileEntry)>>) -> Seq<
    (Fingerprint, FileEntry),
>
    decreases results.len(),
{
    if results.len() == 0 {
        Seq::empty()
    } else {
        match results.last() {
            Some(image) => fingerprinted(results.drop_last()).push(image),
            None => fingerprinted(results.drop_last()),
        }
    }
}

/// Groups the pairs one after the other.
pub fn cluster_pairs(pairs: &Vec<SimilarPair>) -> (groups: Vec<SimilarityGroup>)
    ensures
        group_views(groups@) == cluster(pairs@).groups,
{
    broadcast use group_hash_axioms;

    let mut assigned: HashMap<usize, usize> = HashMap::new();
    let mut groups: Vec<SimilarityGroup> = Vec::new();
    let mut k: usize = 0;
    assert(group_views(groups@) =~= cluster(pairs@.take(0)).groups);
    while k < pairs.len()
        invariant
            k <= pairs.len(),
            group_views(groups@) == cluster(pairs@.take(k as int)).groups,
            forall|file: usize|
                assigned@.contains_key(file) <==> #[trigger] cluster(pairs@.take(k as int)).assigned.contains_key(
                    file,
                ),
            forall|file: usize| #[trigger]
                assigned@.contains_key(file) ==> assigned@[file] == cluster(pairs@.take(k as int)).assigned[file],
            forall|g: int| 0 <= g < groups.len() ==> (#[trigger] groups[g]).wf(),
            forall|file: usize| #[trigger] assigned@.contains_key(file) ==> assigned@[file] < groups.len(),
        decreases pairs.len() - k,
    {
        let pair = pairs[k];
        let ghost state = cluster(pairs@.take(k as int));
        proof {
            assert(pairs@.take(k + 1).drop_last() =~= pairs@.take(k as int));
            assert(pairs@.take(k + 1).last() == pair);
        }
        let known = match assigned.get(&pair.first) {
            Some(g) => Some(*g),
            None => match assigned.get(&pair.second) {
                Some(g) => Some(*g),
                None => None,
            },
        };
        let g = match known {
            Some(g) => g,
            None => {
                groups.push(SimilarityGroup::new(pair.score));
                groups.len() - 1
            },
        };
        assert(g == target(state, pair));
        let ghost opened = groups@;
        groups[g].insert(pair.first);
        groups[g].insert(pair.second);
        assigned.insert(pair.first, g);
        assigned.insert(pair.second, g);
        proof {
            let next = cluster_step(state, pair);
            assert(group_views(groups@) =~= next.groups) by {
                assert forall|h: int| 0 <= h < groups.len() implies #[trigger] group_views(groups@)[h]
                    == next.groups[h] by {
                    if h != g {
                        assert(groups[h] == opened[h]);
                        if h < state.groups.len() {
                            assert(group_views(opened)[h] == state.groups[h]);
                        }
                    }
                }
            }
        }
        k += 1;
    }
    assert(pairs@.take(k as int) =~= pairs@);
    groups
}

/// One more pair at the end of a list adds its score at the end of the
/// scored list.
proof fn lemma_scored_push(fingerprints: Seq<Seq<u8>>, pairs: Seq<(int, int)>, pair: (int, int))
    ensures
        scored(fingerprints, pairs.push(pair)) == scored(fingerprints, pairs).push(
            SimilarPair {
                first: pair.0 as usize,
                second: pair.1 as usize,
                score: similarity_of(fingerprints[pair.0], fingerprints[pair.1]),
            },
        ),
{
    assert(scored(fingerprints, pairs.push(pair)) =~= scored(fingerprints, pairs).push(
        SimilarPair {
            first: pair.0 as usize,
            second: pair.1 as usize,
            score: similarity_of(fingerprints[pair.0], fingerprints[pair.1]),
        },
    ));
}

/// Finds similar images among the files of a scan.
pub struct Similarity {
    options: Options,
    /// Every image recorded so far with its fingerprint, in arrival order.
    hashes: Vec<(Fingerprint, FileEntry)>,
}

impl Similarity {
    /// The configuration of the run.
    pub closed spec fn options(&self) -> Options {
        self.options
    }

    /// Every image recorded so far with its fingerprint, in arrival order.
    pub closed spec fn images(&self) -> Seq<(Fingerprint, FileEntry)> {
        self.hashes@
    }

    /// The fingerprints recorded so far.
    pub open spec fn fingerprints(&self) -> Seq<Seq<u8>> {
        fingerprint_views(self.images())
    }

    /// An engine that has recorded no image yet.
    pub fn new(options: Options) -> (engine: Self)
        ensures
            engine.options() == options,
            engine.images() == Seq::<(Fingerprint, FileEntry)>::empty(),
    {
        Similarity { options, hashes: Vec::new() }
    }

    /// Records the results of a scan in the order in which they arrived:
    /// each image with its fingerprint. A file that is no image or could
    /// not be read is dropped.
    pub fn consume(&mut self, results: Vec<Option<(Fingerprint, FileEntry)>>)
        ensures
            final(self).options() == old(self).options(),
            final(self).images() == old(self).images() + fingerprinted(results@),
    {
        let ghost start = self.images();
        let ghost options = self.options();
        let ghost all = results@;
        let ghost mut done: Seq<Option<(Fingerprint, FileEntry)>> = Seq::empty();
        for result in it: results
            invariant
                self.options() == options,
                it.seq() == all,
                done == all.take(it.index() as int),
                self.images() == start + fingerprinted(done),
        {
            proof {
                let next = all.take(it.index() + 1);
                assert(next.drop_last() =~= done);
                assert(next.last() == result);
                done = next;
            }
            match result {
                Some(image) => {
                    self.hashes.push(image);
                },
                None => {},
            }
        }
        assert(done =~= all);
    }

    /// The images recorded so far; the members of a group are positions in
    /// this list.
    pub fn files(&self) -> (files: &Vec<(Fingerprint, FileEntry)>)
        ensures
            files@ == self.images(),
    {
        &self.hashes
    }

    /// Compares every pair of fingerprints and keeps those whose
    /// similarity reaches the threshold of the run.
    pub fn similar_pairs(&self) -> (pairs: Vec<SimilarPair>)
        ensures
            pairs@ == similar_pairs(self.fingerprints(), self.options().similarity_score),
    {
        let percent = self.options.similarity_score;
        let n = self.hashes.len();
        let ghost prints = self.fingerprints();
        let mut pairs: Vec<SimilarPair> = Vec::new();
        let mut i: usize = 0;
        proof {
            crate::grouping::lemma_filter_none(scored(prints, rows(n as int, 0)), alike(percent));
        }
        while i < n
            invariant
                i <= n,
                n == self.hashes.len(),
                prints == self.fingerprints(),
                percent == self.options.similarity_score,
                pairs@ == scored(prints, rows(n as int, i as nat)).filter(alike(percent)),
            decreases n - i,
        {
            let mut j: usize = i + 1;
            assert(rows(n as int, i as nat) + row(i as int, j as int) =~= rows(n as int, i as nat));
            while j < n
                invariant
                    i < j <= n,
                    n == self.hashes.len(),
                    prints == self.fingerprints(),
                    percent == self.options.similarity_score,
                    pairs@ == scored(prints, rows(n as int, i as nat) + row(i as int, j as int)).filter(
                        alike(percent),
                    ),
                decreases n - j,
            {
                let score = self.hashes[i].0.similarity(&self.hashes[j].0);
                let pair = SimilarPair { first: i, second: j, score };
                proof {
                    let seen = rows(n as int, i as nat) + row(i as int, j as int);
                    assert(rows(n as int, i as nat) + row(i as int, j + 1) =~= seen.push((i as int, j as int)));
                    lemma_scored_push(prints, seen, (i as int, j as int));
                    scored(prints, seen).lemma_filter_push(pair, alike(percent));
                }
                if score.meets(percent) {
                    pairs.push(pair);
                }
                j += 1;
            }
            i += 1;
        }
        pairs
    }

    /// Groups the recorded images by similarity.
    ///
    /// Every pair of images is compared, and the pairs whose similarity
    /// reaches the threshold are clustered in the order in which they are
    /// found: a pair joins the group of its first image, else that of its
    /// second image, else it starts a group.
    pub fn collect(&self) -> (groups: Vec<SimilarityGroup>)
        ensures
            group_views(groups@) == cluster(
                similar_pairs(self.fingerprints(), self.options().similarity_score),
            ).groups,
            forall|g: int| 0 <= g < groups.len() ==> (#[trigger] groups[g])@.members.len() >= 2,
            forall|g: int| 0 <= g < groups.len() ==> (#[trigger] groups[g])@.members.no_duplicates(),
            forall|g: int, m: int|
                0 <= g < groups.len() && 0 <= m < groups[g]@.members.len() ==> (#[trigger] groups[g]@.members[m])
                    < self.images().len(),
    {
        let pairs = self.similar_pairs();
        let groups = cluster_pairs(&pairs);
        proof {
            let prints = self.fingerprints();
            let percent = self.options().similarity_score;
            assert(prints.len() == self.hashes.len());
            assert forall|k: int| 0 <= k < pairs.len() implies (#[trigger] pairs[k]).first != pairs[k].second
                && pairs[k].first < prints.len() && pairs[k].second < prints.len() by {
                lemma_similar_pairs(prints, percent, k);
            }
            lemma_cluster_consistent(pairs@);
            assert forall|g: int| 0 <= g < groups.len() implies (#[trigger] groups[g])@.members.len() >= 2
                && groups[g]@.members.no_duplicates() by {
                assert(group_views(groups@)[g] == cluster(pairs@).groups[g]);
            }
            assert forall|g: int, m: int|
                0 <= g < groups.len() && 0 <= m < groups[g]@.members.len() implies (#[trigger] groups[g]@.members[m])
                < self.images().len() by {
                assert(group_views(groups@)[g] == cluster(pairs@).groups[g]);
                lemma_members_are_paired(pairs@, g, m);
            }
        }
        groups
    }

    /// Records the results of a scan and groups the images by similarity.
    pub fn execute(&mut self, results: Vec<Option<(Fingerprint, FileEntry)>>) -> (groups: Vec<
        SimilarityGroup,
    >)
        ensures
            final(self).options() == old(self).options(),
            final(self).images() == old(self).images() + fingerprinted(results@),
            group_views(groups@) == cluster(
                similar_pairs(final(self).fingerprints(), final(self).options().similarity_score),
            ).groups,
            forall|g: int, m: int|
                0 <= g < groups.len() && 0 <= m < groups[g]@.members.len() ==> (#[trigger] groups[g]@.members[m])
                    < final(self).images().len(),
    {
        self.consume(results);
        self.collect()
    }
}

} // verus!
