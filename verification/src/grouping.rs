//! Grouping the positions of a sequence by key.
//!
//! Both stages of the exact-duplicate search bucket their input the same
//! way: positions with equal keys form one class, classes stand in the
//! order in which their first member arrived, and within a class the
//! positions keep their arrival order. A position without a key (a file
//! that could not be read) belongs to no class.

use vstd::prelude::*;
use vstd::relations::injective_on;
use vstd::seq_lib::seq_to_set_is_finite;
use vstd::set_lib::lemma_map_size;

verus! {

/// The positions `0..n` in ascending order.
pub open spec fn range(n: nat) -> Seq<int> {
    Seq::new(n, |i: int| i)
}

/// Whether position `i` holds a key that no earlier position holds.
pub open spec fn is_first<K>(keys: Seq<Option<K>>, i: int) -> bool {
    &&& 0 <= i < keys.len()
    &&& keys[i].is_some()
    &&& forall|j: int| 0 <= j < i ==> keys[j] != keys[i]
}

/// The predicate "holds a key that no earlier position holds".
pub open spec fn first_with_key<K>(keys: Seq<Option<K>>) -> spec_fn(int) -> bool {
    |i: int| is_first(keys, i)
}

/// The predicate "holds the key of position `l`".
pub open spec fn same_key_as<K>(keys: Seq<Option<K>>, l: int) -> spec_fn(int) -> bool {
    |i: int| keys[i] == keys[l]
}

/// The first position of each key, ascending.
pub open spec fn leaders<K>(keys: Seq<Option<K>>) -> Seq<int> {
    range(keys.len()).filter(first_with_key(keys))
}

/// The positions that hold the key of position `l`, ascending.
pub open spec fn class_of<K>(keys: Seq<Option<K>>, l: int) -> Seq<int> {
    range(keys.len()).filter(same_key_as(keys, l))
}

/// The classes of `keys`: one per distinct key, in the order in which the
/// keys first occur, each listing the positions of its key in ascending order.
pub open spec fn grouping<K>(keys: Seq<Option<K>>) -> Seq<Seq<int>> {
    leaders(keys).map_values(|l: int| class_of(keys, l))
}

/// The predicate "has more than one member".
pub open spec fn is_shared() -> spec_fn(Seq<int>) -> bool {
    |class: Seq<int>| class.len() > 1
}

/// The predicate "has exactly one member".
pub open spec fn is_lone() -> spec_fn(Seq<int>) -> bool {
    |class: Seq<int>| class.len() == 1
}

/// The classes with at least two members.
pub open spec fn shared_classes<K>(keys: Seq<Option<K>>) -> Seq<Seq<int>> {
    grouping(keys).filter(is_shared())
}

/// The classes with a single member.
pub open spec fn lone_classes<K>(keys: Seq<Option<K>>) -> Seq<Seq<int>> {
    grouping(keys).filter(is_lone())
}

/// Filtering by two predicates that agree on every element gives the same result.
pub proof fn lemma_filter_agree<A>(s: Seq<A>, p: spec_fn(A) -> bool, q: spec_fn(A) -> bool)
    requires
        forall|i: int| 0 <= i < s.len() ==> p(#[trigger] s[i]) == q(s[i]),
    ensures
        s.filter(p) == s.filter(q),
    decreases s.len(),
{
    reveal(Seq::filter);
    if s.len() > 0 {
        lemma_filter_agree(s.drop_last(), p, q);
    }
}

/// A filter that no element passes leaves nothing.
pub proof fn lemma_filter_none<A>(s: Seq<A>, p: spec_fn(A) -> bool)
    requires
        forall|i: int| 0 <= i < s.len() ==> !p(#[trigger] s[i]),
    ensures
        s.filter(p) == Seq::<A>::empty(),
    decreases s.len(),
{
    reveal(Seq::filter);
    if s.len() > 0 {
        lemma_filter_none(s.drop_last(), p);
    }
}

/// Filtering the positions `0..n` keeps exactly those that pass, in ascending order.
pub proof fn lemma_filter_range(n: nat, p: spec_fn(int) -> bool)
    ensures
        forall|m: int|
            0 <= m < range(n).filter(p).len() ==> 0 <= #[trigger] range(n).filter(p)[m] < n && p(
                range(n).filter(p)[m],
            ),
        forall|a: int, b: int|
            0 <= a < b < range(n).filter(p).len() ==> #[trigger] range(n).filter(p)[a]
                < #[trigger] range(n).filter(p)[b],
        forall|i: int| 0 <= i < n && p(i) ==> #[trigger] range(n).filter(p).contains(i),
    decreases n,
{
    if n == 0 {
        lemma_filter_none(range(0), p);
    } else {
        let k = (n - 1) as nat;
        let shorter = range(k).filter(p);
        let longer = range(n).filter(p);
        lemma_filter_range(k, p);
        assert(range(n) =~= range(k).push(k as int));
        range(k).lemma_filter_push(k as int, p);
        assert forall|i: int| 0 <= i < n && p(i) implies #[trigger] longer.contains(i) by {
            if i < k {
                assert(shorter.contains(i));
                let m = choose|m: int| 0 <= m < shorter.len() && shorter[m] == i;
                assert(longer[m] == i);
            } else {
                assert(longer[shorter.len() as int] == i);
            }
        }
    }
}

/// Every leader is the first position of its key, the leaders ascend, and
/// each first position is a leader.
pub proof fn lemma_leaders<K>(keys: Seq<Option<K>>)
    ensures
        forall|g: int| 0 <= g < leaders(keys).len() ==> is_first(keys, #[trigger] leaders(keys)[g]),
        forall|g: int, h: int|
            0 <= g < h < leaders(keys).len() ==> #[trigger] leaders(keys)[g] < #[trigger] leaders(keys)[h],
        forall|i: int| is_first(keys, i) ==> #[trigger] leaders(keys).contains(i),
{
    lemma_filter_range(keys.len(), first_with_key(keys));
}

/// A class holds exactly the positions with the key of its first member, in
/// ascending order.
pub proof fn lemma_class_of<K>(keys: Seq<Option<K>>, l: int)
    ensures
        forall|m: int|
            0 <= m < class_of(keys, l).len() ==> 0 <= #[trigger] class_of(keys, l)[m] < keys.len()
                && keys[class_of(keys, l)[m]] == keys[l],
        forall|a: int, b: int|
            0 <= a < b < class_of(keys, l).len() ==> #[trigger] class_of(keys, l)[a] < #[trigger] class_of(
                keys,
                l,
            )[b],
        forall|i: int| 0 <= i < keys.len() && keys[i] == keys[l] ==> #[trigger] class_of(keys, l).contains(i),
{
    lemma_filter_range(keys.len(), same_key_as(keys, l));
}

/// How the leaders change when one more key arrives: the new position
/// becomes a leader if its key is new, and nothing else changes.
pub proof fn lemma_leaders_push<K>(keys: Seq<Option<K>>, k: Option<K>)
    ensures
        leaders(keys.push(k)) == if is_first(keys.push(k), keys.len() as int) {
            leaders(keys).push(keys.len() as int)
        } else {
            leaders(keys)
        },
{
    let n = keys.len();
    let more = keys.push(k);
    assert(range(n + 1) =~= range(n).push(n as int));
    range(n).lemma_filter_push(n as int, first_with_key(more));
    assert forall|i: int| 0 <= i < n implies first_with_key(more)(#[trigger] range(n)[i])
        == first_with_key(keys)(range(n)[i]) by {
        assert(more[i] == keys[i]);
        if is_first(keys, i) {
            assert forall|j: int| 0 <= j < i implies more[j] != more[i] by {
                assert(more[j] == keys[j]);
            }
        }
        if is_first(more, i) {
            assert forall|j: int| 0 <= j < i implies keys[j] != keys[i] by {
                assert(more[j] == keys[j]);
            }
        }
    }
    lemma_filter_agree(range(n), first_with_key(more), first_with_key(keys));
}

/// How a class changes when one more key arrives: the new position joins
/// the class whose key it holds.
pub proof fn lemma_class_push<K>(keys: Seq<Option<K>>, k: Option<K>, l: int)
    requires
        0 <= l < keys.len(),
    ensures
        class_of(keys.push(k), l) == if keys[l] == k {
            class_of(keys, l).push(keys.len() as int)
        } else {
            class_of(keys, l)
        },
{
    let n = keys.len();
    let more = keys.push(k);
    assert(range(n + 1) =~= range(n).push(n as int));
    range(n).lemma_filter_push(n as int, same_key_as(more, l));
    assert forall|i: int| 0 <= i < n implies same_key_as(more, l)(#[trigger] range(n)[i]) == same_key_as(
        keys,
        l,
    )(range(n)[i]) by {
        assert(more[i] == keys[i]);
    }
    lemma_filter_agree(range(n), same_key_as(more, l), same_key_as(keys, l));
}

/// A position without a key changes nothing.
pub proof fn lemma_grouping_skip<K>(keys: Seq<Option<K>>)
    ensures
        leaders(keys.push(None)) == leaders(keys),
        grouping(keys.push(None)) == grouping(keys),
{
    let more = keys.push(None::<K>);
    lemma_leaders_push(keys, None);
    lemma_leaders(keys);
    assert forall|g: int| 0 <= g < leaders(keys).len() implies #[trigger] grouping(more)[g] == grouping(
        keys,
    )[g] by {
        let l = leaders(keys)[g];
        assert(is_first(keys, l));
        lemma_class_push(keys, None, l);
    }
    assert(grouping(more) =~= grouping(keys));
}

/// A position whose key is that of leader `g` joins the class of `g`.
pub proof fn lemma_grouping_join<K>(keys: Seq<Option<K>>, k: Option<K>, g: int)
    requires
        k.is_some(),
        0 <= g < leaders(keys).len(),
        keys[leaders(keys)[g]] == k,
    ensures
        leaders(keys.push(k)) == leaders(keys),
        grouping(keys.push(k)) == grouping(keys).update(g, grouping(keys)[g].push(keys.len() as int)),
{
    let more = keys.push(k);
    let n = keys.len() as int;
    lemma_leaders_push(keys, k);
    lemma_leaders(keys);
    assert(is_first(keys, leaders(keys)[g]));
    assert(more[leaders(keys)[g]] == more[n]);
    let target = grouping(keys).update(g, grouping(keys)[g].push(n));
    assert forall|h: int| 0 <= h < leaders(keys).len() implies #[trigger] grouping(more)[h] == target[h] by {
        let l = leaders(keys)[h];
        assert(is_first(keys, l));
        lemma_class_push(keys, k, l);
        if h != g {
            let m = leaders(keys)[g];
            if h < g {
                assert(l < m);
            } else {
                assert(m < l);
            }
        }
    }
    assert(grouping(more) =~= target);
}

/// A position whose key no leader holds starts a class of its own.
pub proof fn lemma_grouping_open<K>(keys: Seq<Option<K>>, k: Option<K>)
    requires
        k.is_some(),
        forall|g: int| 0 <= g < leaders(keys).len() ==> keys[#[trigger] leaders(keys)[g]] != k,
    ensures
        leaders(keys.push(k)) == leaders(keys).push(keys.len() as int),
        grouping(keys.push(k)) == grouping(keys).push(seq![keys.len() as int]),
{
    let more = keys.push(k);
    let n = keys.len() as int;
    lemma_leaders(keys);
    assert forall|j: int| 0 <= j < n implies keys[j] != k by {
        if keys[j] == k {
            lemma_has_leader(keys, j);
        }
    }
    assert(is_first(more, n));
    lemma_leaders_push(keys, k);
    let target = grouping(keys).push(seq![n]);
    assert forall|h: int| 0 <= h < leaders(more).len() implies #[trigger] grouping(more)[h] == target[h] by {
        if h < leaders(keys).len() {
            let l = leaders(keys)[h];
            assert(is_first(keys, l));
            lemma_class_push(keys, k, l);
        } else {
            assert(range((n + 1) as nat) =~= range(n as nat).push(n));
            range(n as nat).lemma_filter_push(n, same_key_as(more, n));
            lemma_filter_none(range(n as nat), same_key_as(more, n));
            assert(class_of(more, n) =~= seq![n]);
        }
    }
    assert(grouping(more) =~= target);
}

/// Every position with a key has the key of some leader.
pub proof fn lemma_has_leader<K>(keys: Seq<Option<K>>, i: int)
    requires
        0 <= i < keys.len(),
        keys[i].is_some(),
    ensures
        exists|g: int| 0 <= g < leaders(keys).len() && keys[#[trigger] leaders(keys)[g]] == keys[i],
    decreases i,
{
    lemma_leaders(keys);
    if is_first(keys, i) {
        assert(leaders(keys).contains(i));
        let g = choose|g: int| 0 <= g < leaders(keys).len() && leaders(keys)[g] == i;
        assert(keys[leaders(keys)[g]] == keys[i]);
    } else {
        let j = choose|j: int| 0 <= j < i && keys[j] == keys[i];
        lemma_has_leader(keys, j);
    }
}

/// Every class has a member, lists positions of the sequence, and all its
/// members hold one key: positions with different keys never share a class.
pub proof fn lemma_class_shares_key<K>(keys: Seq<Option<K>>, g: int)
    requires
        0 <= g < grouping(keys).len(),
    ensures
        grouping(keys)[g].len() >= 1,
        grouping(keys)[g][0] == leaders(keys)[g],
        forall|m: int|
            0 <= m < grouping(keys)[g].len() ==> 0 <= #[trigger] grouping(keys)[g][m] < keys.len(),
        forall|a: int, b: int|
            0 <= a < b < grouping(keys)[g].len() ==> #[trigger] grouping(keys)[g][a] < #[trigger] grouping(
                keys,
            )[g][b],
        forall|a: int, b: int|
            0 <= a < grouping(keys)[g].len() && 0 <= b < grouping(keys)[g].len() ==> keys[#[trigger] grouping(
                keys,
            )[g][a]].is_some() && keys[grouping(keys)[g][a]] == keys[#[trigger] grouping(keys)[g][b]],
{
    let l = leaders(keys)[g];
    let class = grouping(keys)[g];
    lemma_leaders(keys);
    assert(is_first(keys, l));
    lemma_class_of(keys, l);
    assert(class.contains(l));
    let at = choose|at: int| 0 <= at < class.len() && class[at] == l;
    if at > 0 {
        assert(keys[class[0]] == keys[l]);
        assert(class[0] < class[at]);
    }
}

/// Positions that hold the same key stand in the same class, whatever the
/// order in which the keys arrived.
pub proof fn lemma_equal_keys_share_class<K>(keys: Seq<Option<K>>, i: int, j: int)
    requires
        0 <= i < keys.len(),
        0 <= j < keys.len(),
        keys[i].is_some(),
        keys[i] == keys[j],
    ensures
        exists|g: int|
            0 <= g < grouping(keys).len() && (#[trigger] grouping(keys)[g]).contains(i) && grouping(
                keys,
            )[g].contains(j),
{
    lemma_has_leader(keys, i);
    let g = choose|g: int| 0 <= g < leaders(keys).len() && keys[#[trigger] leaders(keys)[g]] == keys[i];
    lemma_class_of(keys, leaders(keys)[g]);
    assert(grouping(keys)[g].contains(i) && grouping(keys)[g].contains(j));
}

/// No position stands in two classes.
pub proof fn lemma_classes_disjoint<K>(keys: Seq<Option<K>>, g: int, h: int, i: int)
    requires
        0 <= g < grouping(keys).len(),
        0 <= h < grouping(keys).len(),
        grouping(keys)[g].contains(i),
        grouping(keys)[h].contains(i),
    ensures
        g == h,
{
    lemma_leaders(keys);
    lemma_class_shares_key(keys, g);
    lemma_class_shares_key(keys, h);
    let a = choose|a: int| 0 <= a < grouping(keys)[g].len() && grouping(keys)[g][a] == i;
    let b = choose|b: int| 0 <= b < grouping(keys)[h].len() && grouping(keys)[h][b] == i;
    assert(keys[grouping(keys)[g][a]] == keys[grouping(keys)[g][0]]);
    assert(keys[grouping(keys)[h][b]] == keys[grouping(keys)[h][0]]);
    if g < h {
        assert(leaders(keys)[g] < leaders(keys)[h]);
        assert(is_first(keys, leaders(keys)[h]));
    } else if h < g {
        assert(leaders(keys)[h] < leaders(keys)[g]);
        assert(is_first(keys, leaders(keys)[g]));
    }
}

/// The number of members that the classes hold together.
pub open spec fn total<A>(classes: Seq<Seq<A>>) -> nat
    decreases classes.len(),
{
    if classes.len() == 0 {
        0
    } else {
        total(classes.drop_last()) + classes.last().len()
    }
}

/// One more class adds its members to the total.
pub proof fn lemma_total_push<A>(classes: Seq<Seq<A>>, class: Seq<A>)
    ensures
        total(classes.push(class)) == total(classes) + class.len(),
{
    assert(classes.push(class).drop_last() =~= classes);
}

/// Replacing a class changes the total by the difference in members.
pub proof fn lemma_total_update<A>(classes: Seq<Seq<A>>, g: int, class: Seq<A>)
    requires
        0 <= g < classes.len(),
    ensures
        total(classes.update(g, class)) + classes[g].len() == total(classes) + class.len(),
    decreases classes.len(),
{
    let changed = classes.update(g, class);
    if g == classes.len() - 1 {
        assert(changed.drop_last() =~= classes.drop_last());
    } else {
        lemma_total_update(classes.drop_last(), g, class);
        assert(changed.drop_last() =~= classes.drop_last().update(g, class));
    }
}

/// The predicate "is a key", which a position without one does not pass.
pub open spec fn is_key<K>() -> spec_fn(Option<K>) -> bool {
    |k: Option<K>| k.is_some()
}

/// The number of positions that hold a key.
pub open spec fn keyed<K>(keys: Seq<Option<K>>) -> nat {
    keys.filter(is_key()).len()
}

/// The classes hold each position with a key once: together they have as
/// many members as there are positions with a key, and no more than there
/// are positions.
pub proof fn lemma_grouping_total<K>(keys: Seq<Option<K>>)
    ensures
        total(grouping(keys)) == keyed(keys),
        total(grouping(keys)) <= keys.len(),
    decreases keys.len(),
{
    let with_key = is_key::<K>();
    if keys.len() == 0 {
        lemma_leaders(keys);
        if leaders(keys).len() > 0 {
            assert(is_first(keys, leaders(keys)[0]));
        }
        assert(grouping(keys) =~= Seq::<Seq<int>>::empty());
        lemma_filter_none(keys, with_key);
    } else {
        let init = keys.drop_last();
        let k = keys.last();
        lemma_grouping_total(init);
        assert(init.push(k) =~= keys);
        init.lemma_filter_push(k, with_key);
        init.lemma_filter_len(with_key);
        if k.is_none() {
            lemma_grouping_skip(init);
        } else if exists|g: int| 0 <= g < leaders(init).len() && init[#[trigger] leaders(init)[g]] == k {
            let g = choose|g: int| 0 <= g < leaders(init).len() && init[#[trigger] leaders(init)[g]] == k;
            lemma_grouping_join(init, k, g);
            lemma_total_update(grouping(init), g, grouping(init)[g].push(init.len() as int));
        } else {
            lemma_grouping_open(init, k);
            lemma_total_push(grouping(init), seq![init.len() as int]);
        }
    }
}

/// The classes with several members hold, together with one member for
/// each class that has just one, no more members than all classes do; and
/// where no class is empty, they account for every member.
pub proof fn lemma_total_shared_lone(classes: Seq<Seq<int>>)
    ensures
        total(classes.filter(is_shared())) + classes.filter(is_lone()).len() <= total(classes),
        (forall|g: int| 0 <= g < classes.len() ==> (#[trigger] classes[g]).len() >= 1) ==> total(
            classes.filter(is_shared()),
        ) + classes.filter(is_lone()).len() == total(classes),
    decreases classes.len(),
{
    if classes.len() == 0 {
        lemma_filter_none(classes, is_shared());
        lemma_filter_none(classes, is_lone());
    } else {
        let init = classes.drop_last();
        lemma_total_shared_lone(init);
        assert(init.push(classes.last()) =~= classes);
        init.lemma_filter_push(classes.last(), is_shared());
        init.lemma_filter_push(classes.last(), is_lone());
        lemma_total_push(init.filter(is_shared()), classes.last());
        if forall|g: int| 0 <= g < classes.len() ==> (#[trigger] classes[g]).len() >= 1 {
            assert forall|g: int| 0 <= g < init.len() implies (#[trigger] init[g]).len() >= 1 by {
                assert(init[g] == classes[g]);
            }
            assert(classes[classes.len() - 1].len() >= 1);
        }
    }
}

/// Whether positions `i` and `j` stand together in one class.
pub open spec fn together<K>(keys: Seq<Option<K>>, i: int, j: int) -> bool {
    exists|g: int|
        0 <= g < grouping(keys).len() && (#[trigger] grouping(keys)[g]).contains(i) && grouping(keys)[g].contains(
            j,
        )
}

/// Two positions stand together in a class exactly when they hold the same
/// key: nothing else decides it, in particular not where in the sequence
/// they stand.
pub proof fn lemma_together_iff_same_key<K>(keys: Seq<Option<K>>, i: int, j: int)
    ensures
        together(keys, i, j) <==> 0 <= i < keys.len() && 0 <= j < keys.len() && keys[i].is_some() && keys[i]
            == keys[j],
{
    if together(keys, i, j) {
        let g = choose|g: int|
            0 <= g < grouping(keys).len() && (#[trigger] grouping(keys)[g]).contains(i) && grouping(keys)[g].contains(
                j,
            );
        let class = grouping(keys)[g];
        lemma_class_shares_key(keys, g);
        let a = choose|a: int| 0 <= a < class.len() && class[a] == i;
        let b = choose|b: int| 0 <= b < class.len() && class[b] == j;
        assert(keys[class[a]] == keys[class[b]]);
    }
    if 0 <= i < keys.len() && 0 <= j < keys.len() && keys[i].is_some() && keys[i] == keys[j] {
        lemma_equal_keys_share_class(keys, i, j);
    }
}

/// Whether positions `i` and `j` stand together in a class of the given
/// sequence of classes.
pub open spec fn share_class(classes: Seq<Seq<int>>, i: int, j: int) -> bool {
    exists|g: int| 0 <= g < classes.len() && (#[trigger] classes[g]).contains(i) && classes[g].contains(j)
}

/// Two different positions stand together in a class with several members
/// exactly when they hold the same key. So positions with different keys
/// are never reported together, and positions with the same key always are.
pub proof fn lemma_shared_iff_same_key<K>(keys: Seq<Option<K>>, i: int, j: int)
    requires
        i != j,
    ensures
        share_class(shared_classes(keys), i, j) <==> 0 <= i < keys.len() && 0 <= j < keys.len()
            && keys[i].is_some() && keys[i] == keys[j],
{
    let all = grouping(keys);
    let shared = shared_classes(keys);
    lemma_together_iff_same_key(keys, i, j);
    if share_class(shared, i, j) {
        let g = choose|g: int| 0 <= g < shared.len() && (#[trigger] shared[g]).contains(i) && shared[g].contains(j);
        all.lemma_filter_contains_rev(is_shared(), shared[g]);
        let h = choose|h: int| 0 <= h < all.len() && all[h] == shared[g];
        assert(all[h].contains(i) && all[h].contains(j));
    }
    if together(keys, i, j) {
        let h = choose|h: int| 0 <= h < all.len() && (#[trigger] all[h]).contains(i) && all[h].contains(j);
        let class = all[h];
        let a = choose|a: int| 0 <= a < class.len() && class[a] == i;
        let b = choose|b: int| 0 <= b < class.len() && class[b] == j;
        assert(class.len() > 1);
        all.lemma_filter_contains(is_shared(), h);
        let g = choose|g: int| 0 <= g < shared.len() && shared[g] == class;
        assert(shared[g].contains(i) && shared[g].contains(j));
    }
}

/// The classes do not depend on the order of arrival: where a second
/// sequence holds the keys of the first in another order, the position
/// `to[i]` holding the key of position `i`, two positions stand together in
/// the first exactly when the positions they went to stand together in the
/// second.
pub proof fn lemma_order_independent<K>(
    keys: Seq<Option<K>>,
    moved: Seq<Option<K>>,
    to: Seq<int>,
    i: int,
    j: int,
)
    requires
        to.len() == keys.len(),
        forall|k: int| 0 <= k < keys.len() ==> 0 <= #[trigger] to[k] < moved.len() && moved[to[k]] == keys[k],
        0 <= i < keys.len(),
        0 <= j < keys.len(),
    ensures
        together(keys, i, j) <==> together(moved, to[i], to[j]),
        i != j && to[i] != to[j] ==> (share_class(shared_classes(keys), i, j) <==> share_class(
            shared_classes(moved),
            to[i],
            to[j],
        )),
{
    lemma_together_iff_same_key(keys, i, j);
    lemma_together_iff_same_key(moved, to[i], to[j]);
    if i != j && to[i] != to[j] {
        lemma_shared_iff_same_key(keys, i, j);
        lemma_shared_iff_same_key(moved, to[i], to[j]);
    }
}

/// The members of the first classes are no more than those of all.
pub proof fn lemma_total_take<A>(classes: Seq<Seq<A>>, n: int)
    requires
        0 <= n <= classes.len(),
    ensures
        total(classes.take(n)) <= total(classes),
    decreases classes.len() - n,
{
    if n < classes.len() {
        lemma_total_take(classes, n + 1);
        assert(classes.take(n + 1) =~= classes.take(n).push(classes[n]));
        lemma_total_push(classes.take(n), classes[n]);
    } else {
        assert(classes.take(n) =~= classes);
    }
}

/// The members of two lists of classes add up.
pub proof fn lemma_total_concat<A>(a: Seq<Seq<A>>, b: Seq<Seq<A>>)
    ensures
        total(a + b) == total(a) + total(b),
    decreases b.len(),
{
    if b.len() == 0 {
        assert(a + b =~= a);
    } else {
        lemma_total_concat(a, b.drop_last());
        assert((a + b).drop_last() =~= a + b.drop_last());
    }
}

/// Whether `to` and `back` rearrange the positions below `n`: each leads
/// every position to one below `n`, and each undoes the other.
pub open spec fn is_rearrangement(to: Seq<int>, back: Seq<int>, n: nat) -> bool {
    &&& to.len() == n
    &&& back.len() == n
    &&& forall|k: int| 0 <= k < n ==> 0 <= #[trigger] to[k] < n && back[to[k]] == k
    &&& forall|j: int| 0 <= j < n ==> 0 <= #[trigger] back[j] < n && to[back[j]] == j
}

/// Whether `moved` holds the keys of `keys` in another order: the key of
/// position `k` stands at position `to[k]`, and `back` leads the other way.
pub open spec fn is_moved<K>(keys: Seq<Option<K>>, moved: Seq<Option<K>>, to: Seq<int>, back: Seq<int>) -> bool {
    &&& moved.len() == keys.len()
    &&& is_rearrangement(to, back, keys.len())
    &&& forall|k: int| 0 <= k < keys.len() ==> moved[#[trigger] to[k]] == keys[k]
}

/// The function that leads a position where `to` says.
pub open spec fn leading(to: Seq<int>) -> spec_fn(int) -> int {
    |k: int| to[k]
}

/// A class keeps its members when the keys arrive in another order: the
/// class of `keys` at `g` has a class of `moved` that holds exactly the
/// positions its members went to, and as many of them.
pub proof fn lemma_class_moves<K>(
    keys: Seq<Option<K>>,
    moved: Seq<Option<K>>,
    to: Seq<int>,
    back: Seq<int>,
    g: int,
) -> (h: int)
    requires
        is_moved(keys, moved, to, back),
        0 <= g < grouping(keys).len(),
    ensures
        0 <= h < grouping(moved).len(),
        grouping(moved)[h].len() == grouping(keys)[g].len(),
        forall|i: int| #[trigger] grouping(keys)[g].contains(i) ==> grouping(moved)[h].contains(to[i]),
        forall|j: int| #[trigger] grouping(moved)[h].contains(j) ==> grouping(keys)[g].contains(back[j]),
{
    let class = grouping(keys)[g];
    let l = leaders(keys)[g];
    lemma_leaders(keys);
    lemma_class_shares_key(keys, g);
    lemma_class_of(keys, l);
    assert(is_first(keys, l));
    lemma_has_leader(moved, to[l]);
    let h = choose|h: int| 0 <= h < leaders(moved).len() && moved[#[trigger] leaders(moved)[h]] == moved[to[l]];
    let other = grouping(moved)[h];
    lemma_leaders(moved);
    lemma_class_shares_key(moved, h);
    lemma_class_of(moved, leaders(moved)[h]);
    assert forall|i: int| #[trigger] class.contains(i) implies other.contains(to[i]) by {
        let m = choose|m: int| 0 <= m < class.len() && class[m] == i;
        assert(keys[class[m]] == keys[l]);
        assert(moved[to[i]] == keys[i]);
    }
    assert forall|j: int| #[trigger] other.contains(j) implies class.contains(back[j]) by {
        let m = choose|m: int| 0 <= m < other.len() && other[m] == j;
        assert(moved[other[m]] == moved[leaders(moved)[h]]);
        assert(moved[to[back[j]]] == keys[back[j]]);
    }
    assert(class.no_duplicates());
    assert(other.no_duplicates());
    class.unique_seq_to_set();
    other.unique_seq_to_set();
    seq_to_set_is_finite(class);
    assert(class.to_set().map(leading(to)) =~= other.to_set()) by {
        assert forall|j: int| other.to_set().contains(j) implies class.to_set().map(leading(to)).contains(j) by {
            assert(other.contains(j));
            assert(class.to_set().contains(back[j]));
            assert(leading(to)(back[j]) == j);
        }
    }
    assert(injective_on(leading(to), class.to_set())) by {
        assert forall|x: int, y: int|
            class.to_set().contains(x) && class.to_set().contains(y) && #[trigger] leading(to)(x)
                == #[trigger] leading(to)(y) implies x == y by {
            assert(class.contains(x) && class.contains(y));
            let a = choose|a: int| 0 <= a < class.len() && class[a] == x;
            let b = choose|b: int| 0 <= b < class.len() && class[b] == y;
            assert(back[to[x]] == x && back[to[y]] == y);
        }
    }
    lemma_map_size(class.to_set(), other.to_set(), leading(to));
    h
}

/// The sum of a sequence of numbers.
pub open spec fn sum(values: Seq<int>) -> int
    decreases values.len(),
{
    if values.len() == 0 {
        0
    } else {
        sum(values.drop_last()) + values.last()
    }
}

/// Taking one number out of a sequence takes it off the sum.
pub proof fn lemma_sum_remove(values: Seq<int>, j: int)
    requires
        0 <= j < values.len(),
    ensures
        sum(values.remove(j)) + values[j] == sum(values),
    decreases values.len(),
{
    if j == values.len() - 1 {
        assert(values.remove(j) =~= values.drop_last());
    } else {
        lemma_sum_remove(values.drop_last(), j);
        assert(values.remove(j).drop_last() =~= values.drop_last().remove(j));
        assert(values.remove(j).last() == values.last());
    }
}

/// Whether `to` and `back` pair the places of one sequence with those of
/// another, each undoing the other.
pub open spec fn is_pairing(to: Seq<int>, back: Seq<int>) -> bool {
    &&& forall|k: int| 0 <= k < to.len() ==> 0 <= #[trigger] to[k] < back.len() && back[to[k]] == k
    &&& forall|j: int| 0 <= j < back.len() ==> 0 <= #[trigger] back[j] < to.len() && to[back[j]] == j
}

/// A sum does not depend on the order of its numbers: two sequences whose
/// places are paired so that paired places hold the same number are of one
/// length and have the same sum.
pub proof fn lemma_sum_rearranged(values: Seq<int>, moved: Seq<int>, to: Seq<int>, back: Seq<int>)
    requires
        to.len() == values.len(),
        back.len() == moved.len(),
        is_pairing(to, back),
        forall|k: int| 0 <= k < values.len() ==> moved[#[trigger] to[k]] == values[k],
    ensures
        values.len() == moved.len(),
        sum(values) == sum(moved),
    decreases values.len(),
{
    if values.len() == 0 {
        if moved.len() > 0 {
            assert(0 <= back[0] < to.len());
        }
    } else {
        let n = values.len() - 1;
        let j = to[n];
        let fewer = values.drop_last();
        let fewer_moved = moved.remove(j);
        let to_fewer = Seq::new(n as nat, |k: int| if to[k] > j { to[k] - 1 } else { to[k] });
        let back_fewer = Seq::new((moved.len() - 1) as nat, |x: int| back[if x >= j { x + 1 } else { x }]);
        assert forall|k: int| 0 <= k < to_fewer.len() implies 0 <= #[trigger] to_fewer[k] < back_fewer.len()
            && back_fewer[to_fewer[k]] == k && fewer_moved[to_fewer[k]] == fewer[k] by {
            assert(back[to[k]] == k);
            assert(back[to[n]] == n);
            assert(moved[to[k]] == values[k]);
        }
        assert forall|x: int| 0 <= x < back_fewer.len() implies 0 <= #[trigger] back_fewer[x] < to_fewer.len()
            && to_fewer[back_fewer[x]] == x by {
            let y = if x >= j { x + 1 } else { x };
            assert(to[back[y]] == y);
            assert(back[y] != n);
        }
        lemma_sum_rearranged(fewer, fewer_moved, to_fewer, back_fewer);
        lemma_sum_remove(moved, j);
        assert(moved[j] == values[n]);
    }
}

/// The class of the other order that holds what the class at `g` holds:
/// the one with the position that the first member of `g` went to.
pub open spec fn class_met<K>(keys: Seq<Option<K>>, moved: Seq<Option<K>>, to: Seq<int>, g: int) -> int {
    choose|h: int| 0 <= h < grouping(moved).len() && grouping(moved)[h].contains(to[grouping(keys)[g][0]])
}

/// The classes of two orders of arrival are paired: each class has one
/// class of the other order that holds the positions its members went to,
/// and as many of them.
pub proof fn lemma_classes_paired<K>(keys: Seq<Option<K>>, moved: Seq<Option<K>>, to: Seq<int>, back: Seq<int>) -> (found:
    (Seq<int>, Seq<int>))
    requires
        is_moved(keys, moved, to, back),
    ensures
        found.0.len() == grouping(keys).len(),
        found.1.len() == grouping(moved).len(),
        is_pairing(found.0, found.1),
        forall|g: int|
            0 <= g < grouping(keys).len() ==> grouping(moved)[#[trigger] found.0[g]].len() == grouping(keys)[g].len(),
        forall|g: int, i: int|
            0 <= g < grouping(keys).len() && #[trigger] grouping(keys)[g].contains(i) ==> grouping(moved)[found.0[g]].contains(
                to[i],
            ),
        forall|g: int, j: int|
            0 <= g < grouping(keys).len() && #[trigger] grouping(moved)[found.0[g]].contains(j) ==> grouping(
                keys,
            )[g].contains(back[j]),
{
    assert(is_moved(moved, keys, back, to)) by {
        assert forall|j: int| 0 <= j < moved.len() implies keys[#[trigger] back[j]] == moved[j] by {
            assert(moved[to[back[j]]] == keys[back[j]]);
        }
    }
    let onward = Seq::new(grouping(keys).len(), |g: int| class_met(keys, moved, to, g));
    let homeward = Seq::new(grouping(moved).len(), |h: int| class_met(moved, keys, back, h));
    assert forall|g: int| 0 <= g < grouping(keys).len() implies 0 <= #[trigger] onward[g] < grouping(moved).len()
        && homeward[onward[g]] == g && grouping(moved)[onward[g]].len() == grouping(keys)[g].len() && (forall|i: int| #[trigger]
        grouping(keys)[g].contains(i) ==> grouping(moved)[onward[g]].contains(to[i])) && (forall|j: int| #[trigger]
        grouping(moved)[onward[g]].contains(j) ==> grouping(keys)[g].contains(back[j])) by {
        let h = lemma_class_moves(keys, moved, to, back, g);
        lemma_class_shares_key(keys, g);
        lemma_class_shares_key(moved, h);
        let first = grouping(keys)[g][0];
        assert(grouping(keys)[g].contains(first));
        assert(grouping(moved)[h].contains(to[first]));
        lemma_classes_disjoint(moved, h, onward[g], to[first]);
        let second = grouping(moved)[h][0];
        assert(grouping(moved)[h].contains(second));
        assert(grouping(keys)[g].contains(back[second]));
        let met = homeward[h];
        assert(0 <= met < grouping(keys).len() && grouping(keys)[met].contains(back[second]));
        lemma_classes_disjoint(keys, g, met, back[second]);
    }
    assert forall|h: int| 0 <= h < grouping(moved).len() implies 0 <= #[trigger] homeward[h] < grouping(keys).len()
        && onward[homeward[h]] == h by {
        let g = lemma_class_moves(moved, keys, back, to, h);
        lemma_class_shares_key(keys, g);
        lemma_class_shares_key(moved, h);
        let second = grouping(moved)[h][0];
        assert(grouping(moved)[h].contains(second));
        assert(grouping(keys)[g].contains(back[second]));
        lemma_classes_disjoint(keys, g, homeward[h], back[second]);
        let first = grouping(keys)[g][0];
        assert(grouping(keys)[g].contains(first));
        assert(grouping(moved)[h].contains(to[first]));
        let met = onward[g];
        assert(0 <= met < grouping(moved).len() && grouping(moved)[met].contains(to[first]));
        lemma_classes_disjoint(moved, h, met, to[first]);
    }
    (onward, homeward)
}

/// What each class is worth, where `worth` tells it from the number of
/// its members.
pub open spec fn tally(classes: Seq<Seq<int>>, worth: spec_fn(nat) -> int) -> Seq<int> {
    Seq::new(classes.len(), |g: int| worth(classes[g].len()))
}

/// One for a class with several members, nothing for any other.
pub open spec fn one_if_shared() -> spec_fn(nat) -> int {
    |n: nat| if n > 1 { 1int } else { 0int }
}

/// Its members for a class with several members, nothing for any other.
pub open spec fn all_if_shared() -> spec_fn(nat) -> int {
    |n: nat| if n > 1 { n as int } else { 0int }
}

/// One for a class with a single member, nothing for any other.
pub open spec fn one_if_lone() -> spec_fn(nat) -> int {
    |n: nat| if n == 1 { 1int } else { 0int }
}

/// The number of classes with several members, the number of their
/// members, and the number of classes with one member are sums over all
/// classes.
pub proof fn lemma_counts_are_sums(classes: Seq<Seq<int>>)
    ensures
        classes.filter(is_shared()).len() == sum(tally(classes, one_if_shared())),
        total(classes.filter(is_shared())) == sum(tally(classes, all_if_shared())),
        classes.filter(is_lone()).len() == sum(tally(classes, one_if_lone())),
    decreases classes.len(),
{
    if classes.len() == 0 {
        lemma_filter_none(classes, is_shared());
        lemma_filter_none(classes, is_lone());
    } else {
        let init = classes.drop_last();
        lemma_counts_are_sums(init);
        assert(init.push(classes.last()) =~= classes);
        init.lemma_filter_push(classes.last(), is_shared());
        init.lemma_filter_push(classes.last(), is_lone());
        lemma_total_push(init.filter(is_shared()), classes.last());
        assert(tally(classes, one_if_shared()).drop_last() =~= tally(init, one_if_shared()));
        assert(tally(classes, all_if_shared()).drop_last() =~= tally(init, all_if_shared()));
        assert(tally(classes, one_if_lone()).drop_last() =~= tally(init, one_if_lone()));
    }
}

/// The counts do not depend on the order of arrival: where the same keys
/// arrive in another order, there are as many classes with several
/// members, with as many members together, and as many classes with one.
pub proof fn lemma_counts_move<K>(keys: Seq<Option<K>>, moved: Seq<Option<K>>, to: Seq<int>, back: Seq<int>)
    requires
        is_moved(keys, moved, to, back),
    ensures
        grouping(keys).len() == grouping(moved).len(),
        shared_classes(keys).len() == shared_classes(moved).len(),
        total(shared_classes(keys)) == total(shared_classes(moved)),
        lone_classes(keys).len() == lone_classes(moved).len(),
{
    let (onward, homeward) = lemma_classes_paired(keys, moved, to, back);
    lemma_counts_are_sums(grouping(keys));
    lemma_counts_are_sums(grouping(moved));
    lemma_sum_rearranged(
        tally(grouping(keys), one_if_shared()),
        tally(grouping(moved), one_if_shared()),
        onward,
        homeward,
    );
    lemma_sum_rearranged(
        tally(grouping(keys), all_if_shared()),
        tally(grouping(moved), all_if_shared()),
        onward,
        homeward,
    );
    lemma_sum_rearranged(tally(grouping(keys), one_if_lone()), tally(grouping(moved), one_if_lone()), onward, homeward);
}

} // verus!
