//! What holds of merging, whatever the shards: the order in which they are
//! merged and the way they are grouped make no difference, and the outcome is
//! what one aggregator would have gathered from all the samples.

use vstd::multiset::Multiset;
use vstd::prelude::*;
use vstd::seq_lib::lemma_multiset_commutative;

verus! {

/// What merging `shards` one after another gives, from the first to the
/// last.
pub open spec fn merged(shards: Seq<Multiset<i64>>) -> Multiset<i64>
    decreases shards.len(),
{
    if shards.len() == 0 {
        Multiset::empty()
    } else {
        merged(shards.drop_last()).add(shards.last())
    }
}

/// The samples of `shards` in one sequence, shard after shard.
pub open spec fn chained(shards: Seq<Seq<i64>>) -> Seq<i64>
    decreases shards.len(),
{
    if shards.len() == 0 {
        Seq::empty()
    } else {
        chained(shards.drop_last()) + shards.last()
    }
}

/// The multiset of each shard of `shards`.
pub open spec fn bags(shards: Seq<Seq<i64>>) -> Seq<Multiset<i64>> {
    shards.map_values(|s: Seq<i64>| s.to_multiset())
}

/// Merging is commutative: either of two aggregators may take over the
/// other.
pub proof fn lemma_merge_commutative(a: Multiset<i64>, b: Multiset<i64>)
    ensures
        a.add(b) == b.add(a),
{
    broadcast use vstd::multiset::group_multiset_axioms;

    assert(a.add(b) =~= b.add(a));
}

/// Merging is associative: three aggregators may be merged in either
/// grouping.
pub proof fn lemma_merge_associative(a: Multiset<i64>, b: Multiset<i64>, c: Multiset<i64>)
    ensures
        a.add(b).add(c) == a.add(b.add(c)),
{
    broadcast use vstd::multiset::group_multiset_axioms;

    assert(a.add(b).add(c) =~= a.add(b.add(c)));
}

/// Merging with an aggregator that has gathered nothing changes nothing.
pub proof fn lemma_merge_empty(a: Multiset<i64>)
    ensures
        a.add(Multiset::empty()) == a,
        Multiset::empty().add(a) == a,
{
    broadcast use vstd::multiset::group_multiset_axioms;

    assert(a.add(Multiset::empty()) =~= a);
    assert(Multiset::empty().add(a) =~= a);
}

/// Grouping: merging two runs of shards apart and then merging the two
/// outcomes gives what merging all the shards in one run gives.
pub proof fn lemma_merged_in_groups(xs: Seq<Multiset<i64>>, ys: Seq<Multiset<i64>>)
    ensures
        merged(xs + ys) == merged(xs).add(merged(ys)),
    decreases ys.len(),
{
    if ys.len() == 0 {
        assert(xs + ys =~= xs);
        lemma_merge_empty(merged(xs));
    } else {
        assert((xs + ys).drop_last() =~= xs + ys.drop_last());
        assert((xs + ys).last() == ys.last());
        lemma_merged_in_groups(xs, ys.drop_last());
        lemma_merge_associative(merged(xs), merged(ys.drop_last()), ys.last());
    }
}

/// Taking one shard out of a run and merging it last gives the same.
proof fn lemma_merged_without(xs: Seq<Multiset<i64>>, i: int)
    requires
        0 <= i < xs.len(),
    ensures
        merged(xs) == merged(xs.remove(i)).add(xs[i]),
{
    let before = xs.subrange(0, i);
    let after = xs.subrange(i + 1, xs.len() as int);
    assert(xs =~= (before + seq![xs[i]]) + after);
    assert(xs.remove(i) =~= before + after);
    lemma_merged_in_groups(before + seq![xs[i]], after);
    lemma_merged_in_groups(before, seq![xs[i]]);
    lemma_merged_in_groups(before, after);
    assert(seq![xs[i]].drop_last() =~= Seq::<Multiset<i64>>::empty());
    assert(merged(seq![xs[i]]) == merged(seq![xs[i]].drop_last()).add(seq![xs[i]].last()));
    lemma_merge_empty(xs[i]);
    lemma_merge_associative(merged(before), xs[i], merged(after));
    lemma_merge_commutative(xs[i], merged(after));
    lemma_merge_associative(merged(before), merged(after), xs[i]);
}

/// Order: the same shards merged in another order give the same.
pub proof fn lemma_merged_in_any_order(xs: Seq<Multiset<i64>>, ys: Seq<Multiset<i64>>)
    requires
        xs.to_multiset() == ys.to_multiset(),
    ensures
        merged(xs) == merged(ys),
    decreases xs.len(),
{
    xs.to_multiset_ensures();
    ys.to_multiset_ensures();
    if xs.len() == 0 {
        assert(ys.len() == 0);
    } else {
        let x = xs.last();
        let rest = xs.drop_last();
        assert(xs[xs.len() - 1] == x);
        assert(xs.contains(x));
        assert(xs.to_multiset().count(x) > 0);
        assert(ys.contains(x));
        let i = choose|i: int| 0 <= i < ys.len() && ys[i] == x;
        assert(xs.remove(xs.len() - 1) =~= rest);
        assert(rest.to_multiset() =~= ys.remove(i).to_multiset());
        lemma_merged_in_any_order(rest, ys.remove(i));
        lemma_merged_without(ys, i);
    }
}

/// The whole: merging shards gives the multiset of all their samples.
pub proof fn lemma_merged_is_union(shards: Seq<Seq<i64>>)
    ensures
        merged(bags(shards)) == chained(shards).to_multiset(),
    decreases shards.len(),
{
    if shards.len() == 0 {
        chained(shards).to_multiset_ensures();
        vstd::multiset::lemma_multiset_empty_len(chained(shards).to_multiset());
    } else {
        lemma_merged_is_union(shards.drop_last());
        assert(bags(shards).drop_last() =~= bags(shards.drop_last()));
        lemma_multiset_commutative(chained(shards.drop_last()), shards.last());
    }
}

/// Where `shards` divide up the samples of `whole` among them, merging the
/// aggregators of the shards gives what one aggregator gathers from `whole`,
/// in whatever order `whole` and the shards hold the samples.
pub proof fn lemma_shards_merge_to_whole(whole: Seq<i64>, shards: Seq<Seq<i64>>)
    requires
        chained(shards).to_multiset() == whole.to_multiset(),
    ensures
        merged(bags(shards)) == whole.to_multiset(),
{
    lemma_merged_is_union(shards);
}

} // verus!
