//! Tabulations of a multiset of samples: its distinct values, each with its
//! count, and the sums of those counts.

use vstd::multiset::Multiset;
use vstd::prelude::*;

verus! {

/// `entries` tabulates `m`: it names each sample of `m` once, with the
/// number of times that the sample occurs in `m`.
pub open spec fn tabulates(m: Multiset<i64>, entries: Seq<(i64, u64)>) -> bool {
    &&& forall|i: int, j: int|
        0 <= i < j < entries.len() ==> (#[trigger] entries[i]).0 != (#[trigger] entries[j]).0
    &&& forall|i: int|
        0 <= i < entries.len() ==> (#[trigger] entries[i]).1 == m.count(entries[i].0)
            && entries[i].1 >= 1
    &&& forall|x: i64| #[trigger]
        m.count(x) > 0 ==> exists|i: int| 0 <= i < entries.len() && (#[trigger] entries[i]).0 == x
}

/// `values` names each sample of `m` once.
pub open spec fn names_values(m: Multiset<i64>, values: Seq<i64>) -> bool {
    &&& values.no_duplicates()
    &&& forall|x: i64| values.contains(x) <==> m.count(x) > 0
}

/// The sum of the counts that `entries` gives.
pub open spec fn total_count(entries: Seq<(i64, u64)>) -> nat
    decreases entries.len(),
{
    if entries.len() == 0 {
        0
    } else {
        total_count(entries.drop_last()) + entries.last().1 as nat
    }
}

/// The sum, over `values`, of the number of times each occurs in `m`.
pub open spec fn counts_sum(m: Multiset<i64>, values: Seq<i64>) -> nat
    decreases values.len(),
{
    if values.len() == 0 {
        0
    } else {
        counts_sum(m, values.drop_last()) + m.count(values.last())
    }
}

/// The multiset that holds `k` exactly `n` times and nothing else.
spec fn copies(k: i64, n: nat) -> Multiset<i64>
    decreases n,
{
    if n == 0 {
        Multiset::empty()
    } else {
        copies(k, (n - 1) as nat).insert(k)
    }
}

proof fn lemma_copies(k: i64, n: nat)
    ensures
        copies(k, n).count(k) == n,
        forall|y: i64| y != k ==> #[trigger] copies(k, n).count(y) == 0,
        copies(k, n).len() == n,
    decreases n,
{
    broadcast use vstd::multiset::group_multiset_axioms;

    if n > 0 {
        lemma_copies(k, (n - 1) as nat);
    }
}

/// Two multisets that agree on every one of `values` give the same sum
/// over them.
proof fn lemma_counts_sum_agree(a: Multiset<i64>, b: Multiset<i64>, values: Seq<i64>)
    requires
        forall|i: int|
            0 <= i < values.len() ==> a.count(#[trigger] values[i]) == b.count(values[i]),
    ensures
        counts_sum(a, values) == counts_sum(b, values),
    decreases values.len(),
{
    if values.len() > 0 {
        let rest = values.drop_last();
        assert forall|i: int| 0 <= i < rest.len() implies a.count(#[trigger] rest[i]) == b.count(
            rest[i],
        ) by {
            assert(rest[i] == values[i]);
        }
        lemma_counts_sum_agree(a, b, rest);
        assert(values.last() == values[values.len() - 1]);
    }
}

/// The counts of the distinct values of a multiset add up to its size: where
/// `values` names every sample of `m` once, and perhaps other values too,
/// the counts over `values` sum to the number of samples in `m`.
pub proof fn lemma_counts_add_up(m: Multiset<i64>, values: Seq<i64>)
    requires
        values.no_duplicates(),
        forall|x: i64| m.count(x) > 0 ==> values.contains(x),
    ensures
        counts_sum(m, values) == m.len(),
    decreases values.len(),
{
    broadcast use vstd::multiset::group_multiset_axioms;

    if values.len() == 0 {
        if m.len() > 0 {
            vstd::multiset::lemma_multiset_empty_len(m);
            let v = choose|v: i64| 0 < m.count(v);
            assert(values.contains(v));
        }
    } else {
        let k = values.last();
        let rest = values.drop_last();
        let c = m.count(k);
        let only_k = copies(k, c);
        lemma_copies(k, c);
        let others = m.sub(only_k);
        assert(only_k.subset_of(m));
        assert(others.len() == m.len() - c);
        assert(rest.no_duplicates());
        assert forall|x: i64| others.count(x) > 0 implies rest.contains(x) by {
            assert(x != k);
            assert(m.count(x) > 0);
            assert(values.contains(x));
            let i = choose|i: int| 0 <= i < values.len() && values[i] == x;
            assert(rest[i] == x);
        }
        lemma_counts_add_up(others, rest);
        assert forall|i: int| 0 <= i < rest.len() implies m.count(#[trigger] rest[i])
            == others.count(rest[i]) by {
            assert(rest[i] == values[i]);
            assert(values[i] != values[values.len() - 1]);
        }
        lemma_counts_sum_agree(m, others, rest);
    }
}

/// The values that `entries` names, in the order in which it names them.
pub open spec fn values_of(entries: Seq<(i64, u64)>) -> Seq<i64> {
    entries.map_values(|e: (i64, u64)| e.0)
}

/// A tabulation names each sample of the multiset once.
pub proof fn lemma_tabulation_names_values(m: Multiset<i64>, entries: Seq<(i64, u64)>)
    requires
        tabulates(m, entries),
    ensures
        names_values(m, values_of(entries)),
{
    let values = values_of(entries);
    assert forall|x: i64| values.contains(x) <==> m.count(x) > 0 by {
        if values.contains(x) {
            let i = choose|i: int| 0 <= i < values.len() && values[i] == x;
            assert(entries[i].0 == x);
        }
        if m.count(x) > 0 {
            let i = choose|i: int| 0 <= i < entries.len() && (#[trigger] entries[i]).0 == x;
            assert(values[i] == x);
        }
    }
    assert forall|i: int, j: int|
        0 <= i < values.len() && 0 <= j < values.len() && i != j implies values[i]
        != values[j] by {
        assert(values[i] == entries[i].0 && values[j] == entries[j].0);
    }
}

/// The counts of a tabulation are the counts of the values it names.
proof fn lemma_total_is_counts_sum(m: Multiset<i64>, entries: Seq<(i64, u64)>)
    requires
        forall|i: int|
            0 <= i < entries.len() ==> (#[trigger] entries[i]).1 == m.count(entries[i].0),
    ensures
        total_count(entries) == counts_sum(m, values_of(entries)),
    decreases entries.len(),
{
    if entries.len() > 0 {
        let rest = entries.drop_last();
        assert forall|i: int| 0 <= i < rest.len() implies (#[trigger] rest[i]).1 == m.count(
            rest[i].0,
        ) by {
            assert(rest[i] == entries[i]);
        }
        lemma_total_is_counts_sum(m, rest);
        assert(values_of(entries).drop_last() =~= values_of(rest));
        assert(entries.last() == entries[entries.len() - 1]);
    }
}

/// The counts of a tabulation add up to the size of the multiset.
pub proof fn lemma_tabulation_total(m: Multiset<i64>, entries: Seq<(i64, u64)>)
    requires
        tabulates(m, entries),
    ensures
        total_count(entries) == m.len(),
{
    lemma_tabulation_names_values(m, entries);
    lemma_total_is_counts_sum(m, entries);
    lemma_counts_add_up(m, values_of(entries));
}

/// The counts of the first `i` entries add up to no more than all of them.
pub proof fn lemma_total_of_prefix(entries: Seq<(i64, u64)>, i: int)
    requires
        0 <= i <= entries.len(),
    ensures
        total_count(entries.take(i)) <= total_count(entries),
    decreases entries.len() - i,
{
    if i < entries.len() {
        lemma_total_of_prefix(entries, i + 1);
        assert(entries.take(i + 1).drop_last() =~= entries.take(i));
    } else {
        assert(entries.take(i) =~= entries);
    }
}

/// What one of two rearrangements of the same entries holds, the other
/// holds too.
proof fn lemma_shared_member(a: Seq<(i64, u64)>, b: Seq<(i64, u64)>, e: (i64, u64))
    requires
        a.to_multiset() == b.to_multiset(),
        a.contains(e),
    ensures
        b.contains(e),
{
    a.to_multiset_ensures();
    b.to_multiset_ensures();
    assert(a.to_multiset().count(e) > 0);
    assert(b.to_multiset().count(e) > 0);
}

/// A rearrangement of a tabulation is a tabulation too.
pub proof fn lemma_tabulation_rearranged(
    m: Multiset<i64>,
    entries: Seq<(i64, u64)>,
    other: Seq<(i64, u64)>,
)
    requires
        tabulates(m, entries),
        other.to_multiset() == entries.to_multiset(),
    ensures
        tabulates(m, other),
{
    entries.to_multiset_ensures();
    other.to_multiset_ensures();
    assert(entries.no_duplicates());
    entries.lemma_multiset_has_no_duplicates();
    other.lemma_multiset_has_no_duplicates_conv();
    assert forall|i: int| 0 <= i < other.len() implies (#[trigger] other[i]).1 == m.count(
        other[i].0,
    ) && other[i].1 >= 1 by {
        lemma_shared_member(other, entries, other[i]);
        let j = choose|j: int| 0 <= j < entries.len() && entries[j] == other[i];
        assert(entries[j].1 == m.count(entries[j].0));
    }
    assert forall|i: int, j: int| 0 <= i < j < other.len() implies (#[trigger] other[i]).0 != (
    #[trigger] other[j]).0 by {
        lemma_shared_member(other, entries, other[i]);
        lemma_shared_member(other, entries, other[j]);
        let a = choose|a: int| 0 <= a < entries.len() && entries[a] == other[i];
        let b = choose|b: int| 0 <= b < entries.len() && entries[b] == other[j];
        if other[i].0 == other[j].0 {
            assert(entries[a].0 == entries[b].0);
            assert(a == b);
            assert(other[i] == other[j]);
        }
    }
    assert forall|x: i64| #[trigger] m.count(x) > 0 implies exists|i: int|
        0 <= i < other.len() && (#[trigger] other[i]).0 == x by {
        let j = choose|j: int| 0 <= j < entries.len() && (#[trigger] entries[j]).0 == x;
        lemma_shared_member(entries, other, entries[j]);
        let i = choose|i: int| 0 <= i < other.len() && other[i] == entries[j];
        assert(other[i].0 == x);
    }
}

/// A sequence that names each sample of a multiset once has as many
/// elements as the multiset has distinct samples.
pub proof fn lemma_names_values_len(m: Multiset<i64>, values: Seq<i64>)
    requires
        names_values(m, values),
    ensures
        values.len() == m.dom().len(),
{
    values.unique_seq_to_set();
    assert(values.to_set() =~= m.dom());
}

} // verus!
