//! An exact table of how often each sample has occurred.

use vstd::multiset::Multiset;
use vstd::prelude::*;
use vstd::std_specs::iter::IteratorSpec;
use crate::mode::{is_mode, lemma_mode_unique, mode_of};
use crate::outside::{
    lists_table, new_table, par_sort_ranked, sort_by_count, table_counts, table_entries,
    table_get, table_insert, table_len,
};
use crate::ranking::{count_leq, ranked, ranked_by_count};
use crate::tally::{
    counts_sum, lemma_counts_add_up, lemma_tabulation_names_values, lemma_tabulation_rearranged,
    lemma_tabulation_total, lemma_total_of_prefix, names_values, tabulates, total_count,
    values_of,
};

verus! {

/// The multiset that holds each key of `counts` as often as its count says.
pub open spec fn bag_of(counts: Map<i64, u64>) -> Multiset<i64> {
    Multiset::from_map(counts.map_values(|c: u64| c as nat))
}

/// How often each value occurs in the multiset of a finite table of counts.
pub proof fn lemma_bag_count(counts: Map<i64, u64>, k: i64)
    requires
        counts.dom().finite(),
    ensures
        bag_of(counts).count(k) == if counts.contains_key(k) {
            counts[k] as nat
        } else {
            0
        },
{
    broadcast use vstd::multiset::group_multiset_axioms;

    let m = counts.map_values(|c: u64| c as nat);
    assert(m.dom() =~= counts.dom());
}

/// Storing the count `c` under `k` changes the count of `k` to `c` and no
/// other.
proof fn lemma_bag_store(counts: Map<i64, u64>, k: i64, c: u64)
    requires
        counts.dom().finite(),
    ensures
        counts.insert(k, c).dom().finite(),
        bag_of(counts.insert(k, c)).count(k) == c,
        forall|y: i64|
            y != k ==> #[trigger] bag_of(counts.insert(k, c)).count(y) == bag_of(counts).count(y),
{
    lemma_bag_count(counts.insert(k, c), k);
    assert forall|y: i64| y != k implies #[trigger] bag_of(counts.insert(k, c)).count(y) == bag_of(
        counts,
    ).count(y) by {
        lemma_bag_count(counts.insert(k, c), y);
        lemma_bag_count(counts, y);
    }
}

/// The number of distinct values for which `new` reserves room.
pub const DEFAULT_CAPACITY: usize = 10_000;

/// The largest number of distinct values for which a table reserves room
/// when it is made. A table that is to hold more grows as they come.
pub const MAX_RESERVE: usize = 0x10_0000;

/// The room that a table reserves when it is asked for `capacity` distinct
/// values: as much as asked, up to `MAX_RESERVE`.
pub open spec fn reserve_for(capacity: usize) -> usize {
    if capacity <= MAX_RESERVE {
        capacity
    } else {
        MAX_RESERVE
    }
}

/// An exact frequency table: for every sample, how often it has been added.
///
/// As a value it is the multiset of the samples added so far. The table
/// counts in `u64`, so it holds at most `u64::MAX` samples in all. Beside
/// its counts it keeps on record for how many distinct values it asked for
/// room when it was made.
pub struct Frequencies {
    data: ahash::AHashMap<i64, u64>,
    reserve: usize,
}

impl View for Frequencies {
    type V = Multiset<i64>;

    closed spec fn view(&self) -> Multiset<i64> {
        bag_of(table_counts(self.data))
    }
}

/// One pass over the distinct values of a frequency table, in no particular
/// order.
pub struct UniqueValues {
    values: Vec<i64>,
    at: usize,
}

impl UniqueValues {
    /// The values that the pass has yet to yield, in the order in which it
    /// will yield them.
    pub closed spec fn remaining(&self) -> Seq<i64> {
        if self.at <= self.values.len() {
            self.values@.skip(self.at as int)
        } else {
            Seq::empty()
        }
    }

    /// Yields the next value, or nothing when the pass is over.
    pub fn next(&mut self) -> (r: Option<i64>)
        ensures
            old(self).remaining().len() == 0 ==> r.is_none() && final(self).remaining()
                == old(self).remaining(),
            old(self).remaining().len() > 0 ==> r == Some(old(self).remaining()[0])
                && final(self).remaining() == old(self).remaining().drop_first(),
    {
        if self.at < self.values.len() {
            let x: i64 = self.values[self.at];
            self.at = self.at + 1;
            assert(self.values@.skip(self.at as int) =~= old(self).values@.skip(
                old(self).at as int,
            ).drop_first());
            Some(x)
        } else {
            None
        }
    }
}

impl Frequencies {
    /// The table is what it says it is: it stores no count of zero, and its
    /// counts add up to no more than `u64::MAX`.
    pub closed spec fn wf(&self) -> bool {
        let counts = table_counts(self.data);
        &&& counts.dom().finite()
        &&& forall|k: i64| counts.contains_key(k) ==> #[trigger] counts[k] >= 1
        &&& self@.len() <= u64::MAX
    }

    /// What `reserved` returns.
    pub closed spec fn reserved_room(&self) -> usize {
        self.reserve
    }

    /// The number of distinct values for which the table asked for room when
    /// it was made. The table keeps it on record: it is no limit, and it does
    /// not say how much room the table has by now.
    #[verifier::when_used_as_spec(reserved_room)]
    pub fn reserved(&self) -> (r: usize)
        ensures
            r == self.reserved_room(),
    {
        self.reserve
    }

    /// An empty table, with room for `DEFAULT_CAPACITY` distinct values.
    pub fn new() -> (r: Frequencies)
        ensures
            r.wf(),
            r@ == Multiset::<i64>::empty(),
            r.reserved() == DEFAULT_CAPACITY,
    {
        Frequencies::with_capacity(DEFAULT_CAPACITY)
    }

    /// An empty table, made with room for `capacity` distinct values, or for
    /// `MAX_RESERVE` where more is asked. The capacity is a hint for the
    /// first allocation, and no limit.
    pub fn with_capacity(capacity: usize) -> (r: Frequencies)
        ensures
            r.wf(),
            r@ == Multiset::<i64>::empty(),
            r.reserved() == reserve_for(capacity),
    {
        let reserve: usize = if capacity <= MAX_RESERVE {
            capacity
        } else {
            MAX_RESERVE
        };
        let data = new_table(reserve);
        proof {
            broadcast use vstd::multiset::group_multiset_axioms;

            let counts = table_counts(data);
            assert(counts.dom() =~= Set::<i64>::empty());
            assert forall|x: i64| bag_of(counts).count(x) == 0 by {
                lemma_bag_count(counts, x);
            }
            assert(bag_of(counts) =~= Multiset::<i64>::empty());
        }
        Frequencies { data, reserve }
    }

    /// Adds the sample `v`: its count goes up by one.
    pub fn add(&mut self, v: i64)
        requires
            old(self).wf(),
            old(self)@.len() < u64::MAX,
        ensures
            final(self).wf(),
            final(self)@ == old(self)@.insert(v),
            final(self).reserved() == old(self).reserved(),
    {
        let count: u64 = self.count(&v);
        self.store(v, count, 1);
        proof {
            broadcast use vstd::multiset::group_multiset_axioms;

            assert(self@ =~= old(self)@.insert(v));
        }
    }

    /// Stores `count + more` under `v`, where `count` is the count of `v` so
    /// far.
    fn store(&mut self, v: i64, count: u64, more: u64)
        requires
            old(self).wf(),
            count == old(self)@.count(v),
            more >= 1,
            old(self)@.len() + more <= u64::MAX,
        ensures
            final(self).wf(),
            final(self)@.count(v) == count + more,
            forall|y: i64| y != v ==> #[trigger] final(self)@.count(y) == old(self)@.count(y),
            final(self)@.len() == old(self)@.len() + more,
            final(self).reserved() == old(self).reserved(),
    {
        let ghost before = table_counts(self.data);
        proof {
            broadcast use vstd::multiset::group_multiset_axioms;

            assert(old(self)@.count(v) <= old(self)@.len());
        }
        table_insert(&mut self.data, v, count + more);
        proof {
            broadcast use vstd::multiset::group_multiset_axioms;

            lemma_bag_store(before, v, (count + more) as u64);
            let after = table_counts(self.data);
            assert forall|k: i64| after.contains_key(k) implies #[trigger] after[k] >= 1 by {
                if k != v {
                    assert(before.contains_key(k));
                    assert(before[k] >= 1);
                }
            }
            // What the table holds now is what it held, less the old copies
            // of `v`, plus the new ones.
            let kept = old(self)@.sub(old(self)@.filter(|x: i64| x == v));
            let added = self@.filter(|x: i64| x == v);
            assert(old(self)@ =~= kept.add(old(self)@.filter(|x: i64| x == v)));
            assert(self@ =~= kept.add(added));
            lemma_only_one_value(old(self)@.filter(|x: i64| x == v), v);
            lemma_only_one_value(added, v);
        }
    }

    /// How often `v` has been added.
    pub fn count(&self, v: &i64) -> (r: u64)
        requires
            self.wf(),
        ensures
            r == self@.count(*v),
    {
        proof {
            lemma_bag_count(table_counts(self.data), *v);
        }
        match table_get(&self.data, *v) {
            Some(count) => count,
            None => 0,
        }
    }

    /// The number of distinct samples.
    pub fn cardinality(&self) -> (r: u64)
        requires
            self.wf(),
        ensures
            r == self@.dom().len(),
    {
        self.len() as u64
    }

    /// The number of distinct samples.
    pub fn len(&self) -> (r: usize)
        requires
            self.wf(),
        ensures
            r == self@.dom().len(),
    {
        proof {
            let counts = table_counts(self.data);
            assert forall|k: i64| self@.dom().contains(k) <==> counts.dom().contains(k) by {
                lemma_bag_count(counts, k);
            }
            assert(self@.dom() =~= counts.dom());
        }
        table_len(&self.data)
    }

    /// Whether no sample has been added.
    pub fn is_empty(&self) -> (r: bool)
        requires
            self.wf(),
        ensures
            r == (self@.len() == 0),
    {
        proof {
            broadcast use vstd::multiset::group_multiset_axioms;

            vstd::multiset::lemma_multiset_empty_len(self@);
            if self@.len() == 0 {
                assert(self@.dom() =~= Set::<i64>::empty());
            } else {
                let v = choose|v: i64| 0 < self@.count(v);
                assert(self@.dom().contains(v));
            }
        }
        self.len() == 0
    }

    /// The distinct samples, each with its count, in no particular order.
    fn entries(&self) -> (r: Vec<(i64, u64)>)
        requires
            self.wf(),
        ensures
            tabulates(self@, r@),
            total_count(r@) == self@.len(),
    {
        let entries = table_entries(&self.data);
        proof {
            let counts = table_counts(self.data);
            assert forall|i: int| 0 <= i < entries.len() implies (#[trigger] entries[i]).1
                == self@.count(entries[i].0) && entries[i].1 >= 1 by {
                lemma_bag_count(counts, entries[i].0);
                assert(counts.contains_pair(entries[i].0, entries[i].1));
                assert(counts[entries[i].0] >= 1);
            }
            assert forall|x: i64| #[trigger] self@.count(x) > 0 implies exists|i: int|
                0 <= i < entries.len() && (#[trigger] entries[i]).0 == x by {
                lemma_bag_count(counts, x);
            }
            lemma_tabulation_total(self@, entries@);
        }
        entries
    }

    /// The distinct samples with their counts, ranked by count alone, and the
    /// number of samples.
    fn frequent(&self, least: bool) -> (r: (Vec<(i64, u64)>, u64))
        requires
            self.wf(),
        ensures
            tabulates(self@, r.0@),
            ranked_by_count(r.0@, least),
            r.1 == self@.len(),
    {
        let mut counts = self.entries();
        let total: u64 = sum_counts(&counts);
        let ghost listed = counts@;
        sort_by_count(&mut counts, least);
        proof {
            lemma_tabulation_rearranged(self@, listed, counts@);
        }
        (counts, total)
    }

    /// The distinct samples with their counts, the most frequent first, and
    /// the number of samples. Samples of the same count come in no
    /// particular order.
    pub fn most_frequent(&self) -> (r: (Vec<(i64, u64)>, u64))
        requires
            self.wf(),
        ensures
            tabulates(self@, r.0@),
            ranked_by_count(r.0@, false),
            r.1 == self@.len(),
    {
        self.frequent(false)
    }

    /// The distinct samples with their counts, the least frequent first, and
    /// the number of samples. Samples of the same count come in no
    /// particular order.
    pub fn least_frequent(&self) -> (r: (Vec<(i64, u64)>, u64))
        requires
            self.wf(),
        ensures
            tabulates(self@, r.0@),
            ranked_by_count(r.0@, true),
            r.1 == self@.len(),
    {
        self.frequent(true)
    }

    /// The distinct samples with their counts and the number of samples,
    /// ranked by a parallel sort: the least frequent first where `least` is
    /// set, else the most frequent first, and samples of the same count in
    /// ascending order.
    pub fn par_frequent(&self, least: bool) -> (r: (Vec<(i64, u64)>, u64))
        requires
            self.wf(),
        ensures
            tabulates(self@, r.0@),
            ranked(r.0@, least),
            r.1 == self@.len(),
    {
        let mut counts = self.entries();
        let total: u64 = sum_counts(&counts);
        let ghost listed = counts@;
        par_sort_ranked(&mut counts, least);
        proof {
            lemma_tabulation_rearranged(self@, listed, counts@);
        }
        (counts, total)
    }

    /// The mode: the sample that has been added more often than every
    /// other. There is none where the table is empty or where two samples
    /// share the highest count.
    pub fn mode(&self) -> (r: Option<i64>)
        requires
            self.wf(),
        ensures
            r == mode_of(self@),
            match r {
                Some(x) => is_mode(self@, x),
                None => forall|x: i64| !is_mode(self@, x),
            },
    {
        let (counts, _) = self.most_frequent();
        let ghost m = self@;
        if counts.len() == 0 {
            assert forall|x: i64| !is_mode(m, x) by {
                if m.count(x) > 0 {
                    let i = choose|i: int| 0 <= i < counts.len() && (#[trigger] counts[i]).0 == x;
                }
            }
            return None;
        }
        if counts.len() >= 2 && counts[0].1 == counts[1].1 {
            assert forall|x: i64| !is_mode(m, x) by {
                if is_mode(m, x) {
                    let i = choose|i: int| 0 <= i < counts.len() && (#[trigger] counts[i]).0 == x;
                    assert(count_leq(counts[0], counts[i], false));
                    assert(counts[0].0 != counts[1].0);
                    if x == counts[0].0 {
                        assert(m.count(counts[1].0) < m.count(x));
                    } else {
                        assert(m.count(counts[0].0) < m.count(x));
                    }
                }
            }
            None
        } else {
            let best: i64 = counts[0].0;
            proof {
                assert forall|y: i64| y != best implies m.count(y) < m.count(best) by {
                    if m.count(y) > 0 {
                        let i = choose|i: int|
                            0 <= i < counts.len() && (#[trigger] counts[i]).0 == y;
                        assert(i >= 1);
                        assert(count_leq(counts[0], counts[1], false));
                        assert(count_leq(counts[1], counts[i], false));
                    }
                }
                assert(is_mode(m, best));
                lemma_mode_unique(m, best, choose|x: i64| is_mode(m, x));
            }
            Some(best)
        }
    }

    /// A pass over the distinct samples.
    pub fn unique_values(&self) -> (r: UniqueValues)
        requires
            self.wf(),
        ensures
            names_values(self@, r.remaining()),
    {
        let entries = self.entries();
        let mut values: Vec<i64> = Vec::new();
        let mut i: usize = 0;
        while i < entries.len()
            invariant
                i <= entries.len(),
                values@ == values_of(entries@.take(i as int)),
            decreases entries.len() - i,
        {
            values.push(entries[i].0);
            proof {
                assert(entries@.take(i + 1) =~= entries@.take(i as int).push(entries@[i as int]));
                assert(values@ =~= values_of(entries@.take(i + 1)));
            }
            i = i + 1;
        }
        proof {
            assert(entries@.take(i as int) =~= entries@);
            lemma_tabulation_names_values(self@, entries@);
            assert(values@.skip(0) =~= values@);
        }
        UniqueValues { values, at: 0 }
    }

    /// Adds every sample that `it` yields.
    pub fn extend<I: Iterator<Item = i64>>(&mut self, it: I)
        requires
            old(self).wf(),
            it.obeys_prophetic_iter_laws(),
            it.decrease() is Some,
            old(self)@.len() + it.remaining().len() <= u64::MAX,
        ensures
            final(self).wf(),
            final(self)@ == old(self)@.add(it.remaining().to_multiset()),
            final(self).reserved() == old(self).reserved(),
    {
        let mut it = it;
        let ghost all = it.remaining();
        let ghost mut done: Seq<i64> = Seq::empty();
        proof {
            broadcast use vstd::multiset::group_multiset_axioms;

            done.to_multiset_ensures();
            vstd::multiset::lemma_multiset_empty_len(done.to_multiset());
            assert(self@ =~= old(self)@.add(done.to_multiset()));
            assert(done + all =~= all);
        }
        loop
            invariant
                self.wf(),
                it.obeys_prophetic_iter_laws(),
                it.decrease() is Some,
                all == done + it.remaining(),
                self@ == old(self)@.add(done.to_multiset()),
                self.reserved() == old(self).reserved(),
                old(self)@.len() + all.len() <= u64::MAX,
            ensures
                self.wf(),
                self@ == old(self)@.add(all.to_multiset()),
                self.reserved() == old(self).reserved(),
            decreases it.decrease()->0,
        {
            let ghost rest = it.remaining();
            match it.next() {
                Some(x) => {
                    proof {
                        broadcast use vstd::multiset::group_multiset_axioms;

                        done.to_multiset_ensures();
                        assert(all.len() == done.len() + rest.len());
                    }
                    self.add(x);
                    proof {
                        broadcast use vstd::multiset::group_multiset_axioms;

                        done.to_multiset_ensures();
                        assert(self@ =~= old(self)@.add(done.push(x).to_multiset()));
                        assert(done.push(x) + rest.drop_first() =~= done + rest);
                        done = done.push(x);
                    }
                },
                None => {
                    assert(done + rest =~= done);
                    break ;
                },
            }
        }
    }

    /// The table of the samples that `it` yields.
    pub fn from_iter<I: Iterator<Item = i64>>(it: I) -> (r: Frequencies)
        requires
            it.obeys_prophetic_iter_laws(),
            it.decrease() is Some,
            it.remaining().len() <= u64::MAX,
        ensures
            r.wf(),
            r@ == it.remaining().to_multiset(),
            r.reserved() == DEFAULT_CAPACITY,
    {
        let mut v = Frequencies::new();
        proof {
            broadcast use vstd::multiset::group_multiset_axioms;

        }
        v.extend(it);
        proof {
            broadcast use vstd::multiset::group_multiset_axioms;

            assert(v@ =~= it.remaining().to_multiset());
        }
        v
    }

    /// Adds every sample of `v`, each as often as `v` holds it: the counts
    /// of the two tables are added up value by value.
    pub fn merge(&mut self, v: Frequencies)
        requires
            old(self).wf(),
            v.wf(),
            old(self)@.len() + v@.len() <= u64::MAX,
        ensures
            final(self).wf(),
            final(self)@ == old(self)@.add(v@),
            final(self).reserved() == old(self).reserved(),
    {
        let entries = v.entries();
        let ghost whole = old(self)@.add(v@);
        let mut i: usize = 0;
        proof {
            broadcast use vstd::multiset::group_multiset_axioms;

            assert(total_count(entries@.take(0)) == 0);
        }
        while i < entries.len()
            invariant
                i <= entries.len(),
                self.wf(),
                tabulates(v@, entries@),
                total_count(entries@) == v@.len(),
                whole == old(self)@.add(v@),
                old(self)@.len() + v@.len() <= u64::MAX,
                self@.len() == old(self)@.len() + total_count(entries@.take(i as int)),
                self.reserved() == old(self).reserved(),
                forall|x: i64| #[trigger]
                    self@.count(x) == old(self)@.count(x) + if merged_before(entries@, i as int, x) {
                        v@.count(x)
                    } else {
                        0
                    },
            decreases entries.len() - i,
        {
            let k: i64 = entries[i].0;
            let more: u64 = entries[i].1;
            let count: u64 = self.count(&k);
            let ghost mid = self@;
            proof {
                lemma_total_of_prefix(entries@, i + 1);
                assert(entries@.take(i + 1).drop_last() =~= entries@.take(i as int));
                assert(total_count(entries@.take(i + 1)) == total_count(entries@.take(i as int))
                    + more);
                if merged_before(entries@, i as int, k) {
                    let j = choose|j: int| 0 <= j < i && (#[trigger] entries@[j]).0 == k;
                    assert(entries@[j].0 != entries@[i as int].0);
                }
            }
            self.store(k, count, more);
            proof {
                assert forall|x: i64| #[trigger]
                    self@.count(x) == old(self)@.count(x) + if merged_before(
                        entries@,
                        i + 1,
                        x,
                    ) {
                        v@.count(x)
                    } else {
                        0
                    } by {
                    if x == k {
                        assert(entries@[i as int].0 == k);
                        assert(merged_before(entries@, i + 1, x));
                    } else {
                        assert(self@.count(x) == mid.count(x));
                        if merged_before(entries@, i + 1, x) {
                            let j = choose|j: int|
                                0 <= j < i + 1 && (#[trigger] entries@[j]).0 == x;
                            assert(j < i);
                            assert(merged_before(entries@, i as int, x));
                        }
                        if merged_before(entries@, i as int, x) {
                            let j = choose|j: int| 0 <= j < i && (#[trigger] entries@[j]).0 == x;
                            assert(merged_before(entries@, i + 1, x));
                        }
                    }
                }
            }
            i = i + 1;
        }
        proof {
            broadcast use vstd::multiset::group_multiset_axioms;

            assert forall|x: i64| self@.count(x) == whole.count(x) by {
                if v@.count(x) > 0 {
                    let j = choose|j: int|
                        0 <= j < entries@.len() && (#[trigger] entries@[j]).0 == x;
                    assert(merged_before(entries@, i as int, x));
                }
            }
            assert(self@ =~= whole);
        }
    }
}

/// One of the first `upto` entries names `x`.
spec fn merged_before(entries: Seq<(i64, u64)>, upto: int, x: i64) -> bool {
    exists|j: int| 0 <= j < upto && (#[trigger] entries[j]).0 == x
}

/// A multiset that holds nothing but `k` has as many samples as it has
/// copies of `k`.
proof fn lemma_only_one_value(m: Multiset<i64>, k: i64)
    requires
        forall|y: i64| y != k ==> #[trigger] m.count(y) == 0,
    ensures
        m.len() == m.count(k),
{
    lemma_counts_add_up(m, seq![k]);
    assert(seq![k].drop_last() =~= Seq::<i64>::empty());
    assert(counts_sum(m, seq![k]) == counts_sum(m, seq![k].drop_last()) + m.count(
        seq![k].last(),
    ));
}

/// The sum of the counts of `entries`.
fn sum_counts(entries: &Vec<(i64, u64)>) -> (total: u64)
    requires
        total_count(entries@) <= u64::MAX,
    ensures
        total == total_count(entries@),
{
    let mut total: u64 = 0;
    let mut i: usize = 0;
    while i < entries.len()
        invariant
            i <= entries.len(),
            total_count(entries@) <= u64::MAX,
            total == total_count(entries@.take(i as int)),
        decreases entries.len() - i,
    {
        proof {
            lemma_total_of_prefix(entries@, i + 1);
            assert(entries@.take(i + 1).drop_last() =~= entries@.take(i as int));
        }
        total = total + entries[i].1;
        i = i + 1;
    }
    proof {
        assert(entries@.take(i as int) =~= entries@);
    }
    total
}

impl Default for Frequencies {
    fn default() -> (r: Frequencies)
        ensures
            r.wf(),
            r@ == Multiset::<i64>::empty(),
            r.reserved() == DEFAULT_CAPACITY,
    {
        Frequencies::new()
    }
}

impl Clone for Frequencies {
    /// A table with the same counts, built entry by entry, that asks for as
    /// much room as the table it is made from asked for.
    fn clone(&self) -> (r: Frequencies)
        ensures
            r@ == self@,
            r.wf() == self.wf(),
            r.reserved() == self.reserved(),
    {
        let entries = table_entries(&self.data);
        let reserve: usize = if self.reserve <= MAX_RESERVE {
            self.reserve
        } else {
            MAX_RESERVE
        };
        let mut data = new_table(reserve);
        let ghost counts = table_counts(self.data);
        let mut i: usize = 0;
        while i < entries.len()
            invariant
                i <= entries.len(),
                lists_table(counts, entries@),
                forall|k: i64| #[trigger]
                    table_counts(data).contains_key(k) <==> merged_before(entries@, i as int, k),
                forall|j: int|
                    0 <= j < i ==> table_counts(data).contains_pair(
                        (#[trigger] entries@[j]).0,
                        entries@[j].1,
                    ),
            decreases entries.len() - i,
        {
            let ghost before = table_counts(data);
            table_insert(&mut data, entries[i].0, entries[i].1);
            proof {
                let after = table_counts(data);
                let key = entries@[i as int].0;
                assert forall|k: i64| #[trigger]
                    after.contains_key(k) <==> merged_before(entries@, i + 1, k) by {
                    if merged_before(entries@, i + 1, k) {
                        let j = choose|j: int| 0 <= j < i + 1 && (#[trigger] entries@[j]).0 == k;
                        if j < i {
                            assert(merged_before(entries@, i as int, k));
                        }
                    }
                    if after.contains_key(k) && k != key {
                        assert(before.contains_key(k));
                        let j = choose|j: int| 0 <= j < i && (#[trigger] entries@[j]).0 == k;
                    }
                }
                assert forall|j: int| 0 <= j < i + 1 implies after.contains_pair(
                    (#[trigger] entries@[j]).0,
                    entries@[j].1,
                ) by {
                    if j < i {
                        assert(entries@[j].0 != entries@[i as int].0);
                        assert(before.contains_pair(entries@[j].0, entries@[j].1));
                    }
                }
            }
            i = i + 1;
        }
        proof {
            let copied = table_counts(data);
            assert forall|k: i64| copied.contains_key(k) <==> counts.contains_key(k) by {
                if copied.contains_key(k) {
                    let j = choose|j: int|
                        0 <= j < entries@.len() && (#[trigger] entries@[j]).0 == k;
                    assert(counts.contains_pair(entries@[j].0, entries@[j].1));
                }
                if counts.contains_key(k) {
                    let j = choose|j: int|
                        0 <= j < entries@.len() && (#[trigger] entries@[j]).0 == k;
                    assert(merged_before(entries@, i as int, k));
                }
            }
            assert forall|k: i64| copied.contains_key(k) implies copied[k] == counts[k] by {
                let j = choose|j: int| 0 <= j < entries@.len() && (#[trigger] entries@[j]).0 == k;
                assert(copied.contains_pair(entries@[j].0, entries@[j].1));
                assert(counts.contains_pair(entries@[j].0, entries@[j].1));
            }
            assert(copied =~= counts);
        }
        Frequencies { data, reserve: self.reserve }
    }
}

} // verus!
