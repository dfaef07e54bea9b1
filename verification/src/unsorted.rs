//! A lazily sorted collection of samples, with exact median, quartiles,
//! mode, modes and cardinality.

use vstd::multiset::Multiset;
use vstd::prelude::*;
use vstd::seq_lib::lemma_multiset_commutative;
use vstd::std_specs::iter::IteratorSpec;
use crate::ascending::{
    ascending, ascending_of, lemma_ascending_of, lemma_fresh_after_step, lemma_insert_counts,
    lemma_nothing_taken, lemma_take_next,
};
use crate::mode::{is_mode, lists_modes, mode_of, mode_on_sorted, modes_of, modes_on_sorted};
use crate::outside::sort_ascending;
use crate::quantile::{median_at, median_on_sorted, quartiles_at, quartiles_on_sorted, Quantile};

verus! {

/// A collection of samples that is put in order only when a statistic is
/// asked for.
///
/// It is in one of two states. It is clean when its samples stand in
/// ascending order, and dirty once a sample has been added since they were
/// last put in order. As a value it is the multiset of its samples: the order
/// in which they arrived is not part of it.
pub struct Unsorted {
    data: Vec<i64>,
    sorted: bool,
}

impl View for Unsorted {
    type V = Multiset<i64>;

    closed spec fn view(&self) -> Multiset<i64> {
        self.data@.to_multiset()
    }
}

/// What a query does to the collection besides computing its answer: the
/// samples stay, they now stand in ascending order, and the collection is
/// clean. One that was clean already is not rearranged.
pub open spec fn settles(before: Unsorted, after: Unsorted) -> bool {
    &&& after@ == before@
    &&& after.is_clean()
    &&& ascending(after.arrangement())
    &&& after.arrangement().to_multiset() == before@
    &&& after.arrangement() == ascending_of(before@)
    &&& before.is_clean() ==> after.arrangement() == before.arrangement()
}

impl Unsorted {
    /// The collection is what it says it is: where it is clean, its samples
    /// stand in ascending order.
    pub closed spec fn wf(&self) -> bool {
        self.sorted ==> ascending(self.data@)
    }

    /// The samples in the order in which they are held at present.
    pub closed spec fn arrangement(&self) -> Seq<i64> {
        self.data@
    }

    /// No sample has been added since the samples were last put in order.
    pub closed spec fn is_clean(&self) -> bool {
        self.sorted
    }

    /// An empty collection, clean.
    pub fn new() -> (r: Unsorted)
        ensures
            r@ == Multiset::<i64>::empty(),
            r.arrangement() == Seq::<i64>::empty(),
            r.is_clean(),
            r.wf(),
    {
        let data: Vec<i64> = Vec::with_capacity(1000);
        proof {
            lemma_nothing_taken(data@);
            assert(data@.take(0) =~= data@);
            assert(data@.to_multiset() =~= Multiset::<i64>::empty()) by {
                broadcast use vstd::multiset::group_multiset_axioms;

            }
        }
        Unsorted { data, sorted: true }
    }

    /// Adds the sample `v`. The collection is dirty afterwards.
    pub fn add(&mut self, v: i64)
        ensures
            final(self).wf(),
            final(self)@ == old(self)@.insert(v),
            final(self).arrangement() == old(self).arrangement().push(v),
            !final(self).is_clean(),
    {
        self.dirtied();
        self.data.push(v);
        proof {
            old(self).data@.to_multiset_ensures();
        }
    }

    /// The number of samples, each counted as often as it was added.
    pub fn len(&self) -> (r: usize)
        ensures
            r == self@.len(),
    {
        proof {
            self.data@.to_multiset_ensures();
        }
        self.data.len()
    }

    /// Whether no sample has been added.
    pub fn is_empty(&self) -> (r: bool)
        ensures
            r == (self@.len() == 0),
    {
        proof {
            self.data@.to_multiset_ensures();
        }
        self.data.len() == 0
    }

    /// Adds every sample that `it` yields. The collection is dirty afterwards.
    pub fn extend<I: Iterator<Item = i64>>(&mut self, it: I)
        requires
            it.obeys_prophetic_iter_laws(),
            it.decrease() is Some,
        ensures
            final(self).wf(),
            final(self)@ == old(self)@.add(it.remaining().to_multiset()),
            final(self).arrangement() == old(self).arrangement() + it.remaining(),
            !final(self).is_clean(),
    {
        self.dirtied();
        let mut it = it;
        let ghost all = it.remaining();
        loop
            invariant
                it.obeys_prophetic_iter_laws(),
                it.decrease() is Some,
                !self.sorted,
                old(self).data@ + all == self.data@ + it.remaining(),
            ensures
                !self.sorted,
                self.data@ == old(self).data@ + all,
            decreases it.decrease()->0,
        {
            let ghost held = self.data@;
            let ghost rest = it.remaining();
            match it.next() {
                Some(x) => {
                    self.data.push(x);
                    assert(held.push(x) + rest.drop_first() =~= held + rest);
                },
                None => {
                    assert(held + rest =~= held);
                    break ;
                },
            }
        }
        proof {
            lemma_multiset_commutative(old(self).data@, all);
        }
    }

    /// The collection of the samples that `it` yields.
    pub fn from_iter<I: Iterator<Item = i64>>(it: I) -> (r: Unsorted)
        requires
            it.obeys_prophetic_iter_laws(),
            it.decrease() is Some,
        ensures
            r.wf(),
            r@ == it.remaining().to_multiset(),
            r.arrangement() == it.remaining(),
            !r.is_clean(),
    {
        let mut v = Unsorted::new();
        v.extend(it);
        proof {
            assert(Seq::<i64>::empty() + it.remaining() =~= it.remaining());
        }
        v
    }

    /// Takes over the samples of `v`, so that the collection holds what both
    /// held. It is dirty afterwards.
    pub fn merge(&mut self, v: Unsorted)
        ensures
            final(self).wf(),
            final(self)@ == old(self)@.add(v@),
            final(self).arrangement() == old(self).arrangement() + v.arrangement(),
            !final(self).is_clean(),
    {
        let ghost taken = v.data@;
        let mut v = v;
        self.dirtied();
        self.data.append(&mut v.data);
        proof {
            lemma_multiset_commutative(old(self).data@, taken);
        }
    }

    /// The number of distinct samples.
    pub fn cardinality(&mut self) -> (r: usize)
        requires
            old(self).wf(),
        ensures
            final(self).wf(),
            settles(*old(self), *final(self)),
            r == old(self)@.dom().len(),
    {
        self.sort();
        let len: usize = self.data.len();
        let ghost s = self.data@;
        let ghost mut seen: Multiset<i64> = s.take(0).to_multiset();
        let mut distinct: usize = 0;
        let mut i: usize = 0;
        proof {
            lemma_nothing_taken(s);
            assert(seen.dom() =~= Set::<i64>::empty());
        }
        while i < len
            invariant
                len == self.data.len(),
                s == self.data@,
                ascending(s),
                i <= len,
                seen == s.take(i as int).to_multiset(),
                distinct <= i,
                distinct == seen.dom().len(),
                seen.dom().finite(),
            decreases len - i,
        {
            let x: i64 = self.data[i];
            let ghost before = seen;
            proof {
                lemma_take_next(s, i as int);
                seen = s.take(i + 1).to_multiset();
                lemma_insert_counts(before, x);
            }
            if i == 0 || self.data[i - 1] != x {
                proof {
                    lemma_fresh_after_step(s, i as int);
                    assert(seen.dom() =~= before.dom().insert(x));
                    assert(!before.dom().contains(x));
                }
                distinct = distinct + 1;
            } else {
                proof {
                    s.take(i as int).to_multiset_ensures();
                    assert(s.take(i as int)[i - 1] == x);
                    assert(s.take(i as int).contains(x));
                    assert(seen.dom() =~= before.dom());
                }
            }
            i = i + 1;
        }
        proof {
            assert(s.take(len as int) =~= s);
        }
        distinct
    }

    /// The mode: the sample that occurs more often than every other, if
    /// there is one.
    pub fn mode(&mut self) -> (r: Option<i64>)
        requires
            old(self).wf(),
        ensures
            final(self).wf(),
            settles(*old(self), *final(self)),
            r == mode_of(old(self)@),
            match r {
                Some(x) => is_mode(old(self)@, x),
                None => forall|x: i64| !is_mode(old(self)@, x),
            },
    {
        self.sort();
        mode_on_sorted(self.data.as_slice())
    }

    /// The modes, in ascending order: the samples that occur at least twice
    /// and as often as any.
    pub fn modes(&mut self) -> (r: Vec<i64>)
        requires
            old(self).wf(),
        ensures
            final(self).wf(),
            settles(*old(self), *final(self)),
            r@ == modes_of(old(self)@),
            lists_modes(old(self)@, r@),
    {
        self.sort();
        modes_on_sorted(self.data.as_slice())
    }

    /// The median: nothing for an empty collection, else the middle sample
    /// of the ascending arrangement, or the mean of the two middle ones.
    pub fn median(&mut self) -> (r: Option<Quantile>)
        requires
            old(self).wf(),
        ensures
            final(self).wf(),
            settles(*old(self), *final(self)),
            r == median_at(ascending_of(old(self)@)),
    {
        self.sort();
        median_on_sorted(self.data.as_slice())
    }

    /// The three quartiles: nothing for fewer than three samples, else the
    /// medians of the lower half, of the whole and of the upper half of the
    /// ascending arrangement.
    pub fn quartiles(&mut self) -> (r: Option<(Quantile, Quantile, Quantile)>)
        requires
            old(self).wf(),
        ensures
            final(self).wf(),
            settles(*old(self), *final(self)),
            r == quartiles_at(ascending_of(old(self)@)),
    {
        self.sort();
        quartiles_on_sorted(self.data.as_slice())
    }

    /// Puts the samples in ascending order, unless the collection is clean
    /// and so holds them in that order already. Every query does this first.
    ///
    /// Afterwards the collection is clean and holds the samples it held, in
    /// ascending order; one that was clean is left as it stood.
    pub fn sort(&mut self)
        requires
            old(self).wf(),
        ensures
            final(self).wf(),
            settles(*old(self), *final(self)),
            final(self)@ == old(self)@,
            final(self).is_clean(),
            ascending(final(self).arrangement()),
            final(self).arrangement().to_multiset() == old(self).arrangement().to_multiset(),
            old(self).is_clean() ==> final(self).arrangement() == old(self).arrangement(),
    {
        if !self.sorted {
            sort_ascending(&mut self.data);
            self.sorted = true;
        }
        proof {
            lemma_ascending_of(self.data@);
        }
    }

    /// Marks the collection dirty.
    fn dirtied(&mut self)
        ensures
            final(self).data == old(self).data,
            !final(self).sorted,
    {
        self.sorted = false;
    }
}

impl Default for Unsorted {
    fn default() -> (r: Unsorted)
        ensures
            r.wf(),
            r@ == Multiset::<i64>::empty(),
            r.is_clean(),
    {
        Unsorted::new()
    }
}

impl Clone for Unsorted {
    fn clone(&self) -> (r: Unsorted)
        ensures
            r@ == self@,
            r.arrangement() == self.arrangement(),
            r.is_clean() == self.is_clean(),
            r.wf() == self.wf(),
    {
        let data = self.data.clone();
        assert(data@ =~= self.data@);
        Unsorted { data, sorted: self.sorted }
    }
}

/// The median of the samples that `it` yields.
pub fn median<I: Iterator<Item = i64>>(it: I) -> (r: Option<Quantile>)
    requires
        it.obeys_prophetic_iter_laws(),
        it.decrease() is Some,
    ensures
        r == median_at(ascending_of(it.remaining().to_multiset())),
{
    let mut v = Unsorted::from_iter(it);
    v.median()
}

/// The quartiles of the samples that `it` yields.
pub fn quartiles<I: Iterator<Item = i64>>(it: I) -> (r: Option<(Quantile, Quantile, Quantile)>)
    requires
        it.obeys_prophetic_iter_laws(),
        it.decrease() is Some,
    ensures
        r == quartiles_at(ascending_of(it.remaining().to_multiset())),
{
    let mut v = Unsorted::from_iter(it);
    v.quartiles()
}

/// The mode of the samples that `it` yields, if they have one.
pub fn mode<I: Iterator<Item = i64>>(it: I) -> (r: Option<i64>)
    requires
        it.obeys_prophetic_iter_laws(),
        it.decrease() is Some,
    ensures
        r == mode_of(it.remaining().to_multiset()),
        match r {
            Some(x) => is_mode(it.remaining().to_multiset(), x),
            None => forall|x: i64| !is_mode(it.remaining().to_multiset(), x),
        },
{
    let mut v = Unsorted::from_iter(it);
    v.mode()
}

/// The modes of the samples that `it` yields, in ascending order.
pub fn modes<I: Iterator<Item = i64>>(it: I) -> (r: Vec<i64>)
    requires
        it.obeys_prophetic_iter_laws(),
        it.decrease() is Some,
    ensures
        r@ == modes_of(it.remaining().to_multiset()),
        lists_modes(it.remaining().to_multiset(), r@),
{
    let mut v = Unsorted::from_iter(it);
    v.modes()
}

/// A collection stands for the samples it holds, in whatever order it holds
/// them.
pub proof fn lemma_arrangement_holds_samples(v: Unsorted)
    ensures
        v.arrangement().to_multiset() == v@,
        v.arrangement().len() == v@.len(),
{
    v.arrangement().to_multiset_ensures();
}

/// A clean collection holds its own samples in ascending order, and so in
/// their ascending arrangement.
pub proof fn lemma_clean_arrangement(v: Unsorted)
    requires
        v.wf(),
        v.is_clean(),
    ensures
        ascending(v.arrangement()),
        v.arrangement().to_multiset() == v@,
        v.arrangement() == ascending_of(v@),
{
    lemma_ascending_of(v.arrangement());
}

/// Asking again changes nothing: where one query has taken the collection
/// from `a` to `b`, and a second from `b` to `c` with nothing added in
/// between, the second found the samples in order and left them as they
/// stood, and it was asked of the same samples as the first, so that it
/// gave the same answer.
pub proof fn lemma_query_again(a: Unsorted, b: Unsorted, c: Unsorted)
    requires
        settles(a, b),
        settles(b, c),
    ensures
        c.arrangement() == b.arrangement(),
        c@ == a@,
        b@ == a@,
        ascending_of(b@) == ascending_of(a@),
        mode_of(b@) == mode_of(a@),
        modes_of(b@) == modes_of(a@),
        median_at(ascending_of(b@)) == median_at(ascending_of(a@)),
        quartiles_at(ascending_of(b@)) == quartiles_at(ascending_of(a@)),
        b@.dom().len() == a@.dom().len(),
{
}

/// Merging is union: where `whole` holds the samples of `left` and of
/// `right` together, in any order, a collection that has gathered `left` and
/// then taken over one that has gathered `right` stands for the samples of
/// `whole`, and so every query gives of it what it gives of a collection
/// that has gathered `whole`.
pub proof fn lemma_merge_is_union(left: Seq<i64>, right: Seq<i64>, whole: Seq<i64>)
    requires
        whole.to_multiset() == (left + right).to_multiset(),
    ensures
        left.to_multiset().add(right.to_multiset()) == whole.to_multiset(),
        left.to_multiset().add(right.to_multiset()) == right.to_multiset().add(
            left.to_multiset(),
        ),
        ({
            let merged = left.to_multiset().add(right.to_multiset());
            let built = whole.to_multiset();
            &&& merged.dom().len() == built.dom().len()
            &&& mode_of(merged) == mode_of(built)
            &&& modes_of(merged) == modes_of(built)
            &&& median_at(ascending_of(merged)) == median_at(ascending_of(built))
            &&& quartiles_at(ascending_of(merged)) == quartiles_at(ascending_of(built))
        }),
{
    lemma_multiset_commutative(left, right);
    crate::laws::lemma_merge_commutative(left.to_multiset(), right.to_multiset());
}

} // verus!
