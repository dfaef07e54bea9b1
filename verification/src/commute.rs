//! What the aggregators of this library have in common: each stands for a
//! multiset of samples, and two of a kind can be merged into one that stands
//! for the samples of both.

use vstd::multiset::Multiset;
use vstd::prelude::*;
use vstd::std_specs::iter::IteratorSpec;
use crate::frequency::Frequencies;
use crate::laws::{lemma_merge_empty, lemma_merged_in_groups, merged};
use crate::unsorted::Unsorted;

verus! {

/// An aggregator that can take over what another of its kind has gathered.
///
/// Merging is the sum of multisets, whatever the aggregator keeps of its
/// samples. So it does not matter in which order shards are merged, nor how
/// they are grouped: see `crate::laws`.
pub trait Commute: Sized {
    /// The samples that the aggregator stands for.
    spec fn samples(&self) -> Multiset<i64>;

    /// The aggregator is well formed.
    spec fn valid(&self) -> bool;

    /// An aggregator of this type can stand for `n` samples.
    spec fn can_hold(n: nat) -> bool;

    /// Takes over the samples of `other`.
    fn merge(&mut self, other: Self)
        requires
            old(self).valid(),
            other.valid(),
            Self::can_hold(old(self).samples().len() + other.samples().len()),
        ensures
            final(self).valid(),
            final(self).samples() == old(self).samples().add(other.samples()),
    ;
}

impl Commute for Unsorted {
    open spec fn samples(&self) -> Multiset<i64> {
        self@
    }

    open spec fn valid(&self) -> bool {
        self.wf()
    }

    open spec fn can_hold(n: nat) -> bool {
        true
    }

    fn merge(&mut self, other: Unsorted) {
        Unsorted::merge(self, other)
    }
}

impl Commute for Frequencies {
    open spec fn samples(&self) -> Multiset<i64> {
        self@
    }

    open spec fn valid(&self) -> bool {
        self.wf()
    }

    open spec fn can_hold(n: nat) -> bool {
        n <= u64::MAX
    }

    fn merge(&mut self, other: Frequencies) {
        Frequencies::merge(self, other)
    }
}

/// The samples of each aggregator of `shards`.
pub open spec fn samples_of<T: Commute>(shards: Seq<T>) -> Seq<Multiset<i64>> {
    shards.map_values(|shard: T| shard.samples())
}

/// Merges the aggregators that `it` yields into the first of them, one
/// after another. Where `it` yields none, there is nothing to return.
pub fn merge_all<T: Commute, I: Iterator<Item = T>>(it: I) -> (r: Option<T>)
    requires
        it.obeys_prophetic_iter_laws(),
        it.decrease() is Some,
        forall|i: int| 0 <= i < it.remaining().len() ==> (#[trigger] it.remaining()[i]).valid(),
        forall|n: nat| n <= merged(samples_of(it.remaining())).len() ==> T::can_hold(n),
    ensures
        r is None <==> it.remaining().len() == 0,
        r matches Some(all) ==> all.valid() && all.samples() == merged(
            samples_of(it.remaining()),
        ),
{
    let mut it = it;
    let ghost shards = it.remaining();
    let mut all: T = match it.next() {
        None => {
            return None;
        },
        Some(first) => first,
    };
    let ghost mut done: Seq<T> = seq![shards[0]];
    proof {
        assert(shards[0].valid());
        assert(samples_of(done).drop_last() =~= Seq::<Multiset<i64>>::empty());
        assert(merged(samples_of(done)) == merged(samples_of(done).drop_last()).add(
            samples_of(done).last(),
        ));
        lemma_merge_empty(all.samples());
        assert(done + it.remaining() =~= shards);
    }
    loop
        invariant
            it.obeys_prophetic_iter_laws(),
            it.decrease() is Some,
            shards == done + it.remaining(),
            forall|i: int| 0 <= i < shards.len() ==> (#[trigger] shards[i]).valid(),
            forall|n: nat| n <= merged(samples_of(shards)).len() ==> T::can_hold(n),
            all.valid(),
            all.samples() == merged(samples_of(done)),
        ensures
            all.valid(),
            all.samples() == merged(samples_of(shards)),
        decreases it.decrease()->0,
    {
        let ghost rest = it.remaining();
        match it.next() {
            Some(shard) => {
                proof {
                    broadcast use vstd::multiset::group_multiset_axioms;

                    let grown = done.push(shard);
                    assert(shards[done.len() as int] == shard);
                    assert(grown + rest.drop_first() =~= shards);
                    assert(samples_of(grown).drop_last() =~= samples_of(done));
                    assert(samples_of(shards) =~= samples_of(grown) + samples_of(
                        rest.drop_first(),
                    ));
                    lemma_merged_in_groups(samples_of(grown), samples_of(rest.drop_first()));
                    assert(merged(samples_of(grown)).len() <= merged(samples_of(shards)).len());
                }
                all.merge(shard);
                proof {
                    done = done.push(shard);
                }
            },
            None => {
                assert(done + rest =~= done);
                break ;
            },
        }
    }
    Some(all)
}

} // verus!
