//! Ascending order on samples, and the ascending arrangement of a multiset.

use vstd::multiset::Multiset;
use vstd::prelude::*;
use vstd::relations::{sorted_by, total_ordering};
use vstd::seq_lib::lemma_sorted_unique;

verus! {

/// `s` never steps down.
pub open spec fn ascending(s: Seq<i64>) -> bool {
    forall|i: int, j: int| 0 <= i <= j < s.len() ==> s[i] <= s[j]
}

/// `s` steps up at every position, so no sample occurs twice.
pub open spec fn strictly_ascending(s: Seq<i64>) -> bool {
    forall|i: int, j: int| 0 <= i < j < s.len() ==> s[i] < s[j]
}

/// The samples of `m` laid out in ascending order.
pub open spec fn ascending_of(m: Multiset<i64>) -> Seq<i64> {
    choose|s: Seq<i64>| ascending(s) && s.to_multiset() == m
}

/// Two ascending sequences that hold the same samples, each as often as the
/// other, are the same sequence.
pub proof fn lemma_ascending_unique(a: Seq<i64>, b: Seq<i64>)
    requires
        ascending(a),
        ascending(b),
        a.to_multiset() == b.to_multiset(),
    ensures
        a == b,
{
    let leq = |x: i64, y: i64| x <= y;
    assert(total_ordering(leq));
    assert(sorted_by(a, leq));
    assert(sorted_by(b, leq));
    lemma_sorted_unique(a, b, leq);
}

/// An ascending sequence is the ascending arrangement of its own samples.
pub proof fn lemma_ascending_of(s: Seq<i64>)
    requires
        ascending(s),
    ensures
        ascending_of(s.to_multiset()) == s,
{
    let t = ascending_of(s.to_multiset());
    assert(ascending(t) && t.to_multiset() == s.to_multiset());
    lemma_ascending_unique(t, s);
}

/// A strictly ascending sequence holds each of its samples once.
pub proof fn lemma_strictly_ascending_counts(s: Seq<i64>, x: i64)
    requires
        strictly_ascending(s),
    ensures
        s.to_multiset().count(x) == if s.contains(x) { 1nat } else { 0nat },
{
    s.to_multiset_ensures();
    if s.contains(x) {
        assert(s.no_duplicates());
        s.lemma_multiset_has_no_duplicates();
        assert(s.to_multiset().contains(x));
    }
}

/// Two strictly ascending sequences with the same members are the same
/// sequence.
pub proof fn lemma_strictly_ascending_unique(a: Seq<i64>, b: Seq<i64>)
    requires
        strictly_ascending(a),
        strictly_ascending(b),
        forall|x: i64| a.contains(x) <==> b.contains(x),
    ensures
        a == b,
{
    assert forall|x: i64| a.to_multiset().count(x) == b.to_multiset().count(x) by {
        lemma_strictly_ascending_counts(a, x);
        lemma_strictly_ascending_counts(b, x);
    }
    assert(a.to_multiset() =~= b.to_multiset());
    lemma_ascending_unique(a, b);
}

/// Taking one more element of `s` adds that element to the samples taken.
pub proof fn lemma_take_next(s: Seq<i64>, i: int)
    requires
        0 <= i < s.len(),
    ensures
        s.take(i + 1).to_multiset() == s.take(i).to_multiset().insert(s[i]),
{
    s.take(i).to_multiset_ensures();
    assert(s.take(i + 1) =~= s.take(i).push(s[i]));
}

/// Before anything is taken of `s`, no sample has been seen.
pub proof fn lemma_nothing_taken(s: Seq<i64>)
    ensures
        forall|x: i64| #[trigger] s.take(0).to_multiset().count(x) == 0,
{
    broadcast use vstd::multiset::group_multiset_axioms;

    s.take(0).to_multiset_ensures();
    assert(s.take(0).to_multiset().len() == 0);
}

/// Inserting `x` raises the count of `x` by one and leaves the others.
pub proof fn lemma_insert_counts(m: Multiset<i64>, x: i64)
    ensures
        m.insert(x).count(x) == m.count(x) + 1,
        forall|y: i64| y != x ==> #[trigger] m.insert(x).count(y) == m.count(y),
{
    broadcast use vstd::multiset::group_multiset_axioms;

}

/// In an ascending sequence, an element that differs from its predecessor
/// has not occurred before it.
pub proof fn lemma_fresh_after_step(s: Seq<i64>, i: int)
    requires
        ascending(s),
        0 <= i < s.len(),
        i > 0 ==> s[i - 1] != s[i],
    ensures
        s.take(i).to_multiset().count(s[i]) == 0,
{
    let p = s.take(i);
    p.to_multiset_ensures();
    if p.contains(s[i]) {
        let j = choose|j: int| 0 <= j < p.len() && p[j] == s[i];
        assert(s[j] <= s[i - 1] <= s[i]);
    }
}

} // verus!
