//! The two orders in which a tabulation is ranked: by count alone, and by
//! count with the value as a second key.

use std::cmp::Ordering;
use vstd::multiset::Multiset;
use vstd::prelude::*;
use crate::tally::tabulates;

verus! {

/// Ranking by count alone, `a` may stand before `b`: its count is no higher
/// where the least frequent come first, and no lower where the most
/// frequent do.
pub open spec fn count_leq(a: (i64, u64), b: (i64, u64), least: bool) -> bool {
    if least {
        a.1 <= b.1
    } else {
        a.1 >= b.1
    }
}

/// Ranking by count and then by value, `a` may stand before `b`: entries
/// with different counts go by `count_leq`, entries with the same count by
/// ascending value.
pub open spec fn rank_leq(a: (i64, u64), b: (i64, u64), least: bool) -> bool {
    if a.1 == b.1 {
        a.0 <= b.0
    } else {
        count_leq(a, b, least)
    }
}

/// `s` is ranked by count alone.
pub open spec fn ranked_by_count(s: Seq<(i64, u64)>, least: bool) -> bool {
    forall|i: int, j: int| 0 <= i <= j < s.len() ==> count_leq(s[i], s[j], least)
}

/// `s` is ranked by count and then by value.
pub open spec fn ranked(s: Seq<(i64, u64)>, least: bool) -> bool {
    forall|i: int, j: int| 0 <= i <= j < s.len() ==> rank_leq(s[i], s[j], least)
}

/// Compares two entries by count alone.
pub fn count_order(a: &(i64, u64), b: &(i64, u64), least: bool) -> (o: Ordering)
    ensures
        (o == Ordering::Less) == (count_leq(*a, *b, least) && !count_leq(*b, *a, least)),
        (o == Ordering::Equal) == (count_leq(*a, *b, least) && count_leq(*b, *a, least)),
        (o == Ordering::Greater) == (!count_leq(*a, *b, least)),
{
    let (x, y) = if least {
        (a.1, b.1)
    } else {
        (b.1, a.1)
    };
    if x < y {
        Ordering::Less
    } else if x == y {
        Ordering::Equal
    } else {
        Ordering::Greater
    }
}

/// Compares two entries by count, and entries of the same count by value.
pub fn rank_order(a: &(i64, u64), b: &(i64, u64), least: bool) -> (o: Ordering)
    ensures
        (o == Ordering::Less) == (rank_leq(*a, *b, least) && !rank_leq(*b, *a, least)),
        (o == Ordering::Equal) == (rank_leq(*a, *b, least) && rank_leq(*b, *a, least)),
        (o == Ordering::Greater) == (!rank_leq(*a, *b, least)),
{
    match count_order(a, b, least) {
        Ordering::Less => Ordering::Less,
        Ordering::Greater => Ordering::Greater,
        Ordering::Equal => {
            if a.0 < b.0 {
                Ordering::Less
            } else if a.0 == b.0 {
                Ordering::Equal
            } else {
                Ordering::Greater
            }
        },
    }
}

/// A multiset has one ranking by count and value: two tabulations of it
/// that are both ranked so are the same sequence.
pub proof fn lemma_ranking_unique(
    m: Multiset<i64>,
    a: Seq<(i64, u64)>,
    b: Seq<(i64, u64)>,
    least: bool,
)
    requires
        tabulates(m, a),
        tabulates(m, b),
        ranked(a, least),
        ranked(b, least),
    ensures
        a == b,
    decreases a.len(),
{
    if a.len() == 0 {
        if b.len() > 0 {
            assert(m.count(b[0].0) > 0);
        }
    } else if b.len() == 0 {
        assert(m.count(a[0].0) > 0);
    } else {
        // The first entry of each is the one that may stand before every
        // other, and there is one such entry.
        assert(m.count(a[0].0) > 0);
        assert(m.count(b[0].0) > 0);
        let i = choose|i: int| 0 <= i < b.len() && (#[trigger] b[i]).0 == a[0].0;
        let j = choose|j: int| 0 <= j < a.len() && (#[trigger] a[j]).0 == b[0].0;
        assert(b[i] == a[0]);
        assert(a[j] == b[0]);
        assert(rank_leq(a[0], a[j], least));
        assert(rank_leq(b[0], b[i], least));
        assert(a[0] == b[0]);
        let k = a[0].0;
        let rest = m.sub(m.filter(|x: i64| x == k));
        assert forall|x: i64| #[trigger] rest.count(x) == if x == k {
            0
        } else {
            m.count(x)
        } by {
            broadcast use vstd::multiset::group_multiset_axioms;

        }
        let ra = a.drop_first();
        let rb = b.drop_first();
        lemma_tabulation_without_first(m, a, rest);
        lemma_tabulation_without_first(m, b, rest);
        assert(ranked(ra, least)) by {
            assert forall|x: int, y: int| 0 <= x <= y < ra.len() implies rank_leq(
                ra[x],
                ra[y],
                least,
            ) by {
                assert(rank_leq(a[x + 1], a[y + 1], least));
            }
        }
        assert(ranked(rb, least)) by {
            assert forall|x: int, y: int| 0 <= x <= y < rb.len() implies rank_leq(
                rb[x],
                rb[y],
                least,
            ) by {
                assert(rank_leq(b[x + 1], b[y + 1], least));
            }
        }
        lemma_ranking_unique(rest, ra, rb, least);
        assert(a =~= seq![a[0]] + ra);
        assert(b =~= seq![b[0]] + rb);
    }
}

/// Without its first entry, a tabulation tabulates what is left of the
/// multiset when every copy of that entry's value is taken out.
proof fn lemma_tabulation_without_first(
    m: Multiset<i64>,
    a: Seq<(i64, u64)>,
    rest: Multiset<i64>,
)
    requires
        tabulates(m, a),
        a.len() > 0,
        forall|x: i64| #[trigger]
            rest.count(x) == if x == a[0].0 {
                0
            } else {
                m.count(x)
            },
    ensures
        tabulates(rest, a.drop_first()),
{
    let ra = a.drop_first();
    assert forall|i: int| 0 <= i < ra.len() implies (#[trigger] ra[i]).1 == rest.count(ra[i].0)
        && ra[i].1 >= 1 by {
        assert(ra[i] == a[i + 1]);
        assert(a[0].0 != a[i + 1].0);
    }
    assert forall|i: int, j: int| 0 <= i < j < ra.len() implies (#[trigger] ra[i]).0 != (
    #[trigger] ra[j]).0 by {
        assert(ra[i] == a[i + 1] && ra[j] == a[j + 1]);
    }
    assert forall|x: i64| #[trigger] rest.count(x) > 0 implies exists|i: int|
        0 <= i < ra.len() && (#[trigger] ra[i]).0 == x by {
        assert(m.count(x) > 0);
        let j = choose|j: int| 0 <= j < a.len() && (#[trigger] a[j]).0 == x;
        assert(j > 0);
        assert(ra[j - 1] == a[j]);
    }
}

} // verus!
