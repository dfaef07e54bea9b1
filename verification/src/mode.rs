//! The mode and the modes of a sample, found in one pass over its ascending
//! arrangement.

use vstd::multiset::Multiset;
use vstd::prelude::*;
use crate::ascending::{
    ascending, lemma_fresh_after_step, lemma_insert_counts, lemma_nothing_taken,
    lemma_strictly_ascending_unique, lemma_take_next, strictly_ascending,
};

verus! {

/// `x` occurs in `m`, and more often than any other sample.
pub open spec fn is_mode(m: Multiset<i64>, x: i64) -> bool {
    m.count(x) > 0 && forall|y: i64| y != x ==> m.count(y) < m.count(x)
}

/// `x` occurs in `m`, and no sample occurs more often.
pub open spec fn is_most_frequent(m: Multiset<i64>, x: i64) -> bool {
    m.count(x) > 0 && forall|y: i64| m.count(y) <= m.count(x)
}

/// The mode of `m`: the one sample that occurs more often than every other.
/// A multiset in which two samples share the highest count has none, and
/// neither has the empty multiset.
pub open spec fn mode_of(m: Multiset<i64>) -> Option<i64> {
    if exists|x: i64| is_mode(m, x) {
        Some(choose|x: i64| is_mode(m, x))
    } else {
        None
    }
}

/// `s` lists the modes of `m` in ascending order: the samples that occur at
/// least twice and as often as any. A sample that occurs once is no mode.
pub open spec fn lists_modes(m: Multiset<i64>, s: Seq<i64>) -> bool {
    &&& strictly_ascending(s)
    &&& forall|x: i64| s.contains(x) <==> (is_most_frequent(m, x) && m.count(x) >= 2)
}

/// The modes of `m`, in ascending order.
pub open spec fn modes_of(m: Multiset<i64>) -> Seq<i64> {
    choose|s: Seq<i64>| lists_modes(m, s)
}

/// A multiset has at most one mode.
pub proof fn lemma_mode_unique(m: Multiset<i64>, x: i64, y: i64)
    requires
        is_mode(m, x),
        is_mode(m, y),
    ensures
        x == y,
{
}

/// What `mode_of` returns is the mode, and where it returns nothing there is
/// none.
pub proof fn lemma_mode_of(m: Multiset<i64>)
    ensures
        match mode_of(m) {
            Some(x) => is_mode(m, x),
            None => forall|x: i64| !is_mode(m, x),
        },
{
}

/// A sequence that lists the modes of `m` is `modes_of(m)`.
pub proof fn lemma_modes_of(m: Multiset<i64>, s: Seq<i64>)
    requires
        lists_modes(m, s),
    ensures
        modes_of(m) == s,
{
    let t = modes_of(m);
    assert(lists_modes(m, t));
    lemma_strictly_ascending_unique(t, s);
}

/// The mode of `data`, which the caller has put in ascending order.
///
/// The scan keeps the length of the run it is in and the longest run seen
/// so far, and remembers whether a second run has reached that length.
pub fn mode_on_sorted(data: &[i64]) -> (r: Option<i64>)
    requires
        ascending(data@),
    ensures
        r == mode_of(data@.to_multiset()),
        match r {
            Some(x) => is_mode(data@.to_multiset(), x),
            None => forall|x: i64| !is_mode(data@.to_multiset(), x),
        },
{
    let len: usize = data.len();
    let ghost s = data@;
    let ghost mut seen: Multiset<i64> = s.take(0).to_multiset();
    let mut best: i64 = 0;
    let mut best_count: usize = 0;
    let mut tied: bool = false;
    let mut run: usize = 0;
    let mut i: usize = 0;
    proof {
        lemma_nothing_taken(s);
    }
    while i < len
        invariant
            len == data.len(),
            s == data@,
            ascending(s),
            i <= len,
            seen == s.take(i as int).to_multiset(),
            run <= i,
            best_count <= i,
            i > 0 ==> run == seen.count(s[i - 1]),
            i > 0 ==> best_count > 0 && best_count == seen.count(best),
            i == 0 ==> best_count == 0 && !tied,
            forall|x: i64| #[trigger] seen.count(x) <= best_count,
            tied ==> exists|y: i64| y != best && #[trigger] seen.count(y) == best_count,
            !tied ==> forall|y: i64| y != best ==> #[trigger] seen.count(y) < best_count || i == 0,
        decreases len - i,
    {
        let x: i64 = data[i];
        let ghost before = seen;
        proof {
            lemma_take_next(s, i as int);
            seen = s.take(i + 1).to_multiset();
            lemma_insert_counts(before, x);
            if i > 0 && s[i - 1] != x {
                lemma_fresh_after_step(s, i as int);
            }
        }
        if i > 0 && data[i - 1] == x {
            run = run + 1;
        } else {
            run = 1;
        }
        assert(run == seen.count(x));
        if run > best_count {
            best = x;
            best_count = run;
            tied = false;
        } else if run == best_count {
            assert(x != best);
            tied = true;
        } else {
            proof {
                if tied {
                    let y = choose|y: i64| y != best && #[trigger] before.count(y) == best_count;
                    assert(seen.count(y) == best_count);
                }
            }
        }
        i = i + 1;
    }
    proof {
        assert(s.take(len as int) =~= s);
        if len == 0 {
            assert forall|x: i64| !is_mode(seen, x) by {
                assert(seen.count(x) <= 0);
            }
        } else if tied {
            let y = choose|y: i64| y != best && #[trigger] seen.count(y) == best_count;
            assert forall|x: i64| !is_mode(seen, x) by {
                if is_mode(seen, x) {
                    if x == best {
                        assert(seen.count(y) < seen.count(x));
                    } else {
                        assert(seen.count(best) < seen.count(x));
                    }
                }
            }
        } else {
            assert(is_mode(seen, best));
            lemma_mode_unique(seen, best, choose|x: i64| is_mode(seen, x));
        }
    }
    if len == 0 || tied {
        None
    } else {
        Some(best)
    }
}

/// Among the first `upto` runs, `x` is the value of one of length `highest`,
/// and that length is more than one.
spec fn longest_run_before(
    values: Seq<i64>,
    counts: Seq<usize>,
    highest: usize,
    upto: int,
    x: i64,
) -> bool {
    highest > 1 && exists|b: int|
        0 <= b < upto && #[trigger] values[b] == x && counts[b] == highest
}

/// The modes of `data`, which the caller has put in ascending order, in
/// ascending order themselves.
///
/// The first pass records each run with its length and the length of the
/// longest run; the second keeps the runs of that length, provided it is
/// more than one.
pub fn modes_on_sorted(data: &[i64]) -> (r: Vec<i64>)
    requires
        ascending(data@),
    ensures
        lists_modes(data@.to_multiset(), r@),
        r@ == modes_of(data@.to_multiset()),
{
    let len: usize = data.len();
    let ghost s = data@;
    let ghost mut seen: Multiset<i64> = s.take(0).to_multiset();
    let mut values: Vec<i64> = Vec::new();
    let mut counts: Vec<usize> = Vec::new();
    let mut highest: usize = 1;
    let mut i: usize = 0;
    proof {
        lemma_nothing_taken(s);
    }
    while i < len
        invariant
            len == data.len(),
            s == data@,
            ascending(s),
            i <= len,
            seen == s.take(i as int).to_multiset(),
            values.len() == counts.len(),
            values.len() <= i,
            i > 0 ==> values.len() > 0 && values[values.len() - 1] == s[i - 1],
            strictly_ascending(values@),
            forall|j: int|
                0 <= j < values.len() ==> counts[j] == seen.count(#[trigger] values[j]) && 1
                    <= counts[j] <= i,
            forall|x: i64| #[trigger] seen.count(x) > 0 ==> values@.contains(x),
            1 <= highest,
            forall|j: int| 0 <= j < counts.len() ==> #[trigger] counts[j] <= highest,
            highest > 1 ==> exists|j: int| 0 <= j < counts.len() && #[trigger] counts[j] == highest,
        decreases len - i,
    {
        let x: i64 = data[i];
        let ghost before = seen;
        let ghost old_values = values@;
        let ghost old_counts = counts@;
        proof {
            lemma_take_next(s, i as int);
            seen = s.take(i + 1).to_multiset();
            lemma_insert_counts(before, x);
            if i > 0 && s[i - 1] != x {
                lemma_fresh_after_step(s, i as int);
            }
        }
        let n: usize = values.len();
        if n > 0 && values[n - 1] == x {
            let c: usize = counts[n - 1] + 1;
            counts.set(n - 1, c);
            if highest < c {
                highest = c;
            }
            proof {
                assert forall|y: i64| #[trigger] seen.count(y) > 0 implies values@.contains(y) by {
                    if y != x {
                        assert(before.count(y) > 0);
                    } else {
                        assert(values@[n - 1] == x);
                    }
                }
                if highest > 1 && highest != c {
                    let j = choose|j: int|
                        0 <= j < old_counts.len() && #[trigger] old_counts[j] == highest;
                    assert(counts[j] == highest);
                } else {
                    assert(counts[n - 1] == c);
                }
            }
        } else {
            values.push(x);
            counts.push(1);
            proof {
                assert(before.count(x) == 0);
                assert forall|y: i64| #[trigger] seen.count(y) > 0 implies values@.contains(y) by {
                    if y != x {
                        assert(old_values.contains(y));
                        let j = choose|j: int| 0 <= j < old_values.len() && old_values[j] == y;
                        assert(values@[j] == y);
                    } else {
                        assert(values@[n as int] == x);
                    }
                }
                assert forall|a: int, b: int| 0 <= a < b < values@.len() implies values@[a]
                    < values@[b] by {
                    if b == n {
                        assert(before.count(old_values[a]) > 0);
                        assert(s.take(i as int).contains(old_values[a])) by {
                            s.take(i as int).to_multiset_ensures();
                        }
                        let k = choose|k: int|
                            0 <= k < s.take(i as int).len() && s.take(i as int)[k] == old_values[a];
                        assert(s[k] <= s[i as int]);
                    }
                }
                if highest > 1 {
                    let j = choose|j: int|
                        0 <= j < old_counts.len() && #[trigger] old_counts[j] == highest;
                    assert(counts[j] == highest);
                }
            }
        }
        i = i + 1;
    }
    let mut modes: Vec<i64> = Vec::new();
    let runs: usize = values.len();
    let mut j: usize = 0;
    while j < runs
        invariant
            runs == values.len(),
            runs == counts.len(),
            j <= runs,
            strictly_ascending(values@),
            strictly_ascending(modes@),
            forall|a: int|
                0 <= a < modes.len() ==> longest_run_before(
                    values@,
                    counts@,
                    highest,
                    j as int,
                    #[trigger] modes[a],
                ),
            forall|b: int|
                0 <= b < j && counts[b] == highest && highest > 1 ==> modes@.contains(
                    #[trigger] values[b],
                ),
        decreases runs - j,
    {
        let ghost old_modes = modes@;
        if counts[j] == highest && highest > 1 {
            modes.push(values[j]);
            proof {
                assert forall|a: int, b: int| 0 <= a < b < modes@.len() implies modes@[a]
                    < modes@[b] by {
                    if b == old_modes.len() {
                        assert(longest_run_before(values@, counts@, highest, j as int, old_modes[a]));
                    }
                }
                assert forall|b: int|
                    0 <= b < j + 1 && counts[b] == highest && highest > 1 implies modes@.contains(
                    #[trigger] values[b],
                ) by {
                    if b < j {
                        assert(old_modes.contains(values[b]));
                        let a = choose|a: int| 0 <= a < old_modes.len() && old_modes[a] == values[b];
                        assert(modes@[a] == values[b]);
                    } else {
                        assert(modes@[old_modes.len() as int] == values[b]);
                    }
                }
                assert forall|a: int| 0 <= a < modes.len() implies longest_run_before(
                    values@,
                    counts@,
                    highest,
                    j + 1,
                    #[trigger] modes[a],
                ) by {
                    if a == old_modes.len() {
                        assert(values[j as int] == modes[a]);
                    } else {
                        assert(longest_run_before(values@, counts@, highest, j as int, old_modes[a]));
                    }
                }
            }
        } else {
            proof {
                assert forall|a: int| 0 <= a < modes.len() implies longest_run_before(
                    values@,
                    counts@,
                    highest,
                    j + 1,
                    #[trigger] modes[a],
                ) by {
                    assert(longest_run_before(values@, counts@, highest, j as int, old_modes[a]));
                }
            }
        }
        j = j + 1;
    }
    proof {
        assert(s.take(len as int) =~= s);
        assert forall|x: i64| modes@.contains(x) <==> (is_most_frequent(seen, x) && seen.count(x)
            >= 2) by {
            if modes@.contains(x) {
                let a = choose|a: int| 0 <= a < modes@.len() && modes@[a] == x;
                assert(longest_run_before(values@, counts@, highest, runs as int, modes[a]));
                let b = choose|b: int|
                    0 <= b < runs && #[trigger] values[b] == x && counts[b] == highest;
                assert(seen.count(x) == highest);
                assert forall|y: i64| seen.count(y) <= seen.count(x) by {
                    if seen.count(y) > 0 {
                        assert(values@.contains(y));
                        let c = choose|c: int| 0 <= c < values@.len() && values@[c] == y;
                        assert(counts[c] == seen.count(values[c]));
                    }
                }
            }
            if is_most_frequent(seen, x) && seen.count(x) >= 2 {
                assert(values@.contains(x));
                let b = choose|b: int| 0 <= b < values@.len() && values@[b] == x;
                assert(counts[b] == seen.count(values[b]));
                assert(counts[b] <= highest);
                let c = choose|c: int| 0 <= c < counts.len() && #[trigger] counts[c] == highest;
                assert(counts[c] == seen.count(values[c]));
                assert(modes@.contains(values[b]));
            }
        }
        lemma_modes_of(seen, modes@);
    }
    modes
}

} // verus!
