//! Positions of the median and the quartiles in an ascending sequence.

use vstd::prelude::*;

verus! {

/// A quantile of a sample, kept exact: either one of the samples, or the
/// arithmetic mean of two neighbouring samples of the ascending order.
#[derive(Clone, Copy, Debug, PartialEq, Eq, Structural)]
pub enum Quantile {
    /// The quantile is this sample.
    At(i64),
    /// The quantile is the mean of these two samples, the smaller first.
    Mean(i64, i64),
}

/// The median of `s`, read as an ascending sequence: the middle element for
/// an odd length, the mean of the two middle elements for an even length,
/// and nothing for the empty sequence.
pub open spec fn median_at(s: Seq<i64>) -> Option<Quantile> {
    let n = s.len() as int;
    if n == 0 {
        None
    } else if n % 2 == 1 {
        Some(Quantile::At(s[n / 2]))
    } else {
        Some(Quantile::Mean(s[n / 2 - 1], s[n / 2]))
    }
}

/// The lower half of `s`: the elements before the middle, the middle
/// element itself left out when the length is odd.
pub open spec fn lower_half(s: Seq<i64>) -> Seq<i64> {
    s.take(s.len() as int / 2)
}

/// The upper half of `s`: as many elements as the lower half, from the end.
pub open spec fn upper_half(s: Seq<i64>) -> Seq<i64> {
    s.skip(s.len() as int - s.len() as int / 2)
}

/// The quartiles of `s`, read as an ascending sequence of at least three
/// elements: the medians of the lower half, of the whole and of the upper
/// half. Shorter sequences have no quartiles.
pub open spec fn quartiles_at(s: Seq<i64>) -> Option<(Quantile, Quantile, Quantile)> {
    if s.len() < 3 {
        None
    } else {
        Some((median_at(lower_half(s))->0, median_at(s)->0, median_at(upper_half(s))->0))
    }
}

/// The quartiles by position. Of `4k + r` elements in ascending order, with
/// `k` at least one, the quartiles are found from `k` alone, by one rule for
/// each remainder `r`; positions count from zero.
pub proof fn lemma_quartile_positions(s: Seq<i64>, k: int, r: int)
    requires
        k >= 1,
        0 <= r < 4,
        s.len() == 4 * k + r,
    ensures
        r == 0 ==> quartiles_at(s) == Some(
            (
                Quantile::Mean(s[k - 1], s[k]),
                Quantile::Mean(s[2 * k - 1], s[2 * k]),
                Quantile::Mean(s[3 * k - 1], s[3 * k]),
            ),
        ),
        r == 1 ==> quartiles_at(s) == Some(
            (
                Quantile::Mean(s[k - 1], s[k]),
                Quantile::At(s[2 * k]),
                Quantile::Mean(s[3 * k], s[3 * k + 1]),
            ),
        ),
        r == 2 ==> quartiles_at(s) == Some(
            (
                Quantile::At(s[k]),
                Quantile::Mean(s[2 * k], s[2 * k + 1]),
                Quantile::At(s[3 * k + 1]),
            ),
        ),
        r == 3 ==> quartiles_at(s) == Some(
            (Quantile::At(s[k]), Quantile::At(s[2 * k + 1]), Quantile::At(s[3 * k + 2])),
        ),
{
    let lo = lower_half(s);
    let hi = upper_half(s);
    if r < 2 {
        assert(lo.len() == 2 * k && hi.len() == 2 * k);
        assert(lo[k - 1] == s[k - 1] && lo[k] == s[k]);
        assert(hi[k - 1] == s[3 * k - 1 + r] && hi[k] == s[3 * k + r]);
    } else {
        assert(lo.len() == 2 * k + 1 && hi.len() == 2 * k + 1);
        assert(lo[k] == s[k]);
        assert(hi[k] == s[3 * k + r - 1]);
    }
}

/// The median of `data`, which the caller has put in ascending order.
pub fn median_on_sorted(data: &[i64]) -> (r: Option<Quantile>)
    ensures
        r == median_at(data@),
{
    let len: usize = data.len();
    if len == 0 {
        None
    } else if len % 2 == 0 {
        Some(Quantile::Mean(data[len / 2 - 1], data[len / 2]))
    } else {
        Some(Quantile::At(data[len / 2]))
    }
}

/// The quartiles of `data`, which the caller has put in ascending order.
///
/// Three elements are their own quartiles. From four elements on, with
/// `len = 4k + r`, the three positions are found from `k` alone, one rule for
/// each remainder `r`.
pub fn quartiles_on_sorted(data: &[i64]) -> (r: Option<(Quantile, Quantile, Quantile)>)
    ensures
        r == quartiles_at(data@),
{
    let len: usize = data.len();
    if len < 3 {
        return None;
    }
    if len == 3 {
        assert(lower_half(data@)[0] == data@[0] && upper_half(data@)[0] == data@[2]);
        return Some((Quantile::At(data[0]), Quantile::At(data[1]), Quantile::At(data[2])));
    }
    let r: usize = len % 4;
    let k: usize = (len - r) / 4;
    proof {
        lemma_quartile_positions(data@, k as int, r as int);
    }
    if r == 0 {
        Some(
            (
                Quantile::Mean(data[k - 1], data[k]),
                Quantile::Mean(data[2 * k - 1], data[2 * k]),
                Quantile::Mean(data[3 * k - 1], data[3 * k]),
            ),
        )
    } else if r == 1 {
        Some(
            (
                Quantile::Mean(data[k - 1], data[k]),
                Quantile::At(data[2 * k]),
                Quantile::Mean(data[3 * k], data[3 * k + 1]),
            ),
        )
    } else if r == 2 {
        Some(
            (
                Quantile::At(data[k]),
                Quantile::Mean(data[2 * k], data[2 * k + 1]),
                Quantile::At(data[3 * k + 1]),
            ),
        )
    } else {
        Some(
            (Quantile::At(data[k]), Quantile::At(data[2 * k + 1]), Quantile::At(data[3 * k + 2])),
        )
    }
}

} // verus!
