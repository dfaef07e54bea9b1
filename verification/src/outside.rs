//! The calls this library makes into code that is not verified here. Each
//! contract below is taken on trust from the documentation or the source of
//! the function it wraps.

use vstd::prelude::*;
use rayon::slice::ParallelSliceMut;
use crate::ascending::ascending;
use crate::frequency::MAX_RESERVE;
use crate::ranking::{count_order, rank_order, ranked, ranked_by_count};

verus! {

/// The hash map of the crate `ahash`: a standard `HashMap` with that crate's
/// hasher. Nothing is known of a value of it but what the items below say.
#[verifier::external_type_specification]
#[verifier::external_body]
#[verifier::reject_recursive_types(K)]
#[verifier::reject_recursive_types(V)]
#[verifier::reject_recursive_types(S)]
pub struct ExAHashMap<K, V, S>(ahash::AHashMap<K, V, S>);

/// The hasher state of the crate `ahash`, the third parameter of its map.
#[verifier::external_type_specification]
#[verifier::external_body]
pub struct ExRandomState(ahash::RandomState);

/// What a table holds: the count stored under each key that is present.
pub uninterp spec fn table_counts(table: ahash::AHashMap<i64, u64>) -> Map<i64, u64>;

/// Wraps `AHashMap::with_capacity`.
///
/// Claimed of it: the map it returns holds nothing. The capacity is kept
/// small so that the size of the allocation cannot overflow. The first map
/// that is made seeds the hasher from the random source of the operating
/// system, and `ahash` gives up where that source fails.
#[verifier::external_body]
pub(crate) fn new_table(capacity: usize) -> (made: ahash::AHashMap<i64, u64>)
    requires
        capacity <= MAX_RESERVE,
    ensures
        forall|key: i64| !table_counts(made).contains_key(key),
{
    ahash::AHashMap::with_capacity(capacity)
}

/// Wraps `AHashMap::get`.
///
/// Claimed of it: it returns the count stored under `key`, or nothing where
/// the key is absent.
#[verifier::external_body]
pub(crate) fn table_get(table: &ahash::AHashMap<i64, u64>, key: i64) -> (count: Option<u64>)
    ensures
        count == if table_counts(*table).contains_key(key) {
            Some(table_counts(*table)[key])
        } else {
            None
        },
{
    table.get(&key).copied()
}

/// Wraps `AHashMap::insert`.
///
/// Claimed of it: afterwards `count` is stored under `key`, in place of what
/// was stored there if the key was present, and every other key is as before.
#[verifier::external_body]
pub(crate) fn table_insert(table: &mut ahash::AHashMap<i64, u64>, key: i64, count: u64)
    ensures
        table_counts(*final(table)) == table_counts(*old(table)).insert(key, count),
{
    table.insert(key, count);
}

/// Wraps `HashMap::len`, which an `AHashMap` has from the map it holds.
///
/// Claimed of it: it returns the number of keys that the map holds.
#[verifier::external_body]
pub(crate) fn table_len(table: &ahash::AHashMap<i64, u64>) -> (len: usize)
    ensures
        len == table_counts(*table).dom().len(),
{
    table.len()
}

/// `entries` lists what `counts` holds: each key once, with its count.
pub open spec fn lists_table(counts: Map<i64, u64>, entries: Seq<(i64, u64)>) -> bool {
    &&& forall|i: int, j: int|
        0 <= i < j < entries.len() ==> (#[trigger] entries[i]).0 != (#[trigger] entries[j]).0
    &&& forall|i: int|
        0 <= i < entries.len() ==> counts.contains_pair(
            (#[trigger] entries[i]).0,
            entries[i].1,
        )
    &&& forall|k: i64|
        counts.contains_key(k) ==> exists|i: int|
            0 <= i < entries.len() && (#[trigger] entries[i]).0 == k
}

/// Wraps `HashMap::iter`, which an `AHashMap` has from the map it holds, and
/// copies out the pairs that the iterator yields.
///
/// Claimed of it: it yields every key of the map once, with the count stored
/// under it. Nothing is claimed of the order in which they come.
#[verifier::external_body]
pub(crate) fn table_entries(table: &ahash::AHashMap<i64, u64>) -> (entries: Vec<(i64, u64)>)
    ensures
        lists_table(table_counts(*table), entries@),
{
    table.iter().map(|(key, count)| (*key, *count)).collect()
}

/// Wraps `sort_unstable_by` of the standard library's slices, with
/// `count_order` as the comparison.
///
/// Claimed of it: it rearranges the entries in place, so that the vector
/// holds afterwards what it held before, and no entry stands before one
/// that the comparison puts strictly before it. Entries that the comparison
/// holds equal may come in any order. `count_order` orders all entries
/// consistently, which the standard library asks of the comparison.
#[verifier::external_body]
pub(crate) fn sort_by_count(v: &mut Vec<(i64, u64)>, least: bool)
    ensures
        final(v)@.to_multiset() == old(v)@.to_multiset(),
        ranked_by_count(final(v)@, least),
{
    v.sort_unstable_by(|a, b| count_order(a, b, least));
}

/// Wraps `par_sort_unstable_by` of the crate `rayon`, with `rank_order` as
/// the comparison.
///
/// Claimed of it: it rearranges the entries in place, so that the vector
/// holds afterwards what it held before, and no entry stands before one
/// that the comparison puts strictly before it. `rank_order` is a total
/// order, which `rayon` asks of the comparison for the outcome to be
/// specified. On a long vector the sort runs on the threads of `rayon`,
/// which gives up where it cannot start them.
#[verifier::external_body]
pub(crate) fn par_sort_ranked(v: &mut Vec<(i64, u64)>, least: bool)
    ensures
        final(v)@.to_multiset() == old(v)@.to_multiset(),
        ranked(final(v)@, least),
{
    v.par_sort_unstable_by(|a, b| rank_order(a, b, least));
}

/// Wraps `sort_unstable` of the standard library's slices, on `i64`.
///
/// Claimed of it: it rearranges the elements in place, so that what the
/// vector holds afterwards is what it held before, each element as often as
/// before, and it leaves them in ascending order of `i64`.
#[verifier::external_body]
pub(crate) fn sort_ascending(v: &mut Vec<i64>)
    ensures
        final(v)@.to_multiset() == old(v)@.to_multiset(),
        ascending(final(v)@),
{
    v.sort_unstable();
}

} // verus!
