use streaming_stats::{merge_all, Commute, Frequencies, Quantile, Unsorted};

fn table(samples: &[i64]) -> Frequencies {
    Frequencies::from_iter(samples.to_vec().into_iter())
}

fn ranking(f: &Frequencies) -> (Vec<(i64, u64)>, u64) {
    f.par_frequent(false)
}

#[test]
fn merging_tables_is_commutative() {
    let mut ab = table(&[1, 2, 2, 5]);
    ab.merge(table(&[2, 5, 5, 8]));
    let mut ba = table(&[2, 5, 5, 8]);
    ba.merge(table(&[1, 2, 2, 5]));
    assert_eq!(ranking(&ab), ranking(&ba));
    assert_eq!(ranking(&ab), (vec![(2, 3), (5, 3), (1, 1), (8, 1)], 8));
}

#[test]
fn merging_tables_is_associative() {
    let (a, b, c) = ([4i64, 4, 1], [1i64, 9], [9i64, 9, 4, 0]);
    let mut left = table(&a);
    left.merge(table(&b));
    left.merge(table(&c));
    let mut bc = table(&b);
    bc.merge(table(&c));
    let mut right = table(&a);
    right.merge(bc);
    assert_eq!(ranking(&left), ranking(&right));
    assert_eq!(ranking(&left), ranking(&table(&[0, 1, 1, 4, 4, 4, 9, 9, 9])));
}

#[test]
fn merging_shards_gives_the_whole() {
    let whole = [6i64, 3, 6, 1, 3, 6, 8, 8, 2];
    let shards = vec![table(&[6, 3]), table(&[]), table(&[6, 1, 3, 6]), table(&[8, 8, 2])];
    let merged = merge_all(shards.into_iter()).unwrap();
    assert_eq!(ranking(&merged), ranking(&table(&whole)));
    assert_eq!(merged.count(&6), 3);
    assert_eq!(merged.cardinality(), 5);
    let reordered = vec![table(&[8, 8, 2]), table(&[6, 1, 3, 6]), table(&[6, 3])];
    assert_eq!(ranking(&merge_all(reordered.into_iter()).unwrap()), ranking(&table(&whole)));
}

#[test]
fn merge_all_of_nothing() {
    let none: Vec<Frequencies> = vec![];
    assert!(merge_all(none.into_iter()).is_none());
    let none: Vec<Unsorted> = vec![];
    assert!(merge_all(none.into_iter()).is_none());
}

#[test]
fn merge_all_of_collections() {
    let shards = vec![
        Unsorted::from_iter(vec![5i64, 1].into_iter()),
        Unsorted::from_iter(vec![3i64].into_iter()),
        Unsorted::from_iter(vec![4i64, 2, 3].into_iter()),
    ];
    let mut all = merge_all(shards.into_iter()).unwrap();
    assert_eq!(all.len(), 6);
    assert_eq!(all.median(), Some(Quantile::Mean(3, 3)));
    assert_eq!(all.mode(), Some(3));
}

fn merged_through_the_trait<A: Commute>(mut a: A, b: A) -> A {
    Commute::merge(&mut a, b);
    a
}

#[test]
fn merge_through_the_trait() {
    let f = merged_through_the_trait(table(&[1, 1]), table(&[1, 2]));
    assert_eq!(f.count(&1), 3);
    assert_eq!(f.count(&2), 1);
    let mut u = merged_through_the_trait(
        Unsorted::from_iter(vec![1i64, 1].into_iter()),
        Unsorted::from_iter(vec![1i64, 2].into_iter()),
    );
    assert_eq!(u.cardinality(), 2);
    assert_eq!(u.mode(), Some(1));
}

#[test]
fn counts_of_the_unique_values_add_up() {
    let samples = [3i64, 3, -7, 0, 3, 0, 12, -7, -7, -7];
    let f = table(&samples);
    let mut pass = f.unique_values();
    let mut sum = 0u64;
    let mut distinct = 0u64;
    while let Some(v) = pass.next() {
        sum += f.count(&v);
        distinct += 1;
    }
    assert_eq!(sum, samples.len() as u64);
    assert_eq!(distinct, f.cardinality());
    assert_eq!(f.cardinality(), 4);
    assert_eq!(f.most_frequent().1, 10);
    assert_eq!(f.least_frequent().1, 10);
}

#[test]
fn a_clone_counts_on_its_own() {
    let f = table(&[1, 2, 2]);
    let mut g = f.clone();
    g.add(1);
    g.add(1);
    assert_eq!(f.mode(), Some(2));
    assert_eq!(g.mode(), Some(1));
    assert_eq!(f.count(&1), 1);
    assert_eq!(g.count(&1), 3);
    assert_eq!(ranking(&f), (vec![(2, 2), (1, 1)], 3));
}

#[test]
fn frequent_rankings_are_ordered_by_count() {
    let f = table(&[5, 5, 5, 1, 1, 9, 2, 2, 2, 2]);
    let (most, _) = f.most_frequent();
    let counts: Vec<u64> = most.iter().map(|e| e.1).collect();
    assert_eq!(counts, vec![4, 3, 2, 1]);
    let (least, _) = f.least_frequent();
    assert_eq!(least, vec![(9, 1), (1, 2), (5, 3), (2, 4)]);
    let empty = Frequencies::default();
    assert_eq!(empty.most_frequent(), (vec![], 0));
    assert_eq!(empty.par_frequent(true), (vec![], 0));
    assert!(empty.unique_values().next().is_none());
}

#[test]
fn table_mode_ties() {
    assert_eq!(table(&[3, 5, 7, 9]).mode(), None);
    assert_eq!(table(&[3, 3, 3, 4]).mode(), Some(3));
    assert_eq!(table(&[1, 1, 2, 3, 3]).mode(), None);
    assert_eq!(table(&[1, 1, 1, 2, 2, 2, 3, 3]).mode(), None);
    assert_eq!(table(&[]).mode(), None);
}
