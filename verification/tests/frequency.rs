use streaming_stats::Frequencies;

#[test]
fn ranked() {
    let mut counts = Frequencies::new();
    counts.extend(vec![1i64, 1, 2, 2, 2, 2, 2, 3, 4, 4, 4].into_iter());
    let (most_count, most_total) = counts.most_frequent();
    assert_eq!(most_count[0], (2, 5));
    assert_eq!(most_total, 11);
    let (least_count, least_total) = counts.least_frequent();
    assert_eq!(least_count[0], (3, 1));
    assert_eq!(least_total, 11);
}

#[test]
fn ranked2() {
    let mut counts = Frequencies::new();
    counts.extend(vec![1i64, 1, 2, 2, 2, 2, 2, 3, 4, 4, 4].into_iter());
    let (most_count, most_total) = counts.par_frequent(false);
    assert_eq!(most_count[0], (2, 5));
    assert_eq!(most_total, 11);
    let (least_count, least_total) = counts.par_frequent(true);
    assert_eq!(least_count[0], (3, 1));
    assert_eq!(least_total, 11);
}

#[test]
fn unique_values() {
    let freqs = Frequencies::from_iter(vec![8i64, 6, 5, 1, 1, 2, 2, 2, 3, 4, 7, 4, 4].into_iter());
    let mut pass = freqs.unique_values();
    let mut unique: Vec<i64> = Vec::new();
    while let Some(v) = pass.next() {
        unique.push(v);
    }
    unique.sort_unstable();
    assert_eq!(unique, vec![1, 2, 3, 4, 5, 6, 7, 8]);
    assert_eq!(pass.next(), None);
}

#[test]
fn counts_and_cardinality() {
    let mut freqs = Frequencies::new();
    assert!(freqs.is_empty());
    assert_eq!(freqs.count(&7), 0);
    assert_eq!(freqs.mode(), None);
    freqs.add(7);
    assert_eq!(freqs.mode(), Some(7));
    freqs.add(-3);
    assert_eq!(freqs.mode(), None);
    freqs.add(7);
    assert!(!freqs.is_empty());
    assert_eq!(freqs.count(&7), 2);
    assert_eq!(freqs.count(&-3), 1);
    assert_eq!(freqs.count(&0), 0);
    assert_eq!(freqs.cardinality(), 2);
    assert_eq!(freqs.len(), 2);
    assert_eq!(freqs.mode(), Some(7));
}

#[test]
fn par_frequent_breaks_ties_by_value() {
    let freqs = Frequencies::from_iter(vec![9i64, 4, 4, 1, 9, 6, 1, 2].into_iter());
    let (most, total) = freqs.par_frequent(false);
    assert_eq!(most, vec![(1, 2), (4, 2), (9, 2), (2, 1), (6, 1)]);
    assert_eq!(total, 8);
    let (least, total) = freqs.par_frequent(true);
    assert_eq!(least, vec![(2, 1), (6, 1), (1, 2), (4, 2), (9, 2)]);
    assert_eq!(total, 8);
}

#[test]
fn merge_adds_counts() {
    let mut a = Frequencies::from_iter(vec![1i64, 1, 2].into_iter());
    let b = Frequencies::from_iter(vec![2i64, 3, 3, 3].into_iter());
    a.merge(b);
    let whole = Frequencies::from_iter(vec![1i64, 1, 2, 2, 3, 3, 3].into_iter());
    assert_eq!(a.par_frequent(false), whole.par_frequent(false));
    assert_eq!(a.count(&2), 2);
    assert_eq!(a.count(&3), 3);
    assert_eq!(a.cardinality(), 3);
    assert_eq!(a.mode(), Some(3));
}

#[test]
fn tables_record_the_room_they_asked_for() {
    assert_eq!(Frequencies::new().reserved(), 10_000);
    assert_eq!(Frequencies::default().reserved(), 10_000);
    assert_eq!(Frequencies::with_capacity(0).reserved(), 0);
    assert_eq!(Frequencies::with_capacity(1).reserved(), 1);
    assert_eq!(Frequencies::with_capacity(1 << 20).reserved(), 1 << 20);
    assert_eq!(Frequencies::with_capacity((1 << 20) + 1).reserved(), 1 << 20);
    assert_eq!(Frequencies::with_capacity(usize::MAX).reserved(), 1 << 20);
    let mut freqs = Frequencies::with_capacity(3);
    for v in 0..100 {
        freqs.add(v);
    }
    assert_eq!(freqs.reserved(), 3);
    assert_eq!(freqs.cardinality(), 100);
    assert_eq!(freqs.clone().reserved(), 3);
    freqs.merge(Frequencies::with_capacity(7));
    assert_eq!(freqs.reserved(), 3);
    assert_eq!(Frequencies::from_iter(vec![1i64].into_iter()).reserved(), 10_000);
}

#[test]
fn with_capacity_is_a_hint() {
    let mut freqs = Frequencies::with_capacity(usize::MAX);
    freqs.add(5);
    assert_eq!(freqs.count(&5), 1);
    let mut small = Frequencies::with_capacity(0);
    small.add(5);
    small.add(6);
    assert_eq!(small.cardinality(), 2);
}
