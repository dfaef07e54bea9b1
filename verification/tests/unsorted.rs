use streaming_stats::{
    bits_from_key, key_from_bits, median, median_on_sorted, mode, mode_on_sorted, modes,
    modes_on_sorted, quartiles, quartiles_on_sorted, Quantile, Unsorted,
};

fn keys(values: Vec<f64>) -> Vec<i64> {
    values.into_iter().map(|x| key_from_bits(x.to_bits())).collect()
}

fn unkey(key: i64) -> f64 {
    f64::from_bits(bits_from_key(key))
}

fn int_value(q: Quantile) -> f64 {
    match q {
        Quantile::At(x) => x as f64,
        Quantile::Mean(a, b) => (a as f64 + b as f64) / 2.0,
    }
}

fn float_value(q: Quantile) -> f64 {
    match q {
        Quantile::At(x) => unkey(x),
        Quantile::Mean(a, b) => (unkey(a) + unkey(b)) / 2.0,
    }
}

fn int_quartiles(v: Vec<i64>) -> Option<(f64, f64, f64)> {
    quartiles(v.into_iter()).map(|(a, b, c)| (int_value(a), int_value(b), int_value(c)))
}

fn float_quartiles(v: Vec<f64>) -> Option<(f64, f64, f64)> {
    quartiles(keys(v).into_iter()).map(|(a, b, c)| (float_value(a), float_value(b), float_value(c)))
}

#[test]
fn median_stream() {
    assert_eq!(median(vec![3i64, 5, 7, 9].into_iter()).map(int_value), Some(6.0));
    assert_eq!(median(vec![3i64, 5, 7].into_iter()).map(int_value), Some(5.0));
}

#[test]
fn mode_stream() {
    assert_eq!(mode(vec![3i64, 5, 7, 9].into_iter()), None);
    assert_eq!(mode(vec![3i64, 3, 3, 3].into_iter()), Some(3));
    assert_eq!(mode(vec![3i64, 3, 3, 4].into_iter()), Some(3));
    assert_eq!(mode(vec![4i64, 3, 3, 3].into_iter()), Some(3));
    assert_eq!(mode(vec![1i64, 1, 2, 3, 3].into_iter()), None);
}

#[test]
fn median_floats() {
    assert_eq!(median(keys(vec![3.0f64, 5.0, 7.0, 9.0]).into_iter()).map(float_value), Some(6.0));
    assert_eq!(median(keys(vec![3.0f64, 5.0, 7.0]).into_iter()).map(float_value), Some(5.0));
    assert_eq!(median(keys(vec![1.0f64, 2.5, 3.0]).into_iter()).map(float_value), Some(2.5));
}

#[test]
fn mode_floats() {
    assert_eq!(mode(keys(vec![3.0f64, 5.0, 7.0, 9.0]).into_iter()).map(unkey), None);
    assert_eq!(mode(keys(vec![3.0f64, 3.0, 3.0, 3.0]).into_iter()).map(unkey), Some(3.0));
    assert_eq!(mode(keys(vec![3.0f64, 3.0, 3.0, 4.0]).into_iter()).map(unkey), Some(3.0));
    assert_eq!(mode(keys(vec![4.0f64, 3.0, 3.0, 3.0]).into_iter()).map(unkey), Some(3.0));
    assert_eq!(mode(keys(vec![1.0f64, 1.0, 2.0, 3.0, 3.0]).into_iter()).map(unkey), None);
}

#[test]
fn modes_stream() {
    assert_eq!(modes(vec![3i64, 5, 7, 9].into_iter()), vec![]);
    assert_eq!(modes(vec![3i64, 3, 3, 3].into_iter()), vec![3]);
    assert_eq!(modes(vec![3i64, 3, 4, 4].into_iter()), vec![3, 4]);
    assert_eq!(modes(vec![4i64, 3, 3, 3].into_iter()), vec![3]);
    assert_eq!(modes(vec![1i64, 1, 2, 2].into_iter()), vec![1, 2]);
    let vec: Vec<i64> = vec![];
    assert_eq!(modes(vec.into_iter()), vec![]);
}

fn float_modes(v: Vec<f64>) -> Vec<f64> {
    modes(keys(v).into_iter()).into_iter().map(unkey).collect()
}

#[test]
fn modes_floats() {
    assert_eq!(float_modes(vec![3_f64, 5.0, 7.0, 9.0]), vec![]);
    assert_eq!(float_modes(vec![3_f64, 3.0, 3.0, 3.0]), vec![3.0]);
    assert_eq!(float_modes(vec![3_f64, 3.0, 4.0, 4.0]), vec![3.0, 4.0]);
    assert_eq!(float_modes(vec![1_f64, 1.0, 2.0, 3.0, 3.0]), vec![1.0, 3.0]);
}

#[test]
fn quartiles_stream() {
    assert_eq!(int_quartiles(vec![3i64, 5, 7]), Some((3., 5., 7.)));
    assert_eq!(int_quartiles(vec![3i64, 5, 7, 9]), Some((4., 6., 8.)));
    assert_eq!(int_quartiles(vec![1i64, 2, 7, 11]), Some((1.5, 4.5, 9.)));
    assert_eq!(int_quartiles(vec![3i64, 5, 7, 9, 12]), Some((4., 7., 10.5)));
    assert_eq!(int_quartiles(vec![2i64, 2, 3, 8, 10]), Some((2., 3., 9.)));
    assert_eq!(int_quartiles(vec![3i64, 5, 7, 9, 12, 20]), Some((5., 8., 12.)));
    assert_eq!(int_quartiles(vec![0i64, 2, 4, 8, 10, 11]), Some((2., 6., 10.)));
    assert_eq!(int_quartiles(vec![3i64, 5, 7, 9, 12, 20, 21]), Some((5., 9., 20.)));
    assert_eq!(int_quartiles(vec![1i64, 5, 6, 6, 7, 10, 19]), Some((5., 6., 10.)));
}

#[test]
fn quartiles_floats() {
    assert_eq!(float_quartiles(vec![3_f64, 5., 7.]), Some((3., 5., 7.)));
    assert_eq!(float_quartiles(vec![3_f64, 5., 7., 9.]), Some((4., 6., 8.)));
    assert_eq!(float_quartiles(vec![3_f64, 5., 7., 9., 12.]), Some((4., 7., 10.5)));
    assert_eq!(float_quartiles(vec![3_f64, 5., 7., 9., 12., 20.]), Some((5., 8., 12.)));
    assert_eq!(float_quartiles(vec![3_f64, 5., 7., 9., 12., 20., 21.]), Some((5., 9., 20.)));
}

#[test]
fn unsorted_counts_samples() {
    let mut v = Unsorted::new();
    assert!(v.is_empty());
    v.add(4);
    v.add(-2);
    v.add(4);
    assert_eq!(v.len(), 3);
    assert!(!v.is_empty());
    assert_eq!(v.cardinality(), 2);
}

#[test]
fn median_boundaries() {
    let none: Vec<i64> = vec![];
    assert_eq!(median(none.into_iter()), None);
    assert_eq!(median(vec![42i64].into_iter()), Some(Quantile::At(42)));
    assert_eq!(median(vec![9i64, 3, 7, 5].into_iter()), Some(Quantile::Mean(5, 7)));
    assert_eq!(median(vec![7i64, 3, 5].into_iter()), Some(Quantile::At(5)));
    assert_eq!(median(vec![-4i64, -10].into_iter()), Some(Quantile::Mean(-10, -4)));
}

#[test]
fn quartiles_need_three_samples() {
    let none: Vec<i64> = vec![];
    assert_eq!(quartiles(none.into_iter()), None);
    assert_eq!(quartiles(vec![1i64].into_iter()), None);
    assert_eq!(quartiles(vec![1i64, 2].into_iter()), None);
    assert_eq!(
        quartiles(vec![2i64, 1, 3].into_iter()),
        Some((Quantile::At(1), Quantile::At(2), Quantile::At(3)))
    );
}

#[test]
fn quartiles_by_remainder() {
    // 8 = 4 * 2 + 0
    assert_eq!(
        quartiles(vec![80i64, 10, 70, 20, 60, 30, 50, 40].into_iter()),
        Some((Quantile::Mean(20, 30), Quantile::Mean(40, 50), Quantile::Mean(60, 70)))
    );
    // 9 = 4 * 2 + 1
    assert_eq!(
        quartiles(vec![90i64, 80, 10, 70, 20, 60, 30, 50, 40].into_iter()),
        Some((Quantile::Mean(20, 30), Quantile::At(50), Quantile::Mean(70, 80)))
    );
    // 10 = 4 * 2 + 2
    assert_eq!(
        quartiles(vec![100i64, 90, 80, 10, 70, 20, 60, 30, 50, 40].into_iter()),
        Some((Quantile::At(30), Quantile::Mean(50, 60), Quantile::At(80)))
    );
    // 11 = 4 * 2 + 3
    assert_eq!(
        quartiles(vec![110i64, 100, 90, 80, 10, 70, 20, 60, 30, 50, 40].into_iter()),
        Some((Quantile::At(30), Quantile::At(60), Quantile::At(90)))
    );
}

#[test]
fn mode_of_one_sample_is_that_sample() {
    assert_eq!(mode(vec![5i64].into_iter()), Some(5));
    let none: Vec<i64> = vec![];
    assert_eq!(mode(none.into_iter()), None);
}

#[test]
fn mode_remembers_the_longest_run_after_a_tie() {
    assert_eq!(mode(vec![1i64, 1, 1, 2, 2, 2, 3, 3].into_iter()), None);
    assert_eq!(mode(vec![3i64, 2, 1, 3, 2, 1, 2, 1].into_iter()), None);
    assert_eq!(mode(vec![1i64, 1, 2, 2, 3, 3, 3].into_iter()), Some(3));
    assert_eq!(mode(vec![1i64, 1, 1, 2, 2, 3, 3, 3, 3].into_iter()), Some(3));
}

#[test]
fn modes_leave_out_single_samples() {
    assert_eq!(modes(vec![5i64].into_iter()), vec![]);
    assert_eq!(modes(vec![1i64, 1, 1, 2, 2, 2, 3, 3].into_iter()), vec![1, 2]);
    assert_eq!(modes(vec![2i64, 7, 2, 7, -1, -1].into_iter()), vec![-1, 2, 7]);
    assert_eq!(modes(vec![2i64, 7, 2, 7, 7].into_iter()), vec![7]);
}

#[test]
fn statistics_on_sorted_slices() {
    let data = [1i64, 2, 2, 5, 5, 5, 8];
    assert_eq!(median_on_sorted(&data), Some(Quantile::At(5)));
    assert_eq!(
        quartiles_on_sorted(&data),
        Some((Quantile::At(2), Quantile::At(5), Quantile::At(5)))
    );
    assert_eq!(mode_on_sorted(&data), Some(5));
    assert_eq!(modes_on_sorted(&data), vec![5]);
    let empty: [i64; 0] = [];
    assert_eq!(median_on_sorted(&empty), None);
    assert_eq!(quartiles_on_sorted(&empty), None);
    assert_eq!(mode_on_sorted(&empty), None);
    assert_eq!(modes_on_sorted(&empty), vec![]);
}

#[test]
fn queries_sort_what_was_added_out_of_order() {
    let mut v = Unsorted::new();
    for x in [9i64, -3, 4, 4, 0, 12, -3, 4] {
        v.add(x);
    }
    assert_eq!(v.len(), 8);
    assert_eq!(v.cardinality(), 5);
    assert_eq!(v.mode(), Some(4));
    assert_eq!(v.modes(), vec![4]);
    assert_eq!(v.median(), Some(Quantile::Mean(4, 4)));
    assert_eq!(
        v.quartiles(),
        Some((Quantile::Mean(-3, 0), Quantile::Mean(4, 4), Quantile::Mean(4, 9)))
    );
}

#[test]
fn repeated_queries_agree() {
    let mut v = Unsorted::from_iter(vec![5i64, 1, 4, 1, 3].into_iter());
    let first = (v.median(), v.quartiles(), v.mode(), v.modes(), v.cardinality());
    let second = (v.median(), v.quartiles(), v.mode(), v.modes(), v.cardinality());
    assert_eq!(first, second);
    assert_eq!(first.0, Some(Quantile::At(3)));
    v.add(1);
    assert_eq!(v.median(), Some(Quantile::Mean(1, 3)));
    assert_eq!(v.median(), Some(Quantile::Mean(1, 3)));
}

#[test]
fn merge_is_union() {
    let left = vec![7i64, 1, 7, 3];
    let right = vec![3i64, 9, 7];
    let mut merged = Unsorted::from_iter(left.clone().into_iter());
    merged.merge(Unsorted::from_iter(right.clone().into_iter()));
    let mut reversed = Unsorted::from_iter(right.into_iter());
    reversed.merge(Unsorted::from_iter(left.into_iter()));
    let mut built = Unsorted::from_iter(vec![9i64, 7, 7, 7, 3, 3, 1].into_iter());
    assert_eq!(merged.len(), 7);
    for v in [&mut merged, &mut reversed] {
        assert_eq!(v.cardinality(), built.cardinality());
        assert_eq!(v.mode(), built.mode());
        assert_eq!(v.modes(), built.modes());
        assert_eq!(v.median(), built.median());
        assert_eq!(v.quartiles(), built.quartiles());
    }
    assert_eq!(built.cardinality(), 4);
    assert_eq!(built.mode(), Some(7));
    assert_eq!(built.median(), Some(Quantile::At(7)));
}

#[test]
fn merge_with_an_empty_collection() {
    let mut v = Unsorted::from_iter(vec![2i64, 1].into_iter());
    v.merge(Unsorted::new());
    assert_eq!(v.len(), 2);
    assert_eq!(v.median(), Some(Quantile::Mean(1, 2)));
    let mut w = Unsorted::default();
    w.merge(v);
    assert_eq!(w.len(), 2);
    assert_eq!(w.median(), Some(Quantile::Mean(1, 2)));
}

#[test]
fn extend_and_clone() {
    let mut v = Unsorted::new();
    v.extend(vec![3i64, 1].into_iter());
    v.extend(vec![2i64].into_iter());
    let mut w = v.clone();
    w.add(10);
    assert_eq!(v.len(), 3);
    assert_eq!(w.len(), 4);
    assert_eq!(v.median(), Some(Quantile::At(2)));
    assert_eq!(w.median(), Some(Quantile::Mean(2, 3)));
}

#[test]
fn keys_follow_the_order_of_the_numbers() {
    let ascending = [
        f64::NEG_INFINITY,
        -1.0e300,
        -2.5,
        -1.0,
        -f64::MIN_POSITIVE,
        -0.0,
        0.0,
        f64::MIN_POSITIVE,
        1.0,
        2.5,
        1.0e300,
        f64::INFINITY,
    ];
    for pair in ascending.windows(2) {
        assert!(key_from_bits(pair[0].to_bits()) < key_from_bits(pair[1].to_bits()));
    }
    assert_eq!(key_from_bits(0.0f64.to_bits()), 0);
    assert_eq!(key_from_bits((-0.0f64).to_bits()), -1);
    assert_eq!(key_from_bits(u64::MAX), i64::MIN);
    assert_eq!(key_from_bits(0x7FFF_FFFF_FFFF_FFFF), i64::MAX);
}

#[test]
fn keys_and_bits_round_trip() {
    for x in [0.0f64, -0.0, 1.5, -1.5, f64::MAX, f64::MIN, f64::INFINITY, f64::NEG_INFINITY] {
        assert_eq!(unkey(key_from_bits(x.to_bits())).to_bits(), x.to_bits());
    }
    for bits in [0u64, 1, 0x7FF8_0000_0000_0000, 0x8000_0000_0000_0000, 0xFFF8_0000_0000_0001, u64::MAX] {
        assert_eq!(bits_from_key(key_from_bits(bits)), bits);
    }
    for key in [0i64, 1, -1, i64::MAX, i64::MIN, 12345, -12345] {
        assert_eq!(key_from_bits(bits_from_key(key)), key);
    }
}

#[test]
fn numbers_that_are_not_numbers_have_a_fixed_place() {
    let mut v = Unsorted::from_iter(keys(vec![2.0, f64::NAN, 1.0, f64::NAN, 3.0]).into_iter());
    assert_eq!(v.len(), 5);
    assert_eq!(v.cardinality(), 4);
    assert_eq!(v.median().map(float_value), Some(3.0));
    assert!(v.mode().map(unkey).unwrap().is_nan());
}

#[test]
fn sorting_twice_is_sorting_once() {
    let mut v = Unsorted::from_iter(vec![4i64, -1, 4, 0].into_iter());
    v.sort();
    assert_eq!(v.len(), 4);
    assert_eq!(v.median(), Some(Quantile::Mean(0, 4)));
    v.sort();
    v.sort();
    assert_eq!(v.median(), Some(Quantile::Mean(0, 4)));
    assert_eq!(v.modes(), vec![4]);
    v.add(-5);
    v.sort();
    assert_eq!(v.median(), Some(Quantile::At(0)));
    assert_eq!(v.cardinality(), 4);
    let mut empty = Unsorted::new();
    empty.sort();
    assert!(empty.is_empty());
    assert_eq!(empty.median(), None);
}
