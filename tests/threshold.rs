use rforests::threshold::{best_bin, distinct_values, Cuts, ThresholdMap};

fn bits(v: &[f64]) -> Vec<u64> {
    v.iter().map(|x| x.to_bits()).collect()
}

fn floats(v: &[u64]) -> Vec<f64> {
    v.iter().map(|&b| f64::from_bits(b)).collect()
}

/// The even grid that stands for too many distinct values.
fn grid(min: u64, max: u64, count: usize) -> Vec<u64> {
    let (min, max) = (f64::from_bits(min), f64::from_bits(max));
    let step = (max - min) / count as f64;
    (0..count).map(|n| (min + n as f64 * step).to_bits()).collect()
}

fn build(values: &[f64], count: usize) -> ThresholdMap {
    let values = bits(values);
    let cuts = match ThresholdMap::cut_plan(&values, count) {
        Cuts::Values(d) => d,
        Cuts::Grid { min, max } => grid(min, max, count),
    };
    ThresholdMap::new(&values, cuts).unwrap()
}

fn check_threshold_map() {
    let values = vec![5.0, 7.0, 3.0, 2.0, 1.0, 8.0, 9.0, 4.0, 6.0];
    let map = build(&values, 3);
    assert_eq!(
        floats(&map.thresholds),
        vec![
            1.0 + 0.0 * 8.0 / 3.0,
            1.0 + 1.0 * 8.0 / 3.0,
            1.0 + 2.0 * 8.0 / 3.0,
            f64::INFINITY,
        ]
    );
    assert_eq!(map.map, vec![2, 3, 1, 1, 0, 3, 3, 2, 2]);
}

#[test]
fn dataset_test_threshold_map() {
    check_threshold_map();
}

#[test]
fn training_set_test_threshold_map() {
    check_threshold_map();
}

#[test]
fn few_distinct_values_become_the_thresholds() {
    let map = build(&[2.0, 1.0, 2.0, 3.0], 3);
    assert_eq!(floats(&map.thresholds), vec![1.0, 2.0, 3.0, f64::INFINITY]);
    assert_eq!(map.map, vec![1, 0, 1, 2]);
    assert_eq!(map.len(), 4);
    assert_eq!(map.bin(3), 2);
}

#[test]
fn distinct_values_sorted_and_deduplicated() {
    let d = distinct_values(&bits(&[3.0, 1.0, 3.0, -2.0, 1.0]));
    assert_eq!(floats(&d), vec![-2.0, 1.0, 3.0]);
    assert!(distinct_values(&vec![]).is_empty());
    assert_eq!(distinct_values(&bits(&[0.0, -0.0])).len(), 1);
}

#[test]
fn cut_plan_asks_for_a_grid_past_the_budget() {
    let values = bits(&[5.0, 7.0, 3.0, 2.0, 1.0]);
    match ThresholdMap::cut_plan(&values, 4) {
        Cuts::Grid { min, max } => {
            assert_eq!(f64::from_bits(min), 1.0);
            assert_eq!(f64::from_bits(max), 7.0);
        }
        Cuts::Values(_) => panic!("expected a grid"),
    }
    match ThresholdMap::cut_plan(&values, 5) {
        Cuts::Values(d) => assert_eq!(floats(&d), vec![1.0, 2.0, 3.0, 5.0, 7.0]),
        Cuts::Grid { .. } => panic!("expected the values"),
    }
}

#[test]
fn threshold_map_rejects_bad_input() {
    let values = bits(&[1.0, 2.0]);
    assert!(ThresholdMap::new(&values, bits(&[2.0, 1.0])).is_none());
    assert!(ThresholdMap::new(&values, bits(&[f64::NAN])).is_none());
    assert!(ThresholdMap::new(&bits(&[1.0, f64::NAN]), bits(&[1.0])).is_none());
    let empty = ThresholdMap::new(&values, vec![]).unwrap();
    assert_eq!(empty.map, vec![0, 0]);
}

#[test]
fn histogram_counts_are_cumulative() {
    // Targets equal to the feature values give sum 45 and sum of squares
    // 285 in the last bin; the counts part is the library's.
    let values = vec![5.0, 7.0, 3.0, 2.0, 1.0, 8.0, 9.0, 4.0, 6.0];
    let map = build(&values, 3);
    let ids: Vec<usize> = (0..9).collect();
    assert_eq!(map.counts(&ids), vec![1, 3, 6, 9]);
    assert_eq!(map.counts(&vec![1, 5, 6]), vec![0, 0, 0, 3]);
    assert_eq!(map.counts(&vec![]), vec![0, 0, 0, 0]);
    let (sum, sum_sq): (f64, f64) = values.iter().fold((0.0, 0.0), |(s, q), v| (s + v, q + v * v));
    assert_eq!((sum, sum_sq), (45.0, 285.0));
}

#[test]
fn test_feature_histogram() {
    // (original index, value), sorted by value.
    let sorted_values_with_indices = vec![
        (4, 1.0),
        (3, 2.0),
        (2, 3.0),
        (7, 4.0),
        (0, 5.0),
        (8, 6.0),
        (1, 7.0),
        (5, 8.0),
        (6, 9.0),
    ];
    let mut values = vec![0.0; 9];
    for &(i, v) in sorted_values_with_indices.iter() {
        values[i] = v;
    }
    let map = build(&values, 3);
    let ids: Vec<usize> = (0..9).collect();
    let counts = map.counts(&ids);
    let mut sums = vec![0.0; map.len()];
    for &id in ids.iter() {
        sums[map.bin(id)] += values[id];
    }
    for j in 1..sums.len() {
        sums[j] += sums[j - 1];
    }
    let bins: Vec<(f64, usize, f64)> = (0..map.len())
        .map(|j| (f64::from_bits(map.thresholds[j]), counts[j], sums[j]))
        .collect();
    assert_eq!(
        bins,
        vec![
            (1.0 + 0.0 * 8.0 / 3.0, 1, 1.0),
            (1.0 + 1.0 * 8.0 / 3.0, 3, 6.0),
            (1.0 + 2.0 * 8.0 / 3.0, 6, 21.0),
            (f64::INFINITY, 9, 45.0),
        ]
    );
}

#[test]
fn best_bin_respects_leaf_size_and_ties() {
    let counts = vec![1, 3, 6, 9];
    let s = |v: &[f64]| bits(v);
    assert_eq!(best_bin(&counts, &s(&[4.0, 9.0, 9.0, 0.0]), 1), Some(1));
    assert_eq!(best_bin(&counts, &s(&[4.0, 9.0, 9.0, 0.0]), 4), None);
    assert_eq!(best_bin(&counts, &s(&[4.0, 1.0, 2.0, 0.0]), 3), Some(2));
    assert_eq!(best_bin(&counts, &s(&[4.0, 3.0, 2.0, 0.0]), 3), Some(1));
    assert_eq!(best_bin(&counts, &s(&[4.0, 1.0, 2.0, 0.0]), 1), Some(0));
    assert_eq!(best_bin(&vec![], &vec![], 1), None);
    assert_eq!(best_bin(&vec![5], &s(&[1.0]), 1), None);
}

#[test]
fn counts_match_values_at_or_below_threshold() {
    let values = vec![5.0, 7.0, 3.0, 2.0, 1.0, 8.0, 9.0, 4.0, 6.0];
    let map = build(&values, 3);
    let ids = vec![0, 2, 3, 4, 7, 8];
    let counts = map.counts(&ids);
    for j in 0..map.len() {
        let t = f64::from_bits(map.thresholds[j]);
        assert_eq!(counts[j], ids.iter().filter(|&&i| values[i] <= t).count());
    }
}
