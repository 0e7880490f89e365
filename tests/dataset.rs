use rforests::dataset::{DataSet, Instance};

fn bits(v: f64) -> u64 {
    v.to_bits()
}

fn instance(label: f64, qid: u64, values: Vec<f64>) -> Instance {
    Instance::new(bits(label), qid, values.into_iter().map(bits).collect())
}

#[test]
fn test_dataset_group_by_query() {
    let data = vec![
        (3.0, 1, vec![5.0]),
        (2.0, 1, vec![7.0]),
        (3.0, 2, vec![3.0]),
        (1.0, 5, vec![2.0]),
        (0.0, 5, vec![1.0]),
        (2.0, 7, vec![8.0]),
        (4.0, 7, vec![9.0]),
        (1.0, 6, vec![4.0]),
        (0.0, 6, vec![6.0]),
    ];
    let dataset = DataSet::new(data.into_iter().map(|(l, q, v)| instance(l, q, v)).collect());
    let groups = dataset.query_iter();
    let mut iter = groups.into_iter();
    assert_eq!(iter.next(), Some((1, vec![0, 1])));
    assert_eq!(iter.next(), Some((2, vec![2])));
    assert_eq!(iter.next(), Some((5, vec![3, 4])));
    assert_eq!(iter.next(), Some((7, vec![5, 6])));
    assert_eq!(iter.next(), Some((6, vec![7, 8])));
    assert_eq!(iter.next(), None);
}

#[test]
fn dataset_test_instance_interface() {
    let instance = instance(3.0, 3333, vec![1.0, 2.0, 3.0]);

    let values: Vec<f64> = instance.values().iter().map(|&b| f64::from_bits(b)).collect();
    assert_eq!(values, vec![1.0, 2.0, 3.0]);

    assert_eq!(f64::from_bits(instance.value(1)), 1.0);
    assert_eq!(f64::from_bits(instance.value(2)), 2.0);
    assert_eq!(f64::from_bits(instance.value(3)), 3.0);
    assert_eq!(f64::from_bits(instance.value(4)), 0.0);

    assert_eq!(instance.max_feature_id(), 3);
    assert_eq!(f64::from_bits(instance.label()), 3.0);
    assert_eq!(instance.qid(), 3333);
}

#[test]
fn training_set_test_instance_interface() {
    let instance = instance(3.0, 3333, vec![1.0, 2.0, 3.0]);

    let pairs: Vec<(usize, f64)> = instance
        .values()
        .iter()
        .enumerate()
        .map(|(i, &b)| (i + 1, f64::from_bits(b)))
        .collect();
    assert_eq!(pairs, vec![(1, 1.0), (2, 2.0), (3, 3.0)]);

    assert_eq!(f64::from_bits(instance.value(1)), 1.0);
    assert_eq!(f64::from_bits(instance.value(2)), 2.0);
    assert_eq!(f64::from_bits(instance.value(3)), 3.0);
    assert_eq!(f64::from_bits(instance.value(4)), 0.0);

    assert_eq!(instance.max_feature_id(), 3);
    assert_eq!(f64::from_bits(instance.label()), 3.0);
    assert_eq!(instance.qid(), 3333);
}

#[test]
fn query_grouping_of_empty_and_single_runs() {
    let empty = DataSet::new(Vec::new());
    assert!(empty.query_iter().is_empty());
    assert_eq!(empty.nfeatures(), 0);

    let one = DataSet::new(vec![instance(1.0, 9, vec![]), instance(0.0, 9, vec![2.0, 0.5])]);
    assert_eq!(one.query_iter(), vec![(9, vec![0, 1])]);
    assert_eq!(one.nfeatures(), 2);
    assert_eq!(one.len(), 2);
}

#[test]
fn query_grouping_splits_a_qid_seen_twice() {
    let ds = DataSet::new(vec![
        instance(0.0, 4, vec![]),
        instance(0.0, 3, vec![]),
        instance(0.0, 4, vec![]),
    ]);
    assert_eq!(ds.query_iter(), vec![(4, vec![0]), (3, vec![1]), (4, vec![2])]);
}

#[test]
fn nfeatures_is_largest_feature_id() {
    let ds = DataSet::new(vec![
        instance(0.0, 1, vec![1.0]),
        instance(0.0, 1, vec![1.0, 2.0, 3.0]),
        instance(0.0, 2, vec![1.0, 2.0]),
    ]);
    assert_eq!(ds.nfeatures(), 3);
    assert_eq!(ds.get(1).max_feature_id(), 3);
}

#[test]
fn from_features_fills_gaps_and_keeps_last() {
    let inst = Instance::from_features(bits(2.0), 7, &vec![(1, bits(3.0)), (4, bits(1.5)), (1, bits(5.0))]);
    assert_eq!(inst.max_feature_id(), 4);
    assert_eq!(f64::from_bits(inst.value(1)), 5.0);
    assert_eq!(f64::from_bits(inst.value(2)), 0.0);
    assert_eq!(f64::from_bits(inst.value(3)), 0.0);
    assert_eq!(f64::from_bits(inst.value(4)), 1.5);
    assert_eq!(f64::from_bits(inst.value(5)), 0.0);
    assert_eq!(inst.qid(), 7);

    let none = Instance::from_features(bits(0.0), 1, &vec![]);
    assert_eq!(none.max_feature_id(), 0);
}
