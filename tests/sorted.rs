use rforests::dataset::{DataSet, Instance};
use rforests::svmlight::{is_data_line, parse_line};

fn number(text: &[u8]) -> f64 {
    std::str::from_utf8(text).unwrap().parse().unwrap()
}

fn load(s: &str) -> DataSet {
    let instances = s
        .lines()
        .filter(|l| is_data_line(l.as_bytes()))
        .map(|l| {
            let p = parse_line(l.as_bytes()).unwrap();
            let features: Vec<(u64, u64)> = p.features.iter().map(|(id, v)| (*id, number(v).to_bits())).collect();
            Instance::from_features(number(&p.label).to_bits(), p.qid, &features)
        })
        .collect();
    DataSet::new(instances)
}

const DATA: &str = "0 qid:1 1:3.0 2:0.0 3:1.0\n2 qid:2 1:1.0 2:1.0 3:3.0\n0 qid:3 1:0.0 2:2.0 3:2.0";

fn check_sorted_feature() {
    let dataset = load(DATA);
    assert_eq!(dataset.feature_sorted_indices(1), vec![2, 1, 0]);
    assert_eq!(dataset.feature_sorted_indices(2), vec![0, 1, 2]);
    assert_eq!(dataset.feature_sorted_indices(3), vec![0, 2, 1]);
}

#[test]
fn dataset_test_sorted_feature() {
    check_sorted_feature();
}

#[test]
fn svmlight_test_sorted_feature() {
    check_sorted_feature();
}

#[test]
fn test_feature_sorted_values() {
    let dataset = load(DATA);
    let values: Vec<f64> = dataset.feature_sorted_values(1).into_iter().map(f64::from_bits).collect();
    assert_eq!(values, vec![0.0, 1.0, 3.0]);
}

#[test]
fn feature_values_of_missing_feature_are_zero() {
    let dataset = load(DATA);
    assert_eq!(dataset.feature_value_iter(4), vec![0.0f64.to_bits(); 3]);
    assert_eq!(dataset.feature_sorted_indices(4), vec![0, 1, 2]);
}
