use rforests::dataset::{DataSet, Instance};
use rforests::tree::{best_choice, RegressionTree, SplitChoice, TrainingSample, TreeGrower};

fn dataset(values: &[f64]) -> DataSet {
    DataSet::new(
        values
            .iter()
            .map(|v| Instance::new(0.0f64.to_bits(), 1, vec![v.to_bits()]))
            .collect(),
    )
}

fn choice(threshold: f64, score: f64) -> Option<SplitChoice> {
    Some(SplitChoice { fid: 1, threshold: threshold.to_bits(), score: score.to_bits() })
}

#[test]
fn partition_by_threshold() {
    let data = dataset(&[5.0, 7.0, 3.0, 2.0, 1.0, 8.0, 9.0, 4.0, 6.0]);
    let root = TrainingSample::all(9);
    assert_eq!(root.len(), 9);
    let (left, right) = root.partition(&data, 1, (1.0f64 + 16.0 / 3.0).to_bits());
    assert_eq!(left.indices, vec![0, 2, 3, 4, 7, 8]);
    assert_eq!(right.indices, vec![1, 5, 6]);
    let (l2, r2) = left.partition(&data, 1, (1.0f64 + 8.0 / 3.0).to_bits());
    assert_eq!(l2.indices, vec![2, 3, 4]);
    assert_eq!(r2.indices, vec![0, 7, 8]);
}

#[test]
fn grower_expands_best_first_and_partitions_root() {
    let data = dataset(&[5.0, 7.0, 3.0, 2.0, 1.0, 8.0, 9.0, 4.0, 6.0]);
    let mut g = TreeGrower::new(TrainingSample::all(9), &data, 3);
    g.set_split(0, choice(6.0, 32.0));
    let c = g.pick().unwrap();
    assert_eq!(c, 0);
    let (l, r) = g.expand(c, &data);
    assert_eq!((l, r), (0, 1));
    assert_eq!(g.open[l].sample.indices, vec![0, 2, 3, 4, 7, 8]);
    assert_eq!(g.open[r].sample.indices, vec![1, 5, 6]);
    // The right child scores higher, so it is expanded next.
    g.set_split(l, choice(3.0, 1.0));
    g.set_split(r, choice(7.0, 2.0));
    assert_eq!(g.pick(), Some(r));
    g.expand(r, &data);
    // Three leaves: the budget is spent.
    assert_eq!(g.open.len(), 3);
    assert_eq!(g.pick(), None);
    let mut all: Vec<usize> = g.open.iter().flat_map(|c| c.sample.indices.clone()).collect();
    all.sort();
    assert_eq!(all, (0..9).collect::<Vec<usize>>());
}

#[test]
fn grower_tie_breaks_by_feature_threshold_then_age() {
    let data = dataset(&[1.0, 2.0, 3.0, 4.0]);
    let mut g = TreeGrower::new(TrainingSample::all(4), &data, 10);
    g.set_split(0, choice(2.0, 5.0));
    let (l, r) = g.expand(0, &data);
    g.set_split(l, choice(1.0, 1.0));
    g.set_split(r, choice(3.0, 1.0));
    assert_eq!(g.pick(), Some(l));
    g.set_split(l, choice(3.0, 1.0));
    assert_eq!(g.pick(), Some(l));
    g.set_split(l, None);
    assert_eq!(g.pick(), Some(r));
    g.set_split(r, None);
    assert_eq!(g.pick(), None);
}

#[test]
fn tree_predicts_by_thresholds() {
    let data = dataset(&[1.0, 2.0, 3.0, 4.0]);
    let mut g = TreeGrower::new(TrainingSample::all(4), &data, 2);
    g.set_split(0, choice(2.0, 5.0));
    let (l, r) = g.expand(0, &data);
    let (ln, rn) = (g.open[l].node, g.open[r].node);
    let mut tree: RegressionTree = g.tree;
    tree.set_output(ln, (-0.5f64).to_bits());
    tree.set_output(rn, 0.25f64.to_bits());
    assert_eq!(tree.len(), 3);
    let out: Vec<f64> = data.instances.iter().map(|i| f64::from_bits(tree.predict(i))).collect();
    assert_eq!(out, vec![-0.5, -0.5, 0.25, 0.25]);
}

#[test]
fn best_choice_prefers_higher_score_then_earlier() {
    let c = |fid: usize, s: f64| SplitChoice { fid, threshold: 0.0f64.to_bits(), score: s.to_bits() };
    assert!(best_choice(&vec![]).is_none());
    assert_eq!(best_choice(&vec![c(1, 2.0), c(2, 5.0), c(3, 5.0), c(4, 1.0)]).unwrap().fid, 2);
    assert_eq!(best_choice(&vec![c(1, -1.0), c(2, -3.0)]).unwrap().fid, 1);
}
