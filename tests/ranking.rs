use rforests::ranking::{lambda_pairs, rank_by_scores};

fn bits(v: &[f64]) -> Vec<u64> {
    v.iter().map(|x| x.to_bits()).collect()
}

#[test]
fn ranking_is_descending_and_stable() {
    let scores = bits(&[0.5, 2.0, 0.5, -1.0, 2.0]);
    assert_eq!(rank_by_scores(&vec![0, 1, 2, 3, 4], &scores), vec![1, 4, 0, 2, 3]);
    assert_eq!(rank_by_scores(&vec![3, 2], &scores), vec![2, 3]);
    assert!(rank_by_scores(&vec![], &scores).is_empty());
}

#[test]
fn equal_scores_keep_index_order() {
    let scores = bits(&[0.0; 5]);
    assert_eq!(rank_by_scores(&vec![2, 3, 4], &scores), vec![2, 3, 4]);
}

#[test]
fn pairs_with_strictly_better_label() {
    let labels = bits(&[3.0, 2.0, 3.0, 1.0]);
    assert_eq!(
        lambda_pairs(&labels, 10),
        vec![(0, 1), (0, 3), (1, 3), (2, 1), (2, 3)]
    );
}

#[test]
fn pairs_past_truncation_are_skipped() {
    let labels = bits(&[0.0, 1.0, 2.0, 3.0]);
    assert_eq!(lambda_pairs(&labels, 1), vec![(1, 0), (2, 0), (2, 1), (3, 0), (3, 1)]);
    assert_eq!(lambda_pairs(&bits(&[1.0, 1.0]), 10), vec![]);
    assert_eq!(
        lambda_pairs(&labels, 0),
        vec![(1, 0), (2, 0), (2, 1), (3, 0), (3, 1), (3, 2)]
    );
}
