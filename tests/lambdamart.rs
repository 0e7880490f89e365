use rforests::lambdamart::{check_config, BestScore, ConfigError, TrainingRun};

fn b(v: f64) -> u64 {
    v.to_bits()
}

#[test]
fn best_score_tracks_validation() {
    let mut best = BestScore::new("NDCG@10".to_string());
    assert_eq!(best.best_iter(), None);
    best.update(0, b(0.5), Some(b(0.4)));
    assert_eq!(best.best_iter(), Some(0));
    best.update(1, b(0.6), Some(b(0.3)));
    assert_eq!(best.best_iter(), Some(0));
    best.update(2, b(0.7), Some(b(0.45)));
    assert_eq!(best.best_iter(), Some(2));
    assert_eq!(best.train, Some(b(0.7)));
}

#[test]
fn best_score_without_validation() {
    let mut best = BestScore::new("NDCG@10".to_string());
    best.update(0, b(0.5), None);
    best.update(1, b(0.7), None);
    best.update(2, b(0.6), None);
    assert_eq!(best.iter, Some(1));
    assert_eq!(best.best_iter(), None);
}

#[test]
fn early_stop_keeps_trees_up_to_best() {
    let mut run = TrainingRun::new(10, 2, "NDCG@10".to_string());
    let validation = [0.1, 0.3, 0.2, 0.2, 0.25, 0.9];
    let mut kept = None;
    let mut iterations = 0;
    for v in validation.iter() {
        assert!(run.has_next());
        iterations += 1;
        if let Some(keep) = run.record(b(0.5), Some(b(*v))) {
            kept = Some(keep);
            break;
        }
    }
    // Best at iteration 1; iteration 4 is more than 2 past it.
    assert_eq!(iterations, 5);
    assert_eq!(kept, Some(2));
    assert_eq!(run.ensemble_len(), 2);
    assert!(!run.has_next());
}

#[test]
fn no_early_stop_without_validation() {
    let mut run = TrainingRun::new(4, 0, "NDCG@10".to_string());
    let mut n = 0;
    while run.has_next() {
        assert_eq!(run.record(b(1.0 - n as f64), None), None);
        n += 1;
    }
    assert_eq!(n, 4);
    assert_eq!(run.ensemble_len(), 4);
    assert_eq!(run.best().best_iter(), None);
}

#[test]
fn config_errors() {
    assert_eq!(check_config(10, 256, 1), Ok(()));
    assert_eq!(check_config(0, 256, 1), Err(ConfigError::MaxLeaves));
    assert_eq!(check_config(10, 1, 1), Err(ConfigError::Thresholds));
    assert_eq!(check_config(10, 256, 0), Err(ConfigError::MinLeafSamples));
    assert_eq!(check_config(0, 0, 0), Err(ConfigError::MaxLeaves));
}
