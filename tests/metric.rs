use rforests::metric::DCGScorer;

#[test]
fn dcg_scorer_truncation() {
    let dcg = DCGScorer::new(10);
    assert_eq!(dcg.get_k(), 10);
    assert_eq!(dcg.scored_len(3), 3);
    assert_eq!(DCGScorer::new(2).scored_len(3), 2);
    assert_eq!(DCGScorer::new(0).scored_len(5), 5);
}
