use greyjack::late_acceptance::LateScores;

fn kept(l: &LateScores<i64>) -> Vec<i64> {
    l.late_scores.iter().copied().collect()
}

#[test]
fn compares_with_current_while_nothing_is_kept() {
    let l: LateScores<i64> = LateScores::new(3);
    assert_eq!(*l.score_to_compare(&17), 17);
    assert!(l.late_scores.is_empty());
}

#[test]
fn compares_with_oldest_kept_score() {
    let mut l = LateScores::new(3);
    l.accept(5);
    l.accept(4);
    assert_eq!(*l.score_to_compare(&1), 5);
}

#[test]
fn keeps_last_size_scores_newest_first() {
    let mut l = LateScores::new(3);
    for s in [9, 8, 7, 6, 5] {
        l.accept(s);
    }
    assert_eq!(kept(&l), vec![5, 6, 7]);
    assert_eq!(*l.score_to_compare(&0), 7);
}

#[test]
fn size_zero_keeps_nothing() {
    let mut l = LateScores::new(0);
    l.accept(3);
    assert!(l.late_scores.is_empty());
    assert_eq!(*l.score_to_compare(&2), 2);
}

#[test]
fn step_incremental_applies_deltas_only_when_accepted() {
    let mut l = LateScores::new(2);
    let mut sample = vec![1.0, 2.0, 3.0];
    let deltas = vec![(0usize, 10.0), (2usize, 30.0)];
    assert!(!l.step_incremental(&mut sample, &deltas, 50i64, false));
    assert_eq!(sample, vec![1.0, 2.0, 3.0]);
    assert!(l.late_scores.is_empty());
    assert!(l.step_incremental(&mut sample, &deltas, 40i64, true));
    assert_eq!(sample, vec![10.0, 2.0, 30.0]);
    assert_eq!(kept(&l), vec![40]);
}
