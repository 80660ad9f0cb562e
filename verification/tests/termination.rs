use greyjack::termination::ScoreNoImprovement;

#[test]
fn new_clock_is_not_started() {
    let t = ScoreNoImprovement::new(100, 0u64);
    assert_eq!(t.limit_milliseconds, 100);
    assert_eq!(t.start_time, -1);
    assert_eq!(t.time_delta, 0);
    assert_eq!(t.current_best_score, 0);
    assert!(!t.is_accomplish());
}

#[test]
fn first_update_starts_clock_and_takes_score() {
    let mut t = ScoreNoImprovement::new(100, 0u64);
    t.update_at(50, false, 1000);
    assert_eq!(t.start_time, 1000);
    assert_eq!(t.current_best_score, 50);
    assert_eq!(t.time_delta, 0);
}

#[test]
fn no_improvement_measures_time_since_last_improvement() {
    let mut t = ScoreNoImprovement::new(100, 0u64);
    t.update_at(50, false, 1000);
    t.update_at(60, false, 1040);
    assert_eq!(t.time_delta, 40);
    assert_eq!(t.current_best_score, 50);
    assert!(!t.is_accomplish());
}

#[test]
fn improvement_restarts_clock() {
    let mut t = ScoreNoImprovement::new(100, 0u64);
    t.update_at(50, false, 1000);
    t.update_at(60, false, 1090);
    t.update_at(40, true, 1095);
    assert_eq!(t.start_time, 1095);
    assert_eq!(t.time_delta, 0);
    assert_eq!(t.current_best_score, 40);
}

#[test]
fn reaching_limit_accomplishes_and_freezes() {
    let mut t = ScoreNoImprovement::new(100, 0u64);
    t.update_at(50, false, 1000);
    t.update_at(50, false, 1100);
    assert!(t.is_accomplish());
    assert_eq!(t.time_delta, 100);
    t.update_at(10, true, 5000);
    assert_eq!(t.current_best_score, 50);
    assert_eq!(t.start_time, 1000);
    assert_eq!(t.time_delta, 100);
}

#[test]
fn update_with_clock_starts_clock() {
    let mut t = ScoreNoImprovement::new(1_000_000, 0u64);
    t.update(7, false);
    assert!(t.start_time > 0);
    assert_eq!(t.current_best_score, 7);
    assert!(!t.is_accomplish());
}
