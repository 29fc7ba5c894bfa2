use wordle_ledger::ledger::LedgerMap;

#[test]
fn empty_report_text() {
    let ledger = LedgerMap::new();
    assert_eq!(ledger.render_report(), "Leaderboard is empty");
}

#[test]
fn single_score_reports_mean_equal_to_score() {
    let mut ledger = LedgerMap::new();
    assert!(ledger.record_score(1, String::from("Alice"), 100, 3));
    assert_eq!(ledger.render_report(), "1) Alice, Score: 3\n");
}

#[test]
fn duplicate_puzzle_keeps_first_score() {
    let mut ledger = LedgerMap::new();
    assert!(ledger.record_score(1, String::from("Alice"), 100, 3));
    assert!(!ledger.record_score(1, String::from("Alice"), 100, 5));
    assert_eq!(ledger.render_report(), "1) Alice, Score: 3\n");
}

#[test]
fn ranks_ascending_by_mean() {
    let mut ledger = LedgerMap::new();
    assert!(ledger.record_score(2, String::from("B"), 100, 5));
    assert!(ledger.record_score(1, String::from("A"), 100, 2));
    assert!(ledger.record_score(1, String::from("A"), 101, 4));
    // A's mean is (2 + 4) / 2 = 3, B's is 5: A ranks first.
    assert_eq!(ledger.render_report(), "1) A, Score: 3\n2) B, Score: 5\n");
}

#[test]
fn fractional_mean_one_digit() {
    let mut ledger = LedgerMap::new();
    assert!(ledger.record_score(1, String::from("Ann"), 1, 3));
    assert!(ledger.record_score(1, String::from("Ann"), 2, 4));
    assert_eq!(ledger.render_report(), "1) Ann, Score: 3.5\n");
}

#[test]
fn fractional_mean_two_digits_truncated() {
    let mut ledger = LedgerMap::new();
    assert!(ledger.record_score(1, String::from("Ann"), 1, 2));
    assert!(ledger.record_score(1, String::from("Ann"), 2, 2));
    assert!(ledger.record_score(1, String::from("Ann"), 3, 3));
    // 7 / 3 = 2.33...
    assert_eq!(ledger.render_report(), "1) Ann, Score: 2.33\n");
}

#[test]
fn display_name_fixed_by_first_record() {
    let mut ledger = LedgerMap::new();
    assert!(ledger.record_score(1, String::from("Old"), 1, 3));
    assert!(ledger.record_score(1, String::from("New"), 2, 3));
    assert_eq!(ledger.render_report(), "1) Old, Score: 3\n");
}

#[test]
fn equal_means_keep_arrival_order() {
    let mut ledger = LedgerMap::new();
    assert!(ledger.record_score(7, String::from("First"), 1, 4));
    assert!(ledger.record_score(8, String::from("Second"), 1, 4));
    assert_eq!(
        ledger.render_report(),
        "1) First, Score: 4\n2) Second, Score: 4\n"
    );
}

#[test]
fn same_puzzle_different_users_both_count() {
    let mut ledger = LedgerMap::new();
    assert!(ledger.record_score(1, String::from("A"), 100, 6));
    assert!(ledger.record_score(2, String::from("B"), 100, 1));
    assert_eq!(ledger.render_report(), "1) B, Score: 1\n2) A, Score: 6\n");
}

#[test]
fn negative_scores_render_signed_mean() {
    let mut ledger = LedgerMap::new();
    assert!(ledger.record_score(1, String::from("N"), 1, -3));
    assert_eq!(ledger.render_report(), "1) N, Score: -3\n");
}

#[test]
fn negative_fractional_mean() {
    let mut ledger = LedgerMap::new();
    assert!(ledger.record_score(1, String::from("N"), 1, -3));
    assert!(ledger.record_score(1, String::from("N"), 2, -4));
    assert_eq!(ledger.render_report(), "1) N, Score: -3.5\n");
}

#[test]
fn mean_below_one() {
    let mut ledger = LedgerMap::new();
    assert!(ledger.record_score(1, String::from("Z"), 1, 1));
    assert!(ledger.record_score(1, String::from("Z"), 2, 0));
    assert!(ledger.record_score(1, String::from("Z"), 3, 0));
    assert!(ledger.record_score(1, String::from("Z"), 4, 0));
    // 1 / 4 = 0.25
    assert_eq!(ledger.render_report(), "1) Z, Score: 0.25\n");
}
