use url2md::{worker_count, Outcome, Stats};

#[test]
fn stats_start_at_zero() {
    let s = Stats::new();
    assert_eq!(s.files_processed(), 0);
    assert_eq!(s.files_succeeded(), 0);
    assert_eq!(s.files_skipped(), 0);
    assert_eq!(s.files_failed(), 0);
    assert_eq!(s.exit_code(), 0);
}

#[test]
fn stats_count_each_outcome() {
    let mut s = Stats::new();
    s.record(Outcome::Succeeded);
    s.record(Outcome::Succeeded);
    s.record(Outcome::Skipped);
    assert_eq!(s.files_processed(), 3);
    assert_eq!(s.files_succeeded(), 2);
    assert_eq!(s.files_skipped(), 1);
    assert_eq!(s.files_failed(), 0);
    assert_eq!(s.exit_code(), 0);
    s.record(Outcome::Failed);
    assert_eq!(s.files_processed(), 4);
    assert_eq!(
        s.files_processed(),
        s.files_succeeded() + s.files_skipped() + s.files_failed()
    );
    assert_eq!(s.exit_code(), 1);
}

#[test]
fn worker_count_is_capped_by_files() {
    assert_eq!(worker_count(8, 3), 3);
    assert_eq!(worker_count(1, 3), 1);
    assert_eq!(worker_count(0, 3), 0);
}

#[test]
fn stats_count_many_files() {
    let mut s = Stats::new();
    let outcomes = [
        Outcome::Failed,
        Outcome::Succeeded,
        Outcome::Skipped,
        Outcome::Succeeded,
        Outcome::Succeeded,
    ];
    for o in outcomes {
        s.record(o);
    }
    assert_eq!(s.files_processed(), 5);
    assert_eq!(s.files_succeeded(), 3);
    assert_eq!(s.files_skipped(), 1);
    assert_eq!(s.files_failed(), 1);
    assert_eq!(s.exit_code(), 1);
}
