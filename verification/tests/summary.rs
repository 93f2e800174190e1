use torrent_combine::merger::GroupStatus;
use torrent_combine::summary::{summarize, RunSummary};

#[test]
fn test_new_summary_is_zero() {
    let s = RunSummary::new();
    assert_eq!(s.processed, 0);
    assert_eq!(s.merged, 0);
    assert_eq!(s.skipped, 0);
}

#[test]
fn test_record_counts() {
    let mut s = RunSummary::new();
    s.record(GroupStatus::Merged);
    s.record(GroupStatus::Skipped);
    s.record(GroupStatus::Failed);
    s.record(GroupStatus::Merged);
    assert_eq!(s.processed, 4);
    assert_eq!(s.merged, 2);
    assert_eq!(s.skipped, 1);
}

#[test]
fn test_summarize_counts() {
    let outcomes = vec![
        GroupStatus::Merged,
        GroupStatus::Skipped,
        GroupStatus::Failed,
        GroupStatus::Merged,
    ];
    let s = summarize(&outcomes);
    assert_eq!(s.processed, 4);
    assert_eq!(s.merged, 2);
    assert_eq!(s.skipped, 1);
}

#[test]
fn test_summarize_order_independent() {
    let one = vec![
        GroupStatus::Merged,
        GroupStatus::Skipped,
        GroupStatus::Failed,
        GroupStatus::Merged,
        GroupStatus::Skipped,
    ];
    let other = vec![
        GroupStatus::Skipped,
        GroupStatus::Merged,
        GroupStatus::Skipped,
        GroupStatus::Merged,
        GroupStatus::Failed,
    ];
    assert_eq!(summarize(&one), summarize(&other));
}
