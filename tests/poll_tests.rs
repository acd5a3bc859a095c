use folder_watcher::poll::{count_changed, reading, PollAction, Poller};

#[test]
fn add_and_remove_in_one_interval_goes_unnoticed() {
    let mut w = Poller::new(Some(3));
    // one file added and one removed before the next sample
    assert_eq!(w.observe(Some(3)), None);
    assert_eq!(w.last_count, 3);
}

#[test]
fn net_change_is_reported() {
    let mut w = Poller::new(Some(3));
    assert_eq!(w.observe(Some(4)), Some(4));
    assert_eq!(w.observe(Some(4)), None);
    assert_eq!(w.observe(Some(2)), Some(2));
}

#[test]
fn unreadable_directory_reads_as_zero() {
    assert_eq!(reading(None), 0);
    assert_eq!(reading(Some(7)), 7);
    let mut w = Poller::new(Some(2));
    assert_eq!(w.observe(None), Some(0));
}

#[test]
fn stopped_poller_reports_nothing() {
    let mut w = Poller::new(Some(1));
    assert_eq!(w.step(true, Some(5)), PollAction::Exit);
    assert_eq!(w.last_count, 1);
    assert_eq!(w.step(false, Some(5)), PollAction::Report(Some(5)));
    assert_eq!(w.step(false, Some(5)), PollAction::Report(None));
}

#[test]
fn count_comparison() {
    assert!(count_changed(3, 4));
    assert!(!count_changed(3, 3));
}
