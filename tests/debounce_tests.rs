use folder_watcher::debounce::{ChangeKind, Debouncer};

fn p(s: &str) -> Vec<u8> {
    s.as_bytes().to_vec()
}

#[test]
fn burst_within_window_emits_once_with_distinct_count() {
    let mut d = Debouncer::new(1000, 500);
    assert_eq!(d.on_event(ChangeKind::Create, &vec![p("/d/a")], 1100), None);
    assert_eq!(d.on_event(ChangeKind::Modify, &vec![p("/d/a"), p("/d/b")], 1200), None);
    assert_eq!(d.on_event(ChangeKind::Remove, &vec![p("/d/c")], 1400), None);
    assert_eq!(d.pending_count(), 3);
    assert_eq!(d.on_event(ChangeKind::Modify, &vec![p("/d/b")], 1600), Some(3));
    assert_eq!(d.pending_count(), 0);
    assert_eq!(d.last_emit, 1600);
}

#[test]
fn window_boundary_is_strict() {
    let mut d = Debouncer::new(0, 500);
    assert_eq!(d.on_event(ChangeKind::Create, &vec![p("x")], 500), None);
    assert_eq!(d.on_event(ChangeKind::Create, &vec![p("y")], 501), Some(2));
}

#[test]
fn other_events_are_ignored() {
    let mut d = Debouncer::new(0, 500);
    assert_eq!(d.on_event(ChangeKind::Other, &vec![p("x")], 10_000), None);
    assert_eq!(d.pending_count(), 0);
    assert_eq!(d.last_emit, 0);
}

#[test]
fn closing_event_with_nothing_pending_keeps_window() {
    let mut d = Debouncer::new(0, 500);
    assert_eq!(d.on_event(ChangeKind::Modify, &vec![], 600), None);
    assert_eq!(d.last_emit, 0);
    assert_eq!(d.on_event(ChangeKind::Modify, &vec![p("a")], 900), Some(1));
    assert_eq!(d.last_emit, 900);
}

#[test]
fn continuous_events_starve_emission() {
    let mut d = Debouncer::new(0, 500);
    let mut t: u64 = 100;
    while t <= 500 {
        assert_eq!(d.on_event(ChangeKind::Modify, &vec![p("f")], t), None);
        t += 100;
    }
    assert_eq!(d.pending_count(), 1);
}

#[test]
fn change_kinds_classified() {
    assert!(ChangeKind::Create.is_change());
    assert!(ChangeKind::Modify.is_change());
    assert!(ChangeKind::Remove.is_change());
    assert!(!ChangeKind::Other.is_change());
}

#[test]
fn bytes_compared_exactly() {
    assert!(folder_watcher::debounce::bytes_eq(&p("abc"), &p("abc")));
    assert!(!folder_watcher::debounce::bytes_eq(&p("abc"), &p("abd")));
    assert!(!folder_watcher::debounce::bytes_eq(&p("ab"), &p("abc")));
}
