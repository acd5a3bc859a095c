use folder_watcher::registry::{Registry, TriggerMessage, WatchedEntry, DEFAULT_COMMAND};

fn entry(path: &str, cmds: &[&str], watching: bool) -> WatchedEntry {
    WatchedEntry {
        id: 0,
        path: path.to_string(),
        commands: cmds.iter().map(|c| c.to_string()).collect(),
        is_watching: watching,
        last_triggered: None,
    }
}

fn flags(r: &Registry<u32>) -> Vec<bool> {
    r.entries.iter().map(|e| e.is_watching).collect()
}

#[test]
fn new_registry_has_one_default_entry() {
    let r: Registry<u32> = Registry::new();
    assert_eq!(r.len(), 1);
    assert_eq!(r.entries[0].path, "");
    assert_eq!(r.entries[0].commands, vec![DEFAULT_COMMAND.to_string()]);
    assert!(!r.entries[0].is_watching);
    assert!(!r.all_watching);
    assert_eq!(r.entries[0].last_triggered, None);
    assert_eq!(r.handles, vec![None]);
    let d = WatchedEntry::default();
    assert_eq!(d.commands.len(), 1);
}

#[test]
fn second_start_is_refused() {
    let mut r: Registry<u32> = Registry::new();
    assert_eq!(r.start(0, 11), None);
    assert!(r.entries[0].is_watching);
    assert_eq!(r.start(0, 22), Some(22));
    assert_eq!(r.handles[0], Some(11));
    let live = r.handles.iter().filter(|h| h.is_some()).count();
    assert_eq!(live, 1);
}

#[test]
fn start_out_of_range_hands_back() {
    let mut r: Registry<u32> = Registry::new();
    assert_eq!(r.start(5, 1), Some(1));
    assert!(!r.entries[0].is_watching);
}

#[test]
fn stop_releases_the_handle() {
    let mut r: Registry<u32> = Registry::new();
    r.start(0, 7);
    assert_eq!(r.stop(0), Some(7));
    assert_eq!(r.handles[0], None);
    assert!(!r.entries[0].is_watching);
    assert_eq!(r.stop(0), None);
}

#[test]
fn remove_watching_entry_leaves_no_handle() {
    let mut r: Registry<u32> = Registry::new();
    r.add_entry();
    r.start(0, 1);
    r.start(1, 2);
    assert_eq!(r.remove(0), Some(1));
    assert_eq!(r.len(), 1);
    assert_eq!(r.handles, vec![Some(2)]);
    assert!(r.entries[0].is_watching);
}

#[test]
fn stop_all_then_start_all_restores_watching_entries() {
    let mut r: Registry<u32> = Registry::new();
    r.add_entry();
    r.add_entry();
    r.start(0, 10);
    r.start(2, 12);
    let released = r.stop_all();
    assert_eq!(released, vec![10, 12]);
    assert_eq!(flags(&r), vec![false, false, false]);
    let pending = r.indices_with(false);
    assert_eq!(pending, vec![0, 1, 2]);
    for i in pending {
        assert_eq!(r.start(i, 100 + i as u32), None);
    }
    assert_eq!(flags(&r), vec![true, true, true]);
}

#[test]
fn toggle_all_off_stops_everything() {
    let mut r: Registry<u32> = Registry::new();
    r.add_entry();
    r.start(1, 5);
    r.all_watching = true;
    r.set_path(1, "/keep".to_string());
    let (to_start, released) = r.toggle_all();
    assert!(!r.all_watching);
    assert!(to_start.is_empty());
    assert_eq!(released, vec![5]);
    assert_eq!(flags(&r), vec![false, false]);
    assert_eq!(r.entries[1].path, "/keep");
    assert_eq!(r.entries[1].commands, vec![DEFAULT_COMMAND.to_string()]);
    assert_eq!(r.handles, vec![None, None]);
}

#[test]
fn toggle_all_on_lists_stopped_entries() {
    let mut r: Registry<u32> = Registry::new();
    r.add_entry();
    r.add_entry();
    r.start(1, 5);
    let (to_start, released) = r.toggle_all();
    assert!(r.all_watching);
    assert_eq!(to_start, vec![0, 2]);
    assert!(released.is_empty());
}

#[test]
fn reloaded_watching_entry_is_restarted() {
    let mut first = entry("/tmp/x", &["echo a", "echo b"], true);
    first.last_triggered = Some(99);
    let loaded = vec![first, entry("/tmp/y", &["true"], false)];
    let (r, restart): (Registry<u32>, Vec<usize>) = Registry::from_entries(loaded, false);
    assert_eq!(restart, vec![0]);
    assert_eq!(r.entries[0].path, "/tmp/x");
    assert_eq!(r.entries[0].commands, vec!["echo a".to_string(), "echo b".to_string()]);
    assert!(!r.entries[0].is_watching);
    assert_eq!(r.entries[0].last_triggered, None);
    assert_eq!(r.entries[0].id, 0);
    assert_eq!(r.entries[1].id, 1);
    assert_eq!(r.next_id, 2);
    assert_eq!(r.handles, vec![None, None]);
}

#[test]
fn consume_runs_commands_in_order_and_records_time() {
    let loaded = vec![
        entry("/a", &["echo a", "echo b"], false),
        entry("/b", &["echo c"], false),
    ];
    let (mut r, _): (Registry<u32>, Vec<usize>) = Registry::from_entries(loaded, false);
    let msgs = vec![
        TriggerMessage { entry: 1, changed: 2 },
        TriggerMessage { entry: 9, changed: 1 },
        TriggerMessage { entry: 0, changed: 1 },
    ];
    let cmds = r.consume(&msgs, 4242);
    assert_eq!(cmds, vec!["echo c".to_string(), "echo a".to_string(), "echo b".to_string()]);
    assert_eq!(r.entries[0].last_triggered, Some(4242));
    assert_eq!(r.entries[1].last_triggered, Some(4242));
    assert!(r.consume(&vec![], 5000).is_empty());
    assert_eq!(r.entries[0].last_triggered, Some(4242));
}

#[test]
fn consume_ignores_untriggered_entries() {
    let mut r: Registry<u32> = Registry::new();
    r.add_entry();
    let cmds = r.consume(&vec![TriggerMessage { entry: 1, changed: 1 }], 7);
    assert_eq!(cmds, vec![DEFAULT_COMMAND.to_string()]);
    assert_eq!(r.entries[0].last_triggered, None);
    assert_eq!(r.entries[1].last_triggered, Some(7));
}

#[test]
fn editing_commands_keeps_at_least_one() {
    let mut r: Registry<u32> = Registry::new();
    assert!(!r.remove_command(0, 0));
    assert_eq!(r.entries[0].commands.len(), 1);
    r.add_command(0);
    assert_eq!(r.entries[0].commands.len(), 2);
    r.set_command(0, 1, "make".to_string());
    assert!(r.remove_command(0, 0));
    assert_eq!(r.entries[0].commands, vec!["make".to_string()]);
    r.set_path(0, "/src".to_string());
    assert_eq!(r.entries[0].path, "/src");
}

#[test]
fn trigger_follows_its_entry_after_removal() {
    let loaded = vec![
        entry("/a", &["echo a"], false),
        entry("/b", &["echo b"], false),
        entry("/c", &["echo c"], false),
    ];
    let (mut r, _): (Registry<u32>, Vec<usize>) = Registry::from_entries(loaded, false);
    assert_eq!(r.start(2, 30), None);
    let id_c = r.entries[2].id;
    let id_a = r.entries[0].id;
    assert_eq!(r.remove(0), None);
    assert_eq!(r.handles, vec![None, Some(30)]);
    assert_eq!(r.position_of(id_c), Some(1));
    assert_eq!(r.position_of(id_a), None);
    let cmds = r.consume(&vec![TriggerMessage { entry: id_c, changed: 1 }, TriggerMessage { entry: id_a, changed: 1 }], 50);
    assert_eq!(cmds, vec!["echo c".to_string()]);
    assert_eq!(r.entries[1].last_triggered, Some(50));
    assert_eq!(r.entries[0].last_triggered, None);
}

#[test]
fn added_entries_get_fresh_ids() {
    let mut r: Registry<u32> = Registry::new();
    assert!(r.add_entry());
    assert!(r.add_entry());
    assert_eq!(r.entries[1].id, 1);
    assert_eq!(r.entries[2].id, 2);
    r.remove(1);
    assert!(r.add_entry());
    assert_eq!(r.entries[2].id, 3);
    r.next_id = u64::MAX;
    assert!(!r.add_entry());
    assert_eq!(r.len(), 3);
}
