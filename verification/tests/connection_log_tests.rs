use trans_proxy::connection_log::{ConnectionLogState, EntryObservation, MAX_MESSAGE_ROWS};

#[test]
fn entries_are_kept_in_id_order() {
    let mut s = ConnectionLogState::new();
    assert!(!s.needs_render());
    s.record_start(5, "[Http] a".to_string(), 0, 0);
    s.record_start(2, "[Https] b".to_string(), 1, 1);
    s.record_start(9, "[Http] c".to_string(), 0, 0);
    assert_eq!(s.entry_ids(), vec![2, 5, 9]);
    s.record_start(5, "[Http] a2".to_string(), 3, 4);
    assert_eq!(s.entry_ids(), vec![2, 5, 9]);
    assert!(s.needs_render());
    let frame = s.render();
    assert_eq!(frame.entry_rows[1].id, 5);
    assert_eq!(frame.entry_rows[1].prefix, "[Http] a2");
    assert_eq!(frame.entry_rows[1].uploaded, 3);
    assert_eq!(frame.entry_rows[1].downloaded, 4);
}

#[test]
fn messages_keep_the_most_recent() {
    let mut s = ConnectionLogState::new();
    for i in 0..25 {
        s.push_message(format!("m{i}"));
    }
    let frame = s.render();
    assert_eq!(frame.message_rows.len(), MAX_MESSAGE_ROWS);
    assert_eq!(frame.message_rows[0], "m5");
    assert_eq!(frame.message_rows[19], "m24");
}

#[test]
fn dropped_events_notice() {
    let mut s = ConnectionLogState::new();
    s.push_dropped_event_notice(0);
    assert!(!s.needs_render());
    s.push_dropped_event_notice(42);
    let frame = s.render();
    assert_eq!(frame.message_rows, vec!["[log] dropped 42 events".to_string()]);
}

#[test]
fn refresh_updates_counters_and_removes_closed() {
    let mut s = ConnectionLogState::new();
    s.record_start(0, "a".to_string(), 0, 0);
    s.record_start(1, "b".to_string(), 0, 0);
    let _ = s.render();
    assert!(!s.needs_render());
    let same = [
        EntryObservation { id: 0, uploaded: 0, downloaded: 0, closed: false },
        EntryObservation { id: 1, uploaded: 0, downloaded: 0, closed: false },
    ];
    s.refresh_active_entries(&same);
    assert!(!s.needs_render());
    let obs = [
        EntryObservation { id: 0, uploaded: 10, downloaded: 20, closed: false },
        EntryObservation { id: 1, uploaded: 1, downloaded: 1, closed: true },
    ];
    s.refresh_active_entries(&obs);
    assert!(s.needs_render());
    assert_eq!(s.entry_ids(), vec![0]);
    let frame = s.render();
    assert_eq!(frame.entry_rows.len(), 1);
    assert_eq!(frame.entry_rows[0].uploaded, 10);
    assert_eq!(frame.entry_rows[0].downloaded, 20);
}

#[test]
fn render_counts_rows() {
    let mut s = ConnectionLogState::new();
    s.record_start(0, "a".to_string(), 0, 0);
    s.push_message("x".to_string());
    s.push_message("y".to_string());
    let f1 = s.render();
    assert_eq!(f1.move_up, 0);
    assert_eq!(f1.blank_rows, 0);
    s.refresh_active_entries(&[EntryObservation { id: 0, uploaded: 0, downloaded: 0, closed: true }]);
    let f2 = s.render();
    assert_eq!(f2.move_up, 3);
    assert_eq!(f2.entry_rows.len(), 0);
    assert_eq!(f2.blank_rows, 1);
    assert!(!s.needs_render());
}

#[test]
fn refresh_ignores_ids_that_are_not_open() {
    let mut s = ConnectionLogState::new();
    s.record_start(3, "a".to_string(), 1, 1);
    let _ = s.render();
    s.refresh_active_entries(&[EntryObservation { id: 7, uploaded: 9, downloaded: 9, closed: true }]);
    assert!(!s.needs_render());
    assert_eq!(s.entry_ids(), vec![3]);
}

#[test]
fn render_lists_rows_by_increasing_id() {
    let mut s = ConnectionLogState::new();
    s.record_start(40, "x".to_string(), 0, 0);
    s.record_start(7, "y".to_string(), 0, 0);
    s.record_start(19, "z".to_string(), 0, 0);
    let frame = s.render();
    let ids: Vec<usize> = frame.entry_rows.iter().map(|r| r.id).collect();
    assert_eq!(ids, vec![7, 19, 40]);
    assert_eq!(frame.entry_rows[0].prefix, "y");
}
