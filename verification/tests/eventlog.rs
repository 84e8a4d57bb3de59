use branchless::eventlog::{
    drop_zero_ref, is_gc_ref, make_dummy_transaction_id, should_ignore_ref_updates, CommitVisibility, Event, EventCursor, EventReplayer, EventTransactionId, Row,
};
use branchless::oid::Oid;

fn oid(text: &str) -> Oid {
    Oid::from_str(text).unwrap()
}

fn ts(seconds: f64) -> u64 {
    seconds.to_bits()
}

fn drop_non_meaningful_events_case() {
    let event_tx_id = make_dummy_transaction_id(123);
    let meaningful_event = Event::CommitEvent {
        timestamp: ts(0.0),
        event_tx_id,
        commit_oid: oid("abc"),
    };
    let mut replayer = EventReplayer::new();
    replayer.process_event(&meaningful_event);
    replayer.process_event(&Event::RefUpdateEvent {
        timestamp: ts(0.0),
        event_tx_id,
        ref_name: String::from("ORIG_HEAD"),
        old_ref: Some(String::from("abc")),
        new_ref: Some(String::from("def")),
        message: None,
    });
    replayer.process_event(&Event::RefUpdateEvent {
        timestamp: ts(0.0),
        event_tx_id,
        ref_name: String::from("CHERRY_PICK_HEAD"),
        old_ref: None,
        new_ref: None,
        message: None,
    });

    let cursor = replayer.make_default_cursor();
    assert_eq!(replayer.get_event_before_cursor(cursor), Some((1, &meaningful_event)));
}

#[test]
fn test_drop_non_meaningful_events() {
    drop_non_meaningful_events_case();
}

#[test]
fn eventlog_test_drop_non_meaningful_events() {
    drop_non_meaningful_events_case();
}

#[test]
fn test_advance_cursor_by_transaction() {
    let mut event_replayer = EventReplayer::new();
    for (timestamp, event_tx_id) in (0..).zip(&[1, 1, 2, 2, 3, 4]) {
        let timestamp: f64 = f64::from(timestamp);
        event_replayer.process_event(&Event::UnhideEvent {
            timestamp: ts(timestamp),
            event_tx_id: EventTransactionId(*event_tx_id),
            commit_oid: Oid::zero(),
        });
    }

    let forward = [(0, 2), (1, 4), (2, 4), (3, 5), (4, 5), (5, 6), (6, 6)];
    for (from, to) in forward {
        assert_eq!(
            event_replayer.advance_cursor_by_transaction(EventCursor { event_id: from }, 1),
            EventCursor { event_id: to },
        );
    }
    let backward = [(6, 5), (5, 4), (4, 2), (3, 2), (2, 0), (1, 0), (0, 0)];
    for (from, to) in backward {
        assert_eq!(
            event_replayer.advance_cursor_by_transaction(EventCursor { event_id: from }, -1),
            EventCursor { event_id: to },
        );
    }
}

#[test]
fn hide_and_unhide_set_visibility() {
    let tx = EventTransactionId(1);
    let a = oid("abc");
    let mut replayer = EventReplayer::new();
    replayer.process_event(&Event::CommitEvent { timestamp: 0, event_tx_id: tx, commit_oid: a });
    let cursor = replayer.make_default_cursor();
    assert_eq!(replayer.get_cursor_commit_visibility(cursor, a), Some(CommitVisibility::Visible));
    replayer.process_event(&Event::HideEvent { timestamp: 0, event_tx_id: tx, commit_oid: a });
    let cursor = replayer.make_default_cursor();
    assert_eq!(replayer.get_cursor_commit_visibility(cursor, a), Some(CommitVisibility::Hidden));
    // The past is unchanged.
    assert_eq!(
        replayer.get_cursor_commit_visibility(EventCursor { event_id: 1 }, a),
        Some(CommitVisibility::Visible)
    );
    assert_eq!(replayer.get_cursor_commit_visibility(EventCursor { event_id: 0 }, a), None);
    replayer.process_event(&Event::UnhideEvent { timestamp: 0, event_tx_id: tx, commit_oid: a });
    let cursor = replayer.make_default_cursor();
    assert_eq!(replayer.get_cursor_commit_visibility(cursor, a), Some(CommitVisibility::Visible));
    // Events about other commits do not change it.
    replayer.process_event(&Event::HideEvent { timestamp: 0, event_tx_id: tx, commit_oid: oid("def") });
    let cursor = replayer.make_default_cursor();
    assert_eq!(replayer.get_cursor_commit_visibility(cursor, a), Some(CommitVisibility::Visible));
}

#[test]
fn rewrite_hides_old_and_shows_new() {
    let tx = EventTransactionId(1);
    let a = oid("aaa");
    let b = oid("bbb");
    let mut replayer = EventReplayer::new();
    replayer.process_event(&Event::RewriteEvent {
        timestamp: 0,
        event_tx_id: tx,
        old_commit_oid: a,
        new_commit_oid: b,
    });
    let cursor = replayer.make_default_cursor();
    assert_eq!(replayer.get_cursor_commit_visibility(cursor, a), Some(CommitVisibility::Hidden));
    assert_eq!(replayer.get_cursor_commit_visibility(cursor, b), Some(CommitVisibility::Visible));
    let active = replayer.get_cursor_active_oids(cursor);
    assert_eq!(active.len(), 2);
    assert!(active.contains(&a) && active.contains(&b));
}

#[test]
fn ignored_reference_updates_record_nothing() {
    let tx = EventTransactionId(1);
    let mut replayer = EventReplayer::new();
    replayer.process_event(&Event::RefUpdateEvent {
        timestamp: 0,
        event_tx_id: tx,
        ref_name: String::from("refs/heads/master"),
        old_ref: None,
        new_ref: Some(String::from("abc")),
        message: None,
    });
    assert_eq!(replayer.num_events(), 1);
    replayer.process_event(&Event::RefUpdateEvent {
        timestamp: 0,
        event_tx_id: tx,
        ref_name: String::from("ORIG_HEAD"),
        old_ref: None,
        new_ref: Some(String::from("abc")),
        message: None,
    });
    assert_eq!(replayer.num_events(), 1);
}

#[test]
fn deleted_reference_gets_its_last_location() {
    let tx = EventTransactionId(1);
    let mut replayer = EventReplayer::new();
    replayer.process_event(&Event::RefUpdateEvent {
        timestamp: 0,
        event_tx_id: tx,
        ref_name: String::from("refs/heads/foo"),
        old_ref: None,
        new_ref: Some(String::from("abc")),
        message: None,
    });
    let deletion = Event::RefUpdateEvent {
        timestamp: 0,
        event_tx_id: tx,
        ref_name: String::from("refs/heads/foo"),
        old_ref: None,
        new_ref: None,
        message: Some(String::from("deleted")),
    };
    replayer.process_event(&deletion);
    // The repeated deletion is dropped.
    replayer.process_event(&deletion);
    assert_eq!(replayer.num_events(), 2);
    let cursor = replayer.make_default_cursor();
    let (id, event) = replayer.get_event_before_cursor(cursor).unwrap();
    assert_eq!(id, 2);
    assert_eq!(
        event,
        &Event::RefUpdateEvent {
            timestamp: 0,
            event_tx_id: tx,
            ref_name: String::from("refs/heads/foo"),
            old_ref: Some(String::from("abc")),
            new_ref: None,
            message: Some(String::from("deleted")),
        }
    );
}

#[test]
fn cursor_queries() {
    let mut replayer = EventReplayer::new();
    let head = |tx: isize, target: &str| Event::RefUpdateEvent {
        timestamp: 0,
        event_tx_id: EventTransactionId(tx),
        ref_name: String::from("HEAD"),
        old_ref: None,
        new_ref: Some(String::from(target)),
        message: None,
    };
    replayer.process_event(&head(1, "aaa"));
    replayer.process_event(&Event::RefUpdateEvent {
        timestamp: 0,
        event_tx_id: EventTransactionId(2),
        ref_name: String::from("refs/heads/master"),
        old_ref: None,
        new_ref: Some(String::from("bbb")),
        message: None,
    });
    replayer.process_event(&head(2, "ccc"));
    let cursor = replayer.make_default_cursor();
    assert_eq!(cursor, EventCursor { event_id: 3 });
    assert_eq!(replayer.get_cursor_head_oid(cursor), Some(oid("ccc")));
    assert_eq!(replayer.get_cursor_head_oid(EventCursor { event_id: 1 }), Some(oid("aaa")));
    assert_eq!(replayer.get_cursor_head_oid(EventCursor { event_id: 0 }), None);
    assert_eq!(replayer.get_cursor_branch_oid(cursor, "master"), Ok(Some(oid("bbb"))));
    assert_eq!(replayer.get_cursor_branch_oid(cursor, "other"), Ok(None));
    let (id, events) = replayer.get_tx_events_before_cursor(cursor).unwrap();
    assert_eq!(id, 2);
    assert_eq!(events.len(), 2);
    assert_eq!(replayer.get_events_since_cursor(EventCursor { event_id: 1 }).len(), 2);
    assert_eq!(replayer.make_cursor(-5), EventCursor { event_id: 0 });
    assert_eq!(replayer.make_cursor(10), EventCursor { event_id: 3 });
    assert_eq!(replayer.advance_cursor(cursor, -2), EventCursor { event_id: 1 });
    assert_eq!(replayer.advance_cursor(cursor, 2), EventCursor { event_id: 3 });
    assert_eq!(replayer.get_tx_events_before_cursor(EventCursor { event_id: 0 }), None);
}

#[test]
fn event_rows_round_trip() {
    let events = vec![
        Event::RewriteEvent {
            timestamp: ts(1.5),
            event_tx_id: EventTransactionId(7),
            old_commit_oid: oid("abc"),
            new_commit_oid: oid("def"),
        },
        Event::RefUpdateEvent {
            timestamp: ts(2.0),
            event_tx_id: EventTransactionId(8),
            ref_name: String::from("refs/heads/foo"),
            old_ref: None,
            new_ref: Some(String::from("abc")),
            message: Some(String::from("message")),
        },
        Event::CommitEvent { timestamp: 0, event_tx_id: EventTransactionId(1), commit_oid: oid("123") },
        Event::HideEvent { timestamp: 0, event_tx_id: EventTransactionId(1), commit_oid: oid("123") },
        Event::UnhideEvent { timestamp: 0, event_tx_id: EventTransactionId(1), commit_oid: oid("123") },
    ];
    for event in events {
        let row = Row::from(event.clone());
        assert_eq!(Event::try_from(row), Ok(event));
    }
    let row = Row::from(Event::HideEvent {
        timestamp: 0,
        event_tx_id: EventTransactionId(1),
        commit_oid: oid("abc"),
    });
    assert_eq!(row.type_, "hide");
    assert_eq!(row.ref1, Some(String::from("abc0000000000000000000000000000000000000")));
}

#[test]
fn transaction_id_text() {
    assert_eq!(EventTransactionId(-42).to_string(), "-42");
    assert_eq!(EventTransactionId::from_str("123"), Some(EventTransactionId(123)));
    assert_eq!(EventTransactionId::from_str("+7"), Some(EventTransactionId(7)));
    assert_eq!(EventTransactionId::from_str("12a"), None);
    assert_eq!(EventTransactionId::from_str(""), None);
    let id = EventTransactionId(isize::MIN);
    assert_eq!(EventTransactionId::from_str(&id.to_string()), Some(id));
}

#[test]
fn gc_and_ignored_refs() {
    assert!(is_gc_ref("refs/branchless/abc"));
    assert!(!is_gc_ref("refs/heads/master"));
    assert!(should_ignore_ref_updates("ORIG_HEAD"));
    assert!(should_ignore_ref_updates("CHERRY_PICK_HEAD"));
    assert!(should_ignore_ref_updates("refs/branchless/abc"));
    assert!(!should_ignore_ref_updates("HEAD"));
    assert!(!should_ignore_ref_updates("refs/heads/master"));
}

#[test]
fn branch_names_as_of_cursor() {
    let tx = EventTransactionId(1);
    let update = |name: &str, new: Option<&str>| Event::RefUpdateEvent {
        timestamp: 0,
        event_tx_id: tx,
        ref_name: String::from(name),
        old_ref: None,
        new_ref: new.map(String::from),
        message: None,
    };
    let mut replayer = EventReplayer::new();
    replayer.process_event(&update("refs/heads/foo", Some("aaa")));
    replayer.process_event(&update("refs/heads/bar", Some("aaa")));
    replayer.process_event(&update("refs/remotes/origin/foo", Some("aaa")));
    replayer.process_event(&update("refs/heads/gone", Some("bbb")));
    replayer.process_event(&update("refs/heads/gone", None));
    replayer.process_event(&update("refs/heads/sym", Some("refs/heads/foo")));
    let cursor = replayer.make_default_cursor();
    let targets = replayer.get_cursor_branch_oid_to_names(cursor, "master", oid("ccc"));
    let mut names_a: Vec<String> = Vec::new();
    let mut names_c: Vec<String> = Vec::new();
    for t in &targets {
        if t.oid == oid("aaa") {
            names_a.extend(t.names.iter().cloned());
        }
        if t.oid == oid("ccc") {
            names_c.extend(t.names.iter().cloned());
        }
        assert!(t.oid != oid("bbb"));
    }
    names_a.sort();
    assert_eq!(names_a, vec!["bar", "foo"]);
    assert_eq!(names_c, vec!["master"]);
    let earlier = replayer.get_cursor_branch_oid_to_names(EventCursor { event_id: 4 }, "master", oid("ccc"));
    assert!(earlier.iter().any(|t| t.oid == oid("bbb") && t.names == vec![String::from("gone")]));

    assert_eq!(drop_zero_ref(Some("0".repeat(40))), None);
    assert_eq!(drop_zero_ref(Some(String::from("abc"))), Some(String::from("abc")));
    assert_eq!(drop_zero_ref(None), None);
}
