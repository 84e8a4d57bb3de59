use branchless::describe::{describe_event, describe_events_numbered, transaction_header, DescriptionPart};
use branchless::eventlog::{make_dummy_transaction_id, CommitVisibility, Event, EventCursor, EventReplayer, EventTransactionId};
use branchless::oid::Oid;
use branchless::undo::{
    inverse_event, move_checkouts_first, optimize_inverse_events, undo_action, undo_plan, UndoAction,
};

fn oid(text: &str) -> Oid {
    Oid::from_str(text).unwrap()
}

fn head_update(timestamp: f64, event_tx_id: EventTransactionId, old: &str, new: &str) -> Event {
    Event::RefUpdateEvent {
        timestamp: timestamp.to_bits(),
        event_tx_id,
        ref_name: String::from("HEAD"),
        old_ref: Some(String::from(old)),
        new_ref: Some(String::from(new)),
        message: None,
    }
}

#[test]
fn test_optimize_inverse_events() {
    let event_tx_id = make_dummy_transaction_id(123);
    let input = vec![head_update(1.0, event_tx_id, "1", "2"), head_update(2.0, event_tx_id, "1", "3")];
    let expected = vec![head_update(2.0, event_tx_id, "1", "3")];
    assert_eq!(optimize_inverse_events(input), expected);
}

#[test]
fn optimize_keeps_other_events_in_order() {
    let tx = EventTransactionId(1);
    let hide = Event::HideEvent { timestamp: 0, event_tx_id: tx, commit_oid: oid("abc") };
    let unhide = Event::UnhideEvent { timestamp: 0, event_tx_id: tx, commit_oid: oid("def") };
    let input = vec![
        head_update(1.0, tx, "1", "2"),
        hide.clone(),
        head_update(2.0, tx, "2", "3"),
        unhide.clone(),
    ];
    assert_eq!(optimize_inverse_events(input), vec![hide, head_update(2.0, tx, "2", "3"), unhide]);
}

#[test]
fn checkouts_move_first() {
    let tx = EventTransactionId(1);
    let hide = Event::HideEvent { timestamp: 0, event_tx_id: tx, commit_oid: oid("abc") };
    let branch = Event::RefUpdateEvent {
        timestamp: 0,
        event_tx_id: tx,
        ref_name: String::from("refs/heads/foo"),
        old_ref: Some(String::from("abc")),
        new_ref: None,
        message: None,
    };
    let input = vec![hide.clone(), head_update(1.0, tx, "1", "2"), branch.clone()];
    assert_eq!(move_checkouts_first(input), vec![head_update(1.0, tx, "1", "2"), hide, branch]);
}

#[test]
fn inverse_events_swap_directions() {
    let tx = EventTransactionId(9);
    let a = oid("aaa");
    let b = oid("bbb");
    assert_eq!(
        inverse_event(Event::CommitEvent { timestamp: 5, event_tx_id: EventTransactionId(1), commit_oid: a }, 7, tx),
        Event::HideEvent { timestamp: 7, event_tx_id: tx, commit_oid: a }
    );
    assert_eq!(
        inverse_event(Event::HideEvent { timestamp: 5, event_tx_id: EventTransactionId(1), commit_oid: a }, 7, tx),
        Event::UnhideEvent { timestamp: 7, event_tx_id: tx, commit_oid: a }
    );
    assert_eq!(
        inverse_event(
            Event::RewriteEvent { timestamp: 5, event_tx_id: EventTransactionId(1), old_commit_oid: a, new_commit_oid: b },
            7,
            tx
        ),
        Event::RewriteEvent { timestamp: 7, event_tx_id: tx, old_commit_oid: b, new_commit_oid: a }
    );
    assert_eq!(
        inverse_event(
            Event::RefUpdateEvent {
                timestamp: 5,
                event_tx_id: EventTransactionId(1),
                ref_name: String::from("refs/heads/x"),
                old_ref: None,
                new_ref: Some(String::from("aaa")),
                message: Some(String::from("m")),
            },
            7,
            tx
        ),
        Event::RefUpdateEvent {
            timestamp: 7,
            event_tx_id: tx,
            ref_name: String::from("refs/heads/x"),
            old_ref: Some(String::from("aaa")),
            new_ref: None,
            message: None,
        }
    );
}

#[test]
fn undo_plan_restores_visibility() {
    let tx1 = EventTransactionId(1);
    let tx2 = EventTransactionId(2);
    let a = oid("aaa");
    let b = oid("bbb");
    let mut replayer = EventReplayer::new();
    replayer.process_event(&Event::CommitEvent { timestamp: 0, event_tx_id: tx1, commit_oid: a });
    let cursor = replayer.make_default_cursor();
    replayer.process_event(&Event::HideEvent { timestamp: 0, event_tx_id: tx2, commit_oid: a });
    replayer.process_event(&Event::CommitEvent { timestamp: 0, event_tx_id: tx2, commit_oid: b });
    replayer.process_event(&Event::RefUpdateEvent {
        timestamp: 0,
        event_tx_id: tx2,
        ref_name: String::from("HEAD"),
        old_ref: None,
        new_ref: Some(String::from("bbb")),
        message: None,
    });
    let since = replayer.get_events_since_cursor(cursor);
    let undo_tx = EventTransactionId(3);
    let plan = undo_plan(since, 11, undo_tx);
    assert_eq!(
        plan,
        vec![
            Event::HideEvent { timestamp: 11, event_tx_id: undo_tx, commit_oid: b },
            Event::UnhideEvent { timestamp: 11, event_tx_id: undo_tx, commit_oid: a },
        ]
    );
    for event in &plan {
        assert_eq!(undo_action(event), UndoAction::RecordEvent);
        replayer.process_event(event);
    }
    let now = replayer.make_default_cursor();
    assert_eq!(replayer.get_cursor_commit_visibility(now, a), Some(CommitVisibility::Visible));
    assert_eq!(replayer.get_cursor_commit_visibility(now, b), Some(CommitVisibility::Hidden));
    assert_eq!(replayer.get_cursor_commit_visibility(cursor, a), Some(CommitVisibility::Visible));
    assert_eq!(replayer.get_cursor_commit_visibility(EventCursor { event_id: 0 }, a), None);
}

#[test]
fn undo_plan_checks_out_first() {
    let tx = EventTransactionId(1);
    let events = vec![
        head_update(0.0, tx, "aaa", "bbb"),
        Event::RefUpdateEvent {
            timestamp: 0,
            event_tx_id: tx,
            ref_name: String::from("refs/heads/foo"),
            old_ref: Some(String::from("aaa")),
            new_ref: Some(String::from("bbb")),
            message: None,
        },
        head_update(0.0, tx, "bbb", "ccc"),
    ];
    let undo_tx = EventTransactionId(2);
    let plan = undo_plan(&events, 0, undo_tx);
    assert_eq!(plan.len(), 2);
    assert_eq!(undo_action(&plan[0]), UndoAction::CheckOut { target: String::from("aaa") });
    assert_eq!(
        undo_action(&plan[1]),
        UndoAction::SetReference { ref_name: String::from("refs/heads/foo"), target: String::from("aaa") }
    );
}

#[test]
fn undo_actions_for_reference_updates() {
    let tx = EventTransactionId(1);
    let update = |name: &str, old: Option<&str>, new: Option<&str>| Event::RefUpdateEvent {
        timestamp: 0,
        event_tx_id: tx,
        ref_name: String::from(name),
        old_ref: old.map(String::from),
        new_ref: new.map(String::from),
        message: None,
    };
    assert_eq!(undo_action(&update("refs/heads/x", None, None)), UndoAction::Nothing);
    assert_eq!(
        undo_action(&update("refs/heads/x", Some("aaa"), None)),
        UndoAction::DeleteReference { ref_name: String::from("refs/heads/x") }
    );
    assert_eq!(
        undo_action(&update("HEAD", Some("aaa"), None)),
        UndoAction::DeleteReference { ref_name: String::from("HEAD") }
    );
}

fn plain(s: &str) -> DescriptionPart {
    DescriptionPart::Plain(String::from(s))
}

#[test]
fn describe_events() {
    let tx = EventTransactionId(1);
    let a = oid("aaa");
    assert_eq!(
        describe_event(&Event::CommitEvent { timestamp: 0, event_tx_id: tx, commit_oid: a }),
        vec![vec![plain("Commit "), DescriptionPart::Commit(a)], vec![]]
    );
    assert_eq!(
        describe_event(&Event::RewriteEvent {
            timestamp: 0,
            event_tx_id: tx,
            old_commit_oid: a,
            new_commit_oid: Oid::zero()
        }),
        vec![vec![plain("Hide commit "), DescriptionPart::Commit(a)], vec![]]
    );
    assert_eq!(
        describe_event(&Event::RefUpdateEvent {
            timestamp: 0,
            event_tx_id: tx,
            ref_name: String::from("refs/heads/main"),
            old_ref: Some(String::from("aaa")),
            new_ref: Some(String::from("bbb")),
            message: None,
        }),
        vec![
            vec![
                plain("Move "),
                plain("branch main"),
                plain(" from "),
                DescriptionPart::Location(String::from("aaa"))
            ],
            vec![plain("     "), plain("           "), plain("   to "), DescriptionPart::Location(String::from("bbb"))],
        ]
    );
    assert_eq!(
        describe_event(&Event::RefUpdateEvent {
            timestamp: 0,
            event_tx_id: tx,
            ref_name: String::from("refs/heads/main"),
            old_ref: None,
            new_ref: None,
            message: None,
        }),
        vec![
            vec![plain("Empty event for "), plain("refs/heads/main")],
            vec![plain("This may be an unsupported use-case; see https://git.io/J0b7z")],
        ]
    );
    let numbered = describe_events_numbered(&[
        Event::HideEvent { timestamp: 0, event_tx_id: tx, commit_oid: a },
        head_update(0.0, tx, "aaa", "bbb"),
    ]);
    assert_eq!(
        numbered,
        vec![
            vec![plain("1. "), plain("Hide commit "), DescriptionPart::Commit(a)],
            vec![plain("   ")],
            vec![plain("2. "), plain("Check out from "), DescriptionPart::Location(String::from("aaa"))],
            vec![plain("   "), plain("            to "), DescriptionPart::Location(String::from("bbb"))],
        ]
    );
    assert_eq!(
        transaction_header(EventTransactionId(3), 5, Some("2m")),
        "Repo after transaction 3 (event 5) (2m ago). Press 'h' for help, 'q' to quit."
    );
    assert_eq!(
        transaction_header(EventTransactionId(3), 5, None),
        "Repo after transaction 3 (event 5). Press 'h' for help, 'q' to quit."
    );
}
