use std::time::{Duration, SystemTime, UNIX_EPOCH};

use branchless::eventlog::{Event, EventReplayer, EventTransactionId};
use branchless::formatting::{Color, Glyphs, StyledText};
use branchless::metadata::{
    BranchesProvider, CommitMessageProvider, CommitOidProvider, DifferentialRevisionProvider,
    HiddenExplanationProvider, RelativeTimeProvider, Time,
};
use branchless::node_descriptors::{
    extract_diff_number, render_node_descriptors, BranchTargets, BranchesDescriptor, CommitMessageDescriptor,
    CommitOidDescriptor, DifferentialRevisionDescriptor, NodeObject, ObsolescenceExplanationDescriptor,
    RelativeTimeDescriptor, RelativeTimeError,
};
use branchless::oid::Oid;
use branchless::rewrite::find_rewrite_target;

fn oid(text: &str) -> Oid {
    Oid::from_str(text).unwrap()
}

fn time_of(t: SystemTime) -> Time {
    match t.duration_since(UNIX_EPOCH) {
        Ok(d) => Time { secs: d.as_secs() as i64, nanos: d.subsec_nanos() },
        Err(e) => {
            let d = e.duration();
            if d.subsec_nanos() == 0 {
                Time { secs: -(d.as_secs() as i64), nanos: 0 }
            } else {
                Time { secs: -(d.as_secs() as i64) - 1, nanos: 1_000_000_000 - d.subsec_nanos() }
            }
        }
    }
}

fn describe_time_delta_cases(describe: fn(Time, Time) -> String) {
    let test_cases: Vec<(i64, &str)> = vec![
        (-100000, "-100000s"),
        (-1, "-1s"),
        (0, "0s"),
        (10, "10s"),
        (60, "1m"),
        (90, "1m"),
        (120, "2m"),
        (135, "2m"),
        (60 * 45, "45m"),
        (60 * 60 - 1, "59m"),
        (60 * 60, "1h"),
        (60 * 60 * 24 * 3, "3d"),
        (60 * 60 * 24 * 300, "300d"),
        (60 * 60 * 24 * 400, "1y"),
    ];
    for (delta, expected) in test_cases {
        let now = SystemTime::now();
        let previous_time = if delta < 0 {
            now + Duration::from_secs((-delta) as u64)
        } else {
            now - Duration::from_secs(delta as u64)
        };
        let delta = describe(time_of(now), time_of(previous_time));
        assert_eq!(delta, expected);
    }
}

#[test]
fn test_describe_time_delta() {
    describe_time_delta_cases(|now, previous| RelativeTimeDescriptor::describe_time_delta(now, previous).unwrap());
}

#[test]
fn node_descriptors_test_describe_time_delta() {
    describe_time_delta_cases(|now, previous| RelativeTimeDescriptor::describe_time_delta(now, previous).unwrap());
}

#[test]
fn metadata_test_describe_time_delta() {
    describe_time_delta_cases(|now, previous| RelativeTimeProvider::describe_time_delta(now, previous).unwrap());
}

fn extract_diff_number_cases() {
    let message = "\
This is a message

Differential Revision: D123";
    assert_eq!(extract_diff_number(message), Some(String::from("D123")));

    let message = "\
This is a message

Differential Revision: phabricator.com/D123";
    assert_eq!(extract_diff_number(message), Some(String::from("D123")));

    let message = "This is a message";
    assert_eq!(extract_diff_number(message), None);
}

#[test]
fn test_extract_diff_number() {
    extract_diff_number_cases();
}

#[test]
fn metadata_test_extract_diff_number() {
    extract_diff_number_cases();
    let provider = DifferentialRevisionProvider::new(true);
    assert_eq!(
        provider.describe_commit("Summary\n\nDifferential Revision: https://x/D45"),
        Some(StyledText { text: String::from("D45"), color: Some(Color::DarkGreen) })
    );
    assert_eq!(DifferentialRevisionProvider::new(false).describe_commit("Differential Revision: D1"), None);
}

#[test]
fn node_descriptors_test_extract_diff_number() {
    extract_diff_number_cases();
    let descriptor = DifferentialRevisionDescriptor::new(true);
    let commit = NodeObject::Commit {
        oid: oid("abc"),
        summary: String::from("Summary"),
        message: String::from("Summary\n\nDifferential Revision: D7"),
        time_secs: 0,
    };
    assert_eq!(
        descriptor.describe_node(&commit),
        Some(StyledText { text: String::from("D7"), color: Some(Color::DarkGreen) })
    );
    assert_eq!(descriptor.describe_node(&NodeObject::GarbageCollected { oid: oid("abc") }), None);
}

fn find_rewrite_target_case() {
    let tx = EventTransactionId(1);
    let old_oid = oid("1111");
    let once = oid("2222");
    let twice = oid("3333");
    let mut replayer = EventReplayer::new();
    replayer.process_event(&Event::CommitEvent { timestamp: 0, event_tx_id: tx, commit_oid: old_oid });
    replayer.process_event(&Event::RewriteEvent {
        timestamp: 0,
        event_tx_id: EventTransactionId(2),
        old_commit_oid: old_oid,
        new_commit_oid: once,
    });
    let cursor = replayer.make_default_cursor();
    assert_eq!(find_rewrite_target(&replayer, cursor, old_oid), Some(once));

    replayer.process_event(&Event::RewriteEvent {
        timestamp: 0,
        event_tx_id: EventTransactionId(3),
        old_commit_oid: once,
        new_commit_oid: twice,
    });
    let cursor = replayer.make_default_cursor();
    assert_eq!(find_rewrite_target(&replayer, cursor, old_oid), Some(twice));

    // Amending back to the original commit closes a cycle.
    replayer.process_event(&Event::RewriteEvent {
        timestamp: 0,
        event_tx_id: EventTransactionId(4),
        old_commit_oid: twice,
        new_commit_oid: old_oid,
    });
    let cursor = replayer.make_default_cursor();
    assert_eq!(find_rewrite_target(&replayer, cursor, old_oid), None);
}

#[test]
fn test_find_rewrite_target() {
    find_rewrite_target_case();
}

#[test]
fn rewrite_test_find_rewrite_target() {
    find_rewrite_target_case();
}

#[test]
fn evolve_test_find_rewrite_target() {
    find_rewrite_target_case();
}

#[test]
fn oid_and_message_descriptions() {
    let a = oid("0123456789abcdef");
    assert_eq!(
        CommitOidDescriptor::new(true).describe_node(&NodeObject::GarbageCollected { oid: a }),
        Some(StyledText { text: String::from("01234567"), color: Some(Color::DarkYellow) })
    );
    assert_eq!(
        CommitOidProvider::new(false).describe_commit(a),
        Some(StyledText { text: String::from("01234567"), color: None })
    );
    assert_eq!(
        CommitMessageDescriptor::new().describe_node(&NodeObject::GarbageCollected { oid: a }),
        Some(StyledText { text: String::from("<garbage collected>"), color: None })
    );
    assert_eq!(
        CommitMessageProvider::new().describe_commit("fix things"),
        Some(StyledText { text: String::from("fix things"), color: None })
    );
}

#[test]
fn obsolescence_explanations() {
    let a = oid("aaaa1111");
    let b = oid("bbbb2222");
    let c = oid("cccc3333");
    let mut replayer = EventReplayer::new();
    replayer.process_event(&Event::RewriteEvent {
        timestamp: 0,
        event_tx_id: EventTransactionId(1),
        old_commit_oid: a,
        new_commit_oid: b,
    });
    replayer.process_event(&Event::HideEvent { timestamp: 0, event_tx_id: EventTransactionId(2), commit_oid: c });
    let cursor = replayer.make_default_cursor();
    let descriptor = ObsolescenceExplanationDescriptor::new(&replayer, cursor);
    assert_eq!(
        descriptor.describe_node(&NodeObject::GarbageCollected { oid: a }),
        Some(StyledText { text: String::from("(rewritten as bbbb2222)"), color: Some(Color::LightBlack) })
    );
    assert_eq!(
        descriptor.describe_node(&NodeObject::GarbageCollected { oid: c }),
        Some(StyledText { text: String::from("(manually hidden)"), color: Some(Color::LightBlack) })
    );
    assert_eq!(descriptor.describe_node(&NodeObject::GarbageCollected { oid: b }), None);
    let provider = HiddenExplanationProvider::new(&replayer, cursor);
    assert_eq!(
        provider.describe_commit(c),
        Some(StyledText { text: String::from("(manually hidden)"), color: Some(Color::LightBlack) })
    );
}

#[test]
fn branch_descriptions() {
    let a = oid("aaaa");
    let targets = vec![BranchTargets {
        oid: a,
        names: vec![
            String::from("refs/remotes/origin/main"),
            String::from("refs/heads/main"),
            String::from("refs/heads/feature"),
            String::from("refs/heads/main"),
            String::from("refs/tags/v1"),
        ],
    }];
    let descriptor = BranchesDescriptor::new(true, Some(String::from("refs/heads/main")), targets);
    let glyphs = Glyphs::text();
    assert_eq!(
        descriptor.describe_node(&glyphs, &NodeObject::GarbageCollected { oid: a }),
        Some(StyledText {
            text: String::from("(> main, feature, ref refs/tags/v1, remote origin/main)"),
            color: Some(Color::LightGreen)
        })
    );
    assert_eq!(descriptor.describe_node(&glyphs, &NodeObject::GarbageCollected { oid: oid("bbbb") }), None);
    let disabled = BranchesDescriptor::new(false, None, vec![BranchTargets { oid: a, names: vec![String::from("x")] }]);
    assert_eq!(disabled.describe_node(&glyphs, &NodeObject::GarbageCollected { oid: a }), None);

    let provider = BranchesProvider::new(
        true,
        vec![BranchTargets { oid: a, names: vec![String::from("zeta"), String::from("alpha"), String::from("zeta")] }],
    );
    assert_eq!(
        provider.describe_commit(a),
        Some(StyledText { text: String::from("(alpha, zeta)"), color: Some(Color::LightGreen) })
    );
}

#[test]
fn relative_time_descriptions() {
    let now = Time { secs: 10_000, nanos: 0 };
    let descriptor = RelativeTimeDescriptor::new(true, now);
    assert!(descriptor.is_enabled());
    let commit = |time_secs: i64| NodeObject::Commit {
        oid: oid("abc"),
        summary: String::new(),
        message: String::new(),
        time_secs,
    };
    assert_eq!(
        descriptor.describe_node(&commit(10_000 - 7200)),
        Ok(Some(StyledText { text: String::from("2h"), color: Some(Color::DarkGreen) }))
    );
    assert_eq!(descriptor.describe_node(&commit(-1)), Err(RelativeTimeError::NegativeCommitTime));
    assert_eq!(RelativeTimeDescriptor::new(false, now).describe_node(&commit(5)), Ok(None));
    let provider = RelativeTimeProvider::new(true, now);
    assert!(provider.is_enabled());
    assert_eq!(
        provider.describe_commit(10_000 - 59),
        Ok(Some(StyledText { text: String::from("59s"), color: Some(Color::DarkGreen) }))
    );
}

#[test]
fn rendering_joins_with_spaces() {
    let piece = |s: &str| Some(StyledText { text: String::from(s), color: None });
    let rendered = render_node_descriptors(vec![piece("a"), None, piece("b"), None]);
    assert_eq!(
        rendered,
        vec![
            StyledText { text: String::from("a"), color: None },
            StyledText { text: String::from(" "), color: None },
            StyledText { text: String::from("b"), color: None },
        ]
    );
    assert_eq!(render_node_descriptors(vec![None]), vec![]);
}

#[test]
fn rewrite_target_follows_chains_and_never_returns_the_commit() {
    let a = oid("a1");
    let b = oid("b1");
    let c = oid("c1");
    let tx = EventTransactionId(1);
    let mut events = vec![
        Event::CommitEvent { timestamp: 1, event_tx_id: tx, commit_oid: a },
        Event::RewriteEvent { timestamp: 2, event_tx_id: tx, old_commit_oid: a, new_commit_oid: b },
        Event::RewriteEvent { timestamp: 3, event_tx_id: tx, old_commit_oid: b, new_commit_oid: c },
    ];
    let replayer = EventReplayer::from_events(&events);
    assert_eq!(find_rewrite_target(&replayer, replayer.make_default_cursor(), a), Some(c));
    events.push(Event::RewriteEvent { timestamp: 4, event_tx_id: tx, old_commit_oid: c, new_commit_oid: a });
    let replayer = EventReplayer::from_events(&events);
    assert_eq!(find_rewrite_target(&replayer, replayer.make_default_cursor(), a), None);
}
