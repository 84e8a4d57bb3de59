use branchless::amend::{
    amend_report, commit_to_amend, nothing_to_amend_message, AmendError, AmendFastOptions, FileStatus, StatusEntry,
};
use branchless::eventlog::{Event, EventCursor, EventReplayer, EventTransactionId};
use branchless::moving::{move_targets, MoveArgsError, MoveTargets};
use branchless::node_descriptors::BranchTargets;
use branchless::oid::Oid;
use branchless::post_rewrite::{
    abandoned_advice, abandoned_by_rewrites, abandoned_warning, drop_commit_if_empty, merge_rewritten_entries,
    processing_message, should_report_rewrite, skipped_head_target,
};
use branchless::restack::{
    find_abandoned_children, restack_branch_rewrites, restack_branches_report, restack_moves, restack_report,
    RestackOutcome,
};
use branchless::reword::{
    build_messages, messages_from_prettified, parents_first, reword_moves, reword_refusal, reword_start, reword_summary, reworded_line, reworded_parents, BuildRewordMessageResult, RewordMessageError, RewordStart,
};
use branchless::undo::{key_message, selector_step, SelectorKey, SelectorMessage, SelectorStep};

fn oid(text: &str) -> Oid {
    Oid::from_str(text).unwrap()
}

#[test]
fn reword_starts_from_given_or_edited_message() {
    let given = vec!["  first".to_string(), "second  ".to_string()];
    assert_eq!(reword_start(&given, &["old".to_string()], Some(b'#')), RewordStart::Message("first\n\nsecond".to_string()));
    assert_eq!(reword_start(&vec![], &["old message\n".to_string()], Some(b'#')), RewordStart::Edit("old message\n".to_string()));
    assert_eq!(
        reword_start(&vec!["   ".to_string()], &["a".to_string(), "b".to_string()], Some(b'#')),
        RewordStart::Edit("35 Enter a commit message to apply to 2 commits".to_string())
    );
}

#[test]
fn reword_builds_messages() {
    let a = oid("a1");
    let b = oid("b1");
    assert_eq!(build_messages("same", Some("same"), &[a], Some(b'#')), Ok(BuildRewordMessageResult::IdenticalMessage));
    assert_eq!(
        build_messages("# only a comment\n", Some("old"), &[a], Some(b'#')),
        Ok(BuildRewordMessageResult::EmptyMessage)
    );
    assert_eq!(
        build_messages("new message", None, &[a, b], Some(b'#')),
        Ok(BuildRewordMessageResult::Succeeded {
            messages: vec![(a, "new message\n".to_string()), (b, "new message\n".to_string())]
        })
    );
    assert_eq!(reworded_line("abc old", "def new"), "Reworded commit abc old as def new");
    assert_eq!(reword_summary(1), None);
    assert_eq!(
        reword_summary(3),
        Some("Reworded 3 commits with same message. If this was unintentional, run: git undo".to_string())
    );
}

#[test]
fn amend_takes_staged_or_changed_files() {
    let a = oid("a1");
    assert_eq!(commit_to_amend(None, false), Err(AmendError::NoCommitCheckedOut));
    assert_eq!(commit_to_amend(Some(a), true), Err(AmendError::UnresolvedMergeConflicts));
    assert_eq!(commit_to_amend(Some(a), false), Ok(a));
    assert_eq!(
        AmendError::NoCommitCheckedOut.message(),
        "No commit is currently checked out. Check out a commit to amend and then try again."
    );

    let staged = AmendFastOptions::from_changes(vec!["x.txt".to_string()], vec![]);
    assert_eq!(staged, AmendFastOptions::FromIndex { paths: vec!["x.txt".to_string()] });
    assert_eq!(amend_report(&staged, false), "Amended with 1 staged change.");
    assert_eq!(
        amend_report(&staged, true),
        "Amended with 1 staged change. (Some uncommitted changes were not amended.)"
    );

    let status = vec![
        StatusEntry { path: "m".to_string(), working_copy_status: FileStatus::Modified },
        StatusEntry { path: "u".to_string(), working_copy_status: FileStatus::Untracked },
        StatusEntry { path: "d".to_string(), working_copy_status: FileStatus::Deleted },
        StatusEntry { path: "i".to_string(), working_copy_status: FileStatus::Ignored },
    ];
    let from_working_copy = AmendFastOptions::from_changes(vec![], status);
    match &from_working_copy {
        AmendFastOptions::FromWorkingCopy { status_entries } => {
            let paths: Vec<&str> = status_entries.iter().map(|e| e.path.as_str()).collect();
            assert_eq!(paths, vec!["m", "d"]);
        }
        other => panic!("unexpected: {:?}", other),
    }
    assert!(!from_working_copy.is_empty());
    assert_eq!(amend_report(&from_working_copy, true), "Amended with 2 uncommitted changes.");

    let nothing = AmendFastOptions::from_changes(vec![], vec![]);
    assert!(nothing.is_empty());
    assert_eq!(nothing_to_amend_message(), "There are no uncommitted or staged changes. Nothing to amend.");
}

#[test]
fn move_targets_from_options() {
    let h = oid("abc");
    assert_eq!(
        move_targets(Some("s".to_string()), None, Some("b".to_string()), Some(h)),
        Err(MoveArgsError::SourceAndBase)
    );
    assert_eq!(move_targets(None, None, None, None), Err(MoveArgsError::NoSourceOrHead));
    assert_eq!(move_targets(Some("s".to_string()), None, None, None), Err(MoveArgsError::NoDestOrHead));
    assert_eq!(
        move_targets(Some("s".to_string()), Some("d".to_string()), None, None),
        Ok(MoveTargets { source: "s".to_string(), should_resolve_base_commit: false, dest: "d".to_string() })
    );
    assert_eq!(
        move_targets(None, None, None, Some(h)),
        Ok(MoveTargets { source: h.to_hex(), should_resolve_base_commit: true, dest: h.to_hex() })
    );
    assert_eq!(
        move_targets(None, Some("d".to_string()), Some("b".to_string()), None),
        Ok(MoveTargets { source: "b".to_string(), should_resolve_base_commit: true, dest: "d".to_string() })
    );
    assert_eq!(
        MoveArgsError::NoDestOrHead.message(),
        "No --dest argument was provided, and no OID for HEAD is available as a default"
    );
}

#[test]
fn undo_selector_keys_and_steps() {
    assert_eq!(key_message(SelectorKey::Char('n')), Some(SelectorMessage::Next));
    assert_eq!(key_message(SelectorKey::Left), Some(SelectorMessage::Previous));
    assert_eq!(key_message(SelectorKey::Char('?')), Some(SelectorMessage::Help));
    assert_eq!(key_message(SelectorKey::Char('G')), Some(SelectorMessage::GoToEvent));
    assert_eq!(key_message(SelectorKey::Enter), Some(SelectorMessage::SelectEventIdAndQuit));
    assert_eq!(key_message(SelectorKey::Char('x')), None);

    let a = oid("a1");
    let b = oid("b1");
    let events = vec![
        Event::CommitEvent { timestamp: 1, event_tx_id: EventTransactionId(1), commit_oid: a },
        Event::CommitEvent { timestamp: 2, event_tx_id: EventTransactionId(1), commit_oid: b },
        Event::HideEvent { timestamp: 3, event_tx_id: EventTransactionId(2), commit_oid: b },
    ];
    let replayer = EventReplayer::from_events(&events);
    let end = replayer.make_default_cursor();
    assert_eq!(end, EventCursor { event_id: 3 });
    assert_eq!(selector_step(&replayer, end, SelectorMessage::Previous), SelectorStep::Show(EventCursor { event_id: 2 }));
    assert_eq!(
        selector_step(&replayer, EventCursor { event_id: 2 }, SelectorMessage::Next),
        SelectorStep::Show(EventCursor { event_id: 3 })
    );
    assert_eq!(
        selector_step(&replayer, end, SelectorMessage::SetEventReplayerCursor { event_id: 99 }),
        SelectorStep::Show(EventCursor { event_id: 3 })
    );
    assert_eq!(selector_step(&replayer, end, SelectorMessage::SelectEventIdAndQuit), SelectorStep::Select(end));
    assert_eq!(selector_step(&replayer, end, SelectorMessage::GoToEvent), SelectorStep::AskForEventId);
}

#[test]
fn post_rewrite_reports() {
    assert!(should_report_rewrite("rebase", true));
    assert!(should_report_rewrite("amend", false));
    assert!(!should_report_rewrite("amend", true));
    assert_eq!(processing_message(1), "branchless: processing 1 rewritten commit");
    assert_eq!(processing_message(3), "branchless: processing 3 rewritten commits");

    assert_eq!(abandoned_warning(0, vec![]), None);
    assert_eq!(abandoned_warning(1, vec![]), Some("This operation abandoned 1 commit!".to_string()));
    assert_eq!(
        abandoned_warning(
            2,
            vec!["refs/heads/zed".to_string(), "refs/heads/abc".to_string(), "refs/heads/zed".to_string()]
        ),
        Some("This operation abandoned 2 commits and 2 branches (abc, zed)!".to_string())
    );
    assert_eq!(
        abandoned_warning(0, vec!["refs/heads/one".to_string()]),
        Some("This operation abandoned 1 branch (one)!".to_string())
    );
    let advice = abandoned_advice("This operation abandoned 1 commit!");
    assert!(advice.starts_with("branchless: This operation abandoned 1 commit!\nbranchless: Consider running"));
    assert!(advice.ends_with("git config branchless.restack.warnAbandoned false: suppress this message\n"));
}

#[test]
fn rebase_hooks_drop_and_skip_commits() {
    let old = oid("a1");
    let head = oid("b1");
    let parent = oid("c1");
    assert_eq!(drop_commit_if_empty(old, Some(head), false, Some(parent), None), None);
    assert_eq!(drop_commit_if_empty(old, None, true, Some(parent), None), None);
    assert_eq!(drop_commit_if_empty(old, Some(head), true, None, None), None);
    let d = drop_commit_if_empty(old, Some(head), true, Some(parent), Some(old)).unwrap();
    assert_eq!(d.new_head_oid, parent);
    assert!(d.save_as_updated_head);
    assert_eq!(d.rewritten_entries, vec![(old, Oid::zero()), (head, Oid::zero())]);
    let d = drop_commit_if_empty(old, Some(head), true, Some(parent), Some(head)).unwrap();
    assert!(!d.save_as_updated_head);

    assert_eq!(skipped_head_target(old, Some(old), Some(head)), Some(head));
    assert_eq!(skipped_head_target(old, Some(head), Some(head)), None);
    assert_eq!(skipped_head_target(old, None, Some(head)), None);

    let x = oid("d1");
    let current = vec![(old, head), (parent, head)];
    let adds = vec![(x, Oid::zero()), (old, x), (x, parent), (old, parent)];
    assert_eq!(merge_rewritten_entries(&current, &adds), vec![(old, parent), (parent, head), (x, parent)]);
}

#[test]
fn restack_finds_abandoned_commits_and_branches() {
    let a = oid("a1");
    let a2 = oid("a2");
    let child = oid("c1");
    let hidden_child = oid("c2");
    let other = oid("e1");
    let events = vec![
        Event::CommitEvent { timestamp: 1, event_tx_id: EventTransactionId(1), commit_oid: a },
        Event::CommitEvent { timestamp: 2, event_tx_id: EventTransactionId(1), commit_oid: child },
        Event::RewriteEvent { timestamp: 3, event_tx_id: EventTransactionId(2), old_commit_oid: a, new_commit_oid: a2 },
    ];
    let replayer = EventReplayer::from_events(&events);
    let cursor = replayer.make_default_cursor();
    assert_eq!(
        find_abandoned_children(&replayer, cursor, a, &[child, hidden_child], &[hidden_child]),
        Some((a2, vec![child]))
    );
    assert_eq!(find_abandoned_children(&replayer, cursor, child, &[], &[]), None);
    assert_eq!(restack_branch_rewrites(&replayer, cursor, &[a, child, other], &[a, child]), vec![(a, a2)]);
    assert_eq!(restack_branch_rewrites(&replayer, cursor, &[a], &[]), vec![]);

    assert_eq!(restack_report(RestackOutcome::NothingToRestack), vec!["No abandoned commits to restack.".to_string()]);
    assert_eq!(
        restack_report(RestackOutcome::Failed(128)),
        vec![
            "Error: Could not restack commits (exit code 128).".to_string(),
            "You can resolve the error and try running `git restack` again.".to_string()
        ]
    );
    assert_eq!(restack_branches_report(0), "No abandoned branches to restack.");
    assert_eq!(restack_branches_report(2), "Finished restacking branches.");
}

#[test]
fn restack_moves_abandoned_children_onto_new_versions() {
    let a = oid("a1");
    let a2 = oid("a2");
    let b = oid("b1");
    let b2 = oid("b2");
    let c = oid("c1");
    let d = oid("d1");
    let hidden = oid("e1");
    let events = vec![
        Event::RewriteEvent { timestamp: 1, event_tx_id: EventTransactionId(1), old_commit_oid: a, new_commit_oid: a2 },
        Event::RewriteEvent { timestamp: 2, event_tx_id: EventTransactionId(2), old_commit_oid: b, new_commit_oid: b2 },
    ];
    let replayer = EventReplayer::from_events(&events);
    let cursor = replayer.make_default_cursor();
    let moves = restack_moves(
        &replayer,
        cursor,
        &vec![a, c, b],
        &vec![vec![c, hidden], vec![d], vec![d]],
        &vec![hidden],
    );
    assert_eq!(moves, vec![(c, a2), (d, b2)]);

    let targets = vec![
        BranchTargets { oid: a, names: vec!["refs/heads/feature".to_string()] },
        BranchTargets { oid: c, names: vec!["refs/heads/other".to_string()] },
    ];
    let (count, branches) = abandoned_by_rewrites(
        &replayer,
        cursor,
        &vec![a, b, c],
        &vec![vec![c, d], vec![d], vec![]],
        &vec![],
        &targets,
    );
    assert_eq!(count, 2);
    assert_eq!(branches, vec!["refs/heads/feature".to_string()]);
}

#[test]
fn reword_orders_parents_first_and_moves_children() {
    let a = oid("a1");
    let b = oid("b1");
    let c = oid("c1");
    let p = oid("f1");
    // b descends from a, c from both.
    let order = parents_first(&vec![c, b, a], &[(b, a), (c, a), (c, b)]);
    assert_eq!(order, vec![a, b, c]);
    assert_eq!(parents_first(&vec![c, b], &[]), vec![c, b]);

    let a2 = oid("a2");
    let b2 = oid("b2");
    assert_eq!(reworded_parents(&vec![a, p], &vec![(a, a2)]), vec![a2, p]);
    let x = oid("e1");
    let y = oid("e2");
    let moves = reword_moves(&vec![(a, a2), (b, b2)], &vec![vec![b, x], vec![y]]);
    assert_eq!(moves, vec![(x, a2), (y, b2)]);

    assert_eq!(reword_refusal(a, &vec![p], &vec![a]), None);
    assert_eq!(reword_refusal(b, &vec![a, p], &vec![a, b]), None);
    assert_eq!(
        reword_refusal(a, &vec![p, x], &vec![a]),
        Some(format!(
            "Refusing to reword commit {}, which has 2 parents.\nRewording is only supported for commits with 1 parent.\nAborting.",
            a.to_hex()
        ))
    );
}

#[test]
fn reword_outcomes_from_cleaned_messages() {
    let a = oid("a1");
    let b = oid("b1");
    match messages_from_prettified(Some("New message\n".to_string()), &[a, b]) {
        Ok(BuildRewordMessageResult::Succeeded { messages }) => {
            assert_eq!(messages, vec![(a, "New message\n".to_string()), (b, "New message\n".to_string())]);
        }
        other => panic!("unexpected outcome: {:?}", other),
    }
    assert_eq!(messages_from_prettified(Some(" \n".to_string()), &[a]), Ok(BuildRewordMessageResult::EmptyMessage));
    assert_eq!(messages_from_prettified(None, &[a]), Err(RewordMessageError::InvalidMessage));
}
