use branchless::execute::{
    branch_moves, branch_moves_text, checkout_after_rebase, count_picks, end_text, find_last_rewrite, head_name_text,
    pick_report, todo_text, BranchMove, InMemoryAction, InMemoryRebase, PickOutcome, PickReport, PostRebaseError,
};
use branchless::node_descriptors::BranchTargets;
use branchless::execute::head_after_rewrites;
use branchless::oid::Oid;
use branchless::rebase::{InMemoryOutcome, OidOrLabel, RebaseCommand};
use branchless::repo::HeadInfo;

fn oid(text: &str) -> Oid {
    Oid::from_str(text).unwrap()
}

fn hex(o: &Oid) -> String {
    o.to_hex()
}

#[test]
fn in_memory_rebase_follows_labels_and_picks() {
    let dest = oid("d1");
    let a = oid("a1");
    let b = oid("b1");
    let a2 = oid("a2");
    let mut rebase = InMemoryRebase::new(dest, Some(b));

    assert!(matches!(
        rebase.apply_command(&RebaseCommand::CreateLabel { label_name: "parent".to_string() }),
        InMemoryAction::Continue
    ));
    match rebase.apply_command(&RebaseCommand::Pick { commit_oid: a }) {
        InMemoryAction::ApplyPick { commit_oid, onto, pick_number } => {
            assert_eq!(commit_oid, a);
            assert_eq!(onto, dest);
            assert_eq!(pick_number, 1);
        }
        other => panic!("unexpected action: {:?}", other),
    }
    assert_eq!(rebase.record_pick(a, PickOutcome::Committed { new_oid: a2 }), None);
    assert_eq!(rebase.current_oid(), a2);

    // Back to the label: the next pick goes onto the destination again.
    assert!(matches!(
        rebase.apply_command(&RebaseCommand::Reset { target: OidOrLabel::Label("parent".to_string()) }),
        InMemoryAction::Continue
    ));
    assert_eq!(rebase.current_oid(), dest);

    match rebase.apply_command(&RebaseCommand::Pick { commit_oid: b }) {
        InMemoryAction::ApplyPick { commit_oid, onto, pick_number } => {
            assert_eq!(commit_oid, b);
            assert_eq!(onto, dest);
            assert_eq!(pick_number, 2);
        }
        other => panic!("unexpected action: {:?}", other),
    }
    // `b` became empty: dropped, and `HEAD` (which was on `b`) goes to the
    // rebase head at that time.
    assert_eq!(rebase.record_pick(b, PickOutcome::Empty), None);
    assert_eq!(rebase.rewritten_oids(), vec![(a, a2), (b, Oid::zero())]);
    assert_eq!(rebase.new_head_oid(), Some(dest));
}

#[test]
fn in_memory_rebase_stops() {
    let dest = oid("d1");
    let a = oid("a1");
    let mut rebase = InMemoryRebase::new(dest, None);
    assert!(matches!(
        rebase.apply_command(&RebaseCommand::Reset { target: OidOrLabel::Label("missing".to_string()) }),
        InMemoryAction::UnknownLabel { label_name } if label_name == "missing"
    ));
    assert!(matches!(
        rebase.apply_command(&RebaseCommand::Merge { commit_oid: a, commits_to_merge: vec![] }),
        InMemoryAction::CannotRebaseMerge { commit_oid } if commit_oid == a
    ));
    assert_eq!(rebase.record_pick(a, PickOutcome::Conflict), Some(InMemoryOutcome::MergeConflict));
    assert_eq!(rebase.record_pick(a, PickOutcome::MergeCommit), Some(InMemoryOutcome::CannotRebaseMergeCommit));
    assert!(rebase.rewritten_oids().is_empty());
    // `HEAD` was unborn, so it stays unborn.
    assert_eq!(rebase.new_head_oid(), None);
}

#[test]
fn in_memory_rebase_skips_upstream_commits() {
    let dest = oid("d1");
    let a = oid("a1");
    let c = oid("c1");
    let mut rebase = InMemoryRebase::new(dest, Some(c));
    assert!(matches!(
        rebase.apply_command(&RebaseCommand::SkipUpstreamAppliedCommit { commit_oid: a }),
        InMemoryAction::SkippedUpstream { commit_oid, pick_number: 1 } if commit_oid == a
    ));
    assert!(matches!(rebase.apply_command(&RebaseCommand::RegisterExtraPostRewriteHook), InMemoryAction::Continue));
    assert!(matches!(rebase.apply_command(&RebaseCommand::DetectEmptyCommit { commit_oid: a }), InMemoryAction::Continue));
    assert_eq!(rebase.rewritten_oids(), vec![(a, Oid::zero())]);
    // `HEAD` was not rewritten: it stays.
    assert_eq!(rebase.new_head_oid(), Some(c));
}

#[test]
fn last_rewrite_wins() {
    let a = oid("a1");
    let b = oid("b1");
    let c = oid("c1");
    let rewritten = vec![(a, b), (a, c)];
    assert_eq!(find_last_rewrite(&rewritten, &a), Some(c));
    assert_eq!(find_last_rewrite(&rewritten, &b), None);
}

#[test]
fn checkout_target_after_rebase() {
    let a = oid("a1");
    let b = oid("b1");
    let on_branch = HeadInfo { oid: Some(a), reference_name: Some("refs/heads/feature".to_string()) };
    let detached = HeadInfo { oid: Some(a), reference_name: None };
    let unborn = HeadInfo { oid: None, reference_name: Some("refs/heads/main".to_string()) };

    assert_eq!(checkout_after_rebase(&unborn, &[], None), Ok(None));
    assert_eq!(checkout_after_rebase(&on_branch, &[], None), Err(PostRebaseError::MissingNewHead));
    assert_eq!(checkout_after_rebase(&on_branch, &[(a, b)], Some(b)), Ok(Some("feature".to_string())));
    assert_eq!(checkout_after_rebase(&on_branch, &[], Some(a)), Ok(Some("feature".to_string())));
    assert_eq!(checkout_after_rebase(&on_branch, &[(a, Oid::zero())], Some(b)), Ok(Some(hex(&b))));
    assert_eq!(checkout_after_rebase(&detached, &[(a, b)], Some(b)), Ok(Some(hex(&b))));
}

#[test]
fn branches_follow_their_commits() {
    let a = oid("a1");
    let b = oid("b1");
    let c = oid("c1");
    let targets = vec![
        BranchTargets { oid: a, names: vec!["zeta".to_string(), "alpha".to_string()] },
        BranchTargets { oid: b, names: vec!["untouched".to_string()] },
        BranchTargets { oid: c, names: vec!["gone".to_string()] },
    ];
    let rewritten = vec![(a, b), (c, Oid::zero())];
    let moves = branch_moves(&targets, &rewritten);
    let names: Vec<&str> = moves.iter().map(|m| m.name.as_str()).collect();
    assert_eq!(names, vec!["alpha", "zeta", "gone"]);
    assert_eq!(moves[0].old_oid, a);
    assert_eq!(moves[0].new_oid, b);
    assert_eq!(moves[2].new_oid, Oid::zero());

    let text = branch_moves_text(&[BranchMove { old_oid: a, new_oid: b, name: "alpha".to_string() }]);
    assert_eq!(text, format!("{} {} alpha\n", hex(&a), hex(&b)));
}

#[test]
fn on_disk_rebase_files() {
    let a = oid("a1");
    let commands = vec![
        RebaseCommand::Reset { target: OidOrLabel::Oid(a) },
        RebaseCommand::Pick { commit_oid: a },
        RebaseCommand::CreateLabel { label_name: "x".to_string() },
        RebaseCommand::SkipUpstreamAppliedCommit { commit_oid: a },
    ];
    assert_eq!(
        todo_text(&commands),
        format!(
            "reset {h}\npick {h}\nlabel x\nexec git branchless hook-skip-upstream-applied-commit {h}\n",
            h = hex(&a)
        )
    );
    assert_eq!(end_text(&commands), "4\n");
    assert_eq!(count_picks(&commands), 2);
    assert_eq!(
        head_name_text(&HeadInfo { oid: Some(a), reference_name: Some("refs/heads/main".to_string()) }),
        "main"
    );
    assert_eq!(head_name_text(&HeadInfo { oid: Some(a), reference_name: None }), "detached HEAD");
}

#[test]
fn pick_reports() {
    assert_eq!(pick_report(PickReport::Committed, 1, 3, "abc foo"), "[1/3] Committed as: abc foo");
    assert_eq!(pick_report(PickReport::SkippedEmpty, 2, 3, "def"), "[2/3] Skipped now-empty commit: def");
    assert_eq!(
        pick_report(PickReport::SkippedUpstream, 10, 12, "x"),
        "[10/12] Skipped commit (was already applied upstream): x"
    );
}

#[test]
fn head_follows_on_disk_rewrites() {
    let a = oid("a1");
    let a2 = oid("a2");
    let b = oid("b1");
    let s = oid("c1");
    let zero = Oid::zero();
    assert_eq!(head_after_rewrites(None, &[(a, a2)], None), None);
    assert_eq!(head_after_rewrites(Some(a), &[(a, a2)], None), Some(a2));
    assert_eq!(head_after_rewrites(Some(b), &[(a, a2)], None), Some(b));
    assert_eq!(head_after_rewrites(Some(a), &[(a, zero)], Some(s)), Some(s));
    assert_eq!(head_after_rewrites(Some(a), &[(a, zero)], None), Some(a));
}
