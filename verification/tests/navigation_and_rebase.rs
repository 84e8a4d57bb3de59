use branchless::eventlog::EventTransactionId;
use branchless::formatting::Glyphs;
use branchless::metadata::Time;
use branchless::navigation::{
    advance_step, candidate_note, distance_from_options, resolve_towards, towards_from_options, AdvanceStep, Command,
    Distance, NavigationError, Towards,
};
use branchless::oid::Oid;
use branchless::rebase::{
    after_in_memory, cycle_glyphs, first_rebase_step, make_label_name, on_disk_exit_code, Error,
    ExecuteRebasePlanOptions, InMemoryOutcome, OidOrLabel, RebaseCommand, RebaseStep,
};

fn oid(text: &str) -> Oid {
    Oid::from_str(text).unwrap()
}

#[test]
fn traversal_options() {
    assert_eq!(distance_from_options(false, None), Ok(Distance::NumCommits(1)));
    assert_eq!(distance_from_options(false, Some(3)), Ok(Distance::NumCommits(3)));
    assert_eq!(distance_from_options(true, None), Ok(Distance::AllTheWay));
    assert_eq!(distance_from_options(true, Some(3)), Err(NavigationError::NumCommitsAndAll));
    assert_eq!(towards_from_options(false, false, false), Ok(None));
    assert_eq!(towards_from_options(true, false, false), Ok(Some(Towards::Oldest)));
    assert_eq!(towards_from_options(false, true, false), Ok(Some(Towards::Newest)));
    assert_eq!(towards_from_options(false, false, true), Ok(Some(Towards::Interactive)));
    assert_eq!(towards_from_options(true, true, false), Err(NavigationError::ConflictingTowards));
    assert_eq!(resolve_towards(None, true), Some(Towards::Interactive));
    assert_eq!(resolve_towards(None, false), None);
    assert_eq!(resolve_towards(Some(Towards::Oldest), true), Some(Towards::Oldest));
}

#[test]
fn traversal_steps() {
    let a = oid("aaa");
    let b = oid("bbb");
    assert_eq!(advance_step(Command::Next, Distance::NumCommits(1), None, 1, &[a]), Ok(AdvanceStep::Done));
    assert_eq!(advance_step(Command::Next, Distance::NumCommits(2), None, 0, &[a]), Ok(AdvanceStep::MoveTo(a)));
    assert_eq!(advance_step(Command::Prev, Distance::AllTheWay, None, 3, &[]), Ok(AdvanceStep::Done));
    assert_eq!(
        advance_step(Command::Next, Distance::NumCommits(1), None, 0, &[]),
        Ok(AdvanceStep::NoMoreCommits {
            message: String::from("No more child commits to go to after traversing 0 children."),
            failed: true
        })
    );
    assert_eq!(
        advance_step(Command::Prev, Distance::NumCommits(5), None, 1, &[]),
        Ok(AdvanceStep::NoMoreCommits {
            message: String::from("No more parent commits to go to after traversing 1 parent."),
            failed: false
        })
    );
    assert_eq!(
        advance_step(Command::Next, Distance::NumCommits(1), Some(Towards::Newest), 0, &[a, b]),
        Ok(AdvanceStep::MoveTo(b))
    );
    assert_eq!(
        advance_step(Command::Next, Distance::NumCommits(1), Some(Towards::Oldest), 0, &[a, b]),
        Ok(AdvanceStep::MoveTo(a))
    );
    assert_eq!(
        advance_step(Command::Next, Distance::NumCommits(1), None, 0, &[a, b]),
        Ok(AdvanceStep::Ambiguous {
            header: String::from("Found multiple possible child commits to go to after traversing 0 children:")
        })
    );
    assert_eq!(
        advance_step(Command::Next, Distance::NumCommits(1), Some(Towards::Interactive), 0, &[a, b]),
        Ok(AdvanceStep::Prompt {
            header: String::from("Found multiple possible child commits to go to after traversing 0 children:")
        })
    );
    assert_eq!(
        advance_step(Command::Next, Distance::AllTheWay, None, usize::MAX, &[a]),
        Err(NavigationError::CountOutOfRange)
    );
    assert_eq!(candidate_note(0, 3), " (oldest)");
    assert_eq!(candidate_note(1, 3), "");
    assert_eq!(candidate_note(2, 3), " (newest)");
}

#[test]
fn rebase_command_lines() {
    let a = oid("abc");
    let hex = "abc0000000000000000000000000000000000000";
    assert_eq!(RebaseCommand::CreateLabel { label_name: String::from("x") }.to_string(), "label x");
    assert_eq!(RebaseCommand::Reset { target: OidOrLabel::Oid(a) }.to_string(), format!("reset {}", hex));
    assert_eq!(RebaseCommand::Pick { commit_oid: a }.to_string(), format!("pick {}", hex));
    assert_eq!(
        RebaseCommand::Merge {
            commit_oid: a,
            commits_to_merge: vec![OidOrLabel::Label(String::from("l1")), OidOrLabel::Oid(a)]
        }
        .to_string(),
        format!("merge -C {} l1 {}", hex, hex)
    );
    assert_eq!(
        RebaseCommand::RegisterExtraPostRewriteHook.to_string(),
        "exec git branchless hook-register-extra-post-rewrite-hook"
    );
    assert_eq!(
        RebaseCommand::DetectEmptyCommit { commit_oid: a }.to_string(),
        format!("exec git branchless hook-detect-empty-commit {}", hex)
    );
    assert_eq!(
        RebaseCommand::SkipUpstreamAppliedCommit { commit_oid: a }.to_string(),
        format!("exec git branchless hook-skip-upstream-applied-commit {}", hex)
    );
}

#[test]
fn label_names_are_fresh() {
    let mut used = Vec::new();
    assert_eq!(make_label_name(&mut used, String::from("label-1")), "label-1");
    assert_eq!(make_label_name(&mut used, String::from("label-1")), "label-1'");
    assert_eq!(make_label_name(&mut used, String::from("label-1")), "label-1''");
    assert_eq!(used, vec!["label-1", "label-1'", "label-1''"]);
}

#[test]
fn rebase_strategy() {
    let options = |force_in_memory: bool, force_on_disk: bool| ExecuteRebasePlanOptions {
        now: Time { secs: 0, nanos: 0 },
        event_tx_id: EventTransactionId(1),
        preserve_timestamps: false,
        force_in_memory,
        force_on_disk,
    };
    assert_eq!(first_rebase_step(&options(false, false)), RebaseStep::InMemory);
    assert_eq!(first_rebase_step(&options(false, true)), RebaseStep::OnDisk);
    assert_eq!(first_rebase_step(&options(true, true)), RebaseStep::ConflictingOptions);
    assert_eq!(
        after_in_memory(&options(false, false), InMemoryOutcome::Succeeded { checkout_exit_code: 0 }),
        RebaseStep::Finish(0)
    );
    assert_eq!(
        after_in_memory(&options(false, false), InMemoryOutcome::Succeeded { checkout_exit_code: 128 }),
        RebaseStep::Finish(128)
    );
    assert_eq!(
        after_in_memory(&options(false, false), InMemoryOutcome::CannotRebaseMergeCommit),
        RebaseStep::Finish(1)
    );
    assert_eq!(after_in_memory(&options(false, false), InMemoryOutcome::MergeConflict), RebaseStep::OnDisk);
    assert_eq!(after_in_memory(&options(true, false), InMemoryOutcome::MergeConflict), RebaseStep::Finish(1));
    assert_eq!(on_disk_exit_code(&Ok(3)), 3);
    assert_eq!(on_disk_exit_code(&Err(Error::ChangedFilesInRepository)), 1);
    let glyphs = Glyphs::text();
    assert_eq!(cycle_glyphs(&glyphs, 0, 3), (",", "-", ">"));
    assert_eq!(cycle_glyphs(&glyphs, 1, 3), ("|", " ", " "));
    assert_eq!(cycle_glyphs(&glyphs, 2, 3), ("`", "-", "-"));
}

use branchless::plan::{collect_descendants, find_roots, Adjacency, RebasePlanBuilder};
use branchless::rebase::BuildRebasePlanError;

fn adjacency(oid: Oid, oids: Vec<Oid>) -> Adjacency {
    Adjacency { oid, oids }
}

#[test]
fn plan_moves_a_stack() {
    let a = oid("a1");
    let b = oid("b1");
    let c = oid("c1");
    let d = oid("d1");
    let mut builder = RebasePlanBuilder::new();
    builder.move_subtree(b, c);
    let parents = vec![adjacency(b, vec![a]), adjacency(d, vec![b])];
    let plan = builder.build(&[(b, d)], parents, vec![]).ok().unwrap().unwrap();
    assert_eq!(plan.first_dest_oid, c);
    assert_eq!(
        plan.commands,
        vec![
            RebaseCommand::Reset { target: OidOrLabel::Oid(c) },
            RebaseCommand::Pick { commit_oid: b },
            RebaseCommand::DetectEmptyCommit { commit_oid: b },
            RebaseCommand::Pick { commit_oid: d },
            RebaseCommand::DetectEmptyCommit { commit_oid: d },
            RebaseCommand::RegisterExtraPostRewriteHook,
        ]
    );
}

#[test]
fn plan_branches_with_labels() {
    let a = oid("a1");
    let b = oid("b1");
    let c = oid("c1");
    let d1 = oid("d1");
    let d2 = oid("d2");
    let mut builder = RebasePlanBuilder::new();
    builder.move_subtree(b, c);
    let parents = vec![adjacency(b, vec![a]), adjacency(d1, vec![b]), adjacency(d2, vec![b])];
    let plan = builder.build(&[(b, d2), (b, d1)], parents, vec![d2]).ok().unwrap().unwrap();
    let label = String::from("label-3");
    assert_eq!(
        plan.commands,
        vec![
            RebaseCommand::Reset { target: OidOrLabel::Oid(c) },
            RebaseCommand::Pick { commit_oid: b },
            RebaseCommand::DetectEmptyCommit { commit_oid: b },
            RebaseCommand::CreateLabel { label_name: label.clone() },
            RebaseCommand::Pick { commit_oid: d1 },
            RebaseCommand::DetectEmptyCommit { commit_oid: d1 },
            RebaseCommand::Reset { target: OidOrLabel::Label(label.clone()) },
            RebaseCommand::SkipUpstreamAppliedCommit { commit_oid: d2 },
            RebaseCommand::Reset { target: OidOrLabel::Label(label) },
            RebaseCommand::RegisterExtraPostRewriteHook,
        ]
    );
}

#[test]
fn plan_merges_onto_the_moved_parent() {
    let base = oid("01");
    let p1 = oid("a1");
    let other = oid("a2");
    let m = oid("b1");
    let dest = oid("c1");
    let mut builder = RebasePlanBuilder::new();
    builder.move_subtree(p1, dest);
    let parents = vec![adjacency(p1, vec![base]), adjacency(m, vec![p1, other])];
    let plan = builder.build(&[(p1, m)], parents, vec![]).ok().unwrap().unwrap();
    let commands: Vec<String> = plan.commands.iter().map(|c| c.to_string()).collect();
    let hex = |o: Oid| o.to_hex();
    assert_eq!(
        commands,
        vec![
            format!("reset {}", hex(dest)),
            format!("pick {}", hex(p1)),
            format!("exec git branchless hook-detect-empty-commit {}", hex(p1)),
            String::from("label merge-parent-3"),
            format!("merge -C {} {}", hex(m), hex(other)),
            String::from("exec git branchless hook-register-extra-post-rewrite-hook"),
        ]
    );
}

#[test]
fn plan_moves_both_parents_of_a_merge() {
    let base = oid("01");
    let p1 = oid("a1");
    let p2 = oid("a2");
    let m = oid("b1");
    let dest = oid("c1");
    let mut builder = RebasePlanBuilder::new();
    builder.move_subtree(p1, dest);
    builder.move_subtree(p2, dest);
    let parents = vec![adjacency(p1, vec![base]), adjacency(p2, vec![base]), adjacency(m, vec![p1, p2])];
    // Two ways lead to the merge commit, but none comes back: no cycle.
    let plan = match builder.build(&[(p1, m), (p2, m)], parents, vec![]) {
        Ok(Some(plan)) => plan,
        _ => panic!("the constraints have no cycle"),
    };
    assert_eq!(
        plan.commands,
        vec![
            RebaseCommand::Reset { target: OidOrLabel::Oid(dest) },
            RebaseCommand::Pick { commit_oid: p1 },
            RebaseCommand::DetectEmptyCommit { commit_oid: p1 },
            RebaseCommand::CreateLabel { label_name: String::from("merge-parent-3") },
            RebaseCommand::Reset { target: OidOrLabel::Oid(dest) },
            RebaseCommand::Pick { commit_oid: p2 },
            RebaseCommand::DetectEmptyCommit { commit_oid: p2 },
            RebaseCommand::CreateLabel { label_name: String::from("merge-parent-7") },
            RebaseCommand::Merge {
                commit_oid: m,
                commits_to_merge: vec![OidOrLabel::Label(String::from("merge-parent-3"))],
            },
            RebaseCommand::RegisterExtraPostRewriteHook,
        ]
    );
}

#[test]
fn plan_reports_a_cycle_from_its_first_commit() {
    let a = oid("a1");
    let b = oid("b1");
    let c = oid("c1");
    let mut builder = RebasePlanBuilder::new();
    // b goes on a, c on b, and b on c: the search from a runs a, b, c and
    // meets b again, so the cycle is b, c, b (a is not on it).
    builder.move_subtree(b, a);
    builder.move_subtree(c, b);
    builder.move_subtree(b, c);
    match builder.build(&[], vec![], vec![]) {
        Err(BuildRebasePlanError::ConstraintCycle { cycle_oids }) => {
            assert_eq!(cycle_oids, vec![b, c, b]);
            assert_eq!(cycle_oids.first(), cycle_oids.last());
        },
        Ok(_) => panic!("a cycle was accepted"),
    }
}

#[test]
fn plan_refuses_cycles() {
    let a = oid("a1");
    let b = oid("b1");
    let mut builder = RebasePlanBuilder::new();
    builder.move_subtree(b, a);
    builder.move_subtree(a, b);
    match builder.build(&[], vec![], vec![]) {
        Err(BuildRebasePlanError::ConstraintCycle { cycle_oids }) => assert_eq!(cycle_oids, vec![a, b, a]),
        Ok(_) => panic!("a cycle was accepted"),
    }
}

#[test]
fn empty_plan() {
    let builder = RebasePlanBuilder::new();
    assert!(builder.build(&[], vec![], vec![]).ok().unwrap().is_none());
    let roots = find_roots(&vec![adjacency(oid("a1"), vec![oid("b1")]), adjacency(oid("b1"), vec![oid("c1")])]);
    assert_eq!(roots, vec![(oid("a1"), oid("b1"))]);
}

#[test]
fn descendants_move_with_their_ancestors() {
    let a = oid("a1");
    let b = oid("b1");
    let c = oid("c1");
    let d = oid("d1");
    let e = oid("e1");
    // a -> b -> c, a -> d (a diamond: b and d both lead to c), e unrelated.
    let children = vec![
        Adjacency { oid: a, oids: vec![b, d] },
        Adjacency { oid: b, oids: vec![c] },
        Adjacency { oid: d, oids: vec![c] },
        Adjacency { oid: e, oids: vec![a] },
    ];
    let mut edges = collect_descendants(&children, &[b]);
    edges.sort_by_key(|(p, q)| (p.to_hex(), q.to_hex()));
    assert_eq!(edges, vec![(b, c)]);
    let mut edges = collect_descendants(&children, &[a]);
    edges.sort_by_key(|(p, q)| (p.to_hex(), q.to_hex()));
    assert_eq!(edges, vec![(a, b), (a, d), (b, c), (d, c)]);
    assert!(collect_descendants(&children, &[c]).is_empty());
}

#[test]
fn plan_moves_a_long_stack_to_its_end() {
    let base = oid("a1");
    let dest = oid("f1");
    let cs: Vec<Oid> = vec![oid("c1"), oid("c2"), oid("c3"), oid("c4"), oid("c5")];
    let mut builder = RebasePlanBuilder::new();
    builder.move_subtree(cs[0], dest);
    let mut parents = vec![adjacency(cs[0], vec![base])];
    let mut edges = vec![];
    for i in 1..cs.len() {
        parents.push(adjacency(cs[i], vec![cs[i - 1]]));
        edges.push((cs[i - 1], cs[i]));
    }
    let plan = builder.build(&edges, parents, vec![]).ok().unwrap().unwrap();
    let mut expected = vec![RebaseCommand::Reset { target: OidOrLabel::Oid(dest) }];
    for c in &cs {
        expected.push(RebaseCommand::Pick { commit_oid: *c });
        expected.push(RebaseCommand::DetectEmptyCommit { commit_oid: *c });
    }
    expected.push(RebaseCommand::RegisterExtraPostRewriteHook);
    assert_eq!(plan.commands, expected);
}
