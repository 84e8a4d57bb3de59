//! Restacking: finding the commits and branches that a rewrite left on old
//! versions of commits, and where they belong now.

use vstd::prelude::*;

use crate::eventlog::{EventCursor, EventReplayer};
use crate::hooks::oid_pairs_view;
use crate::oid::Oid;
use crate::plan::oids_view;
use crate::rewrite::{find_rewrite_target, is_zero_oid, rewrite_target_spec};
use crate::text::decimal_text;

verus! {

/// Whether `oid` is among `v`.
pub open spec fn holds(v: Seq<Oid>, oid: Seq<u8>) -> bool {
    exists|j: int| 0 <= j < v.len() && (#[trigger] v[j])@ == oid
}

/// Whether `oid` is among `v`.
fn contains_oid(v: &[Oid], oid: &Oid) -> (r: bool)
    ensures
        r == holds(v@, oid@),
{
    let mut j: usize = 0;
    while j < v.len()
        invariant
            j <= v@.len(),
            forall|i: int| 0 <= i < j ==> (#[trigger] v@[i])@ != oid@,
        decreases v@.len() - j,
    {
        if v[j] == *oid {
            return true;
        }
        j = j + 1;
    }
    false
}

/// The members of `v` that are not among `drop`, in order.
pub open spec fn without(v: Seq<Oid>, drop: Seq<Oid>) -> Seq<Seq<u8>>
    decreases v.len(),
{
    if v.len() == 0 {
        Seq::empty()
    } else {
        let before = without(v.drop_last(), drop);
        if holds(drop, v.last()@) {
            before
        } else {
            before.push(v.last()@)
        }
    }
}

/// The commits left behind by the rewrite of `oid`: if `oid` was rewritten
/// (as of the cursor position `c`), its newest version (or `oid` itself if
/// it was deleted), together with its children that are not obsolete.
pub open spec fn abandoned_children_spec(
    evs: Seq<crate::eventlog::EventView>,
    c: int,
    oid: Seq<u8>,
    children: Seq<Oid>,
    obsolete: Seq<Oid>,
) -> Option<(Seq<u8>, Seq<Seq<u8>>)> {
    match rewrite_target_spec(evs, c, oid) {
        None => None,
        Some(t) => Some((if is_zero_oid(t) { oid } else { t }, without(children, obsolete))),
    }
}

/// The moves that restack the commits `candidates`, in order: where a
/// candidate was rewritten, each of its abandoned children (among its
/// children `kids` at the same position) goes onto its newest version.
pub open spec fn restack_moves_spec(
    evs: Seq<crate::eventlog::EventView>,
    c: int,
    candidates: Seq<Oid>,
    kids: Seq<Vec<Oid>>,
    obsolete: Seq<Oid>,
) -> Seq<(Seq<u8>, Seq<u8>)>
    decreases candidates.len(),
{
    if candidates.len() == 0 {
        Seq::empty()
    } else {
        let before = restack_moves_spec(evs, c, candidates.drop_last(), kids.drop_last(), obsolete);
        match abandoned_children_spec(evs, c, candidates.last()@, kids.last()@, obsolete) {
            None => before,
            Some((t, ks)) => before + ks.map_values(|k: Seq<u8>| (k, t)),
        }
    }
}

/// The commits left behind by the rewrite of `oid` (see
/// `abandoned_children_spec`), given its observed children in the commit
/// graph and the obsolete commits.
pub fn find_abandoned_children(
    event_replayer: &EventReplayer,
    event_cursor: EventCursor,
    oid: Oid,
    children: &[Oid],
    obsolete: &[Oid],
) -> (r: Option<(Oid, Vec<Oid>)>)
    requires
        event_replayer.wf(),
        0 <= event_cursor.event_id <= event_replayer.recorded().len(),
    ensures
        match r {
            Some((t, kids)) => abandoned_children_spec(
                event_replayer.recorded(),
                event_cursor.event_id as int,
                oid@,
                children@,
                obsolete@,
            ) == Some((t@, oids_view(kids@))),
            None => abandoned_children_spec(
                event_replayer.recorded(),
                event_cursor.event_id as int,
                oid@,
                children@,
                obsolete@,
            ) is None,
        },
{
    let target = match find_rewrite_target(event_replayer, event_cursor, oid) {
        None => return None,
        Some(t) => t,
    };
    let rewritten_oid = if target.is_zero() {
        oid
    } else {
        target
    };
    let mut kids: Vec<Oid> = Vec::new();
    let mut i: usize = 0;
    assert(children@.take(0) =~= Seq::<Oid>::empty());
    assert(oids_view(kids@) =~= without(children@.take(0), obsolete@));
    while i < children.len()
        invariant
            i <= children@.len(),
            oids_view(kids@) == without(children@.take(i as int), obsolete@),
        decreases children@.len() - i,
    {
        assert(children@.take(i + 1).drop_last() =~= children@.take(i as int));
        assert(children@.take(i + 1).last() == children@[i as int]);
        if !contains_oid(obsolete, &children[i]) {
            let ghost k0 = oids_view(kids@);
            kids.push(children[i]);
            assert(oids_view(kids@) =~= k0.push(children@[i as int]@));
        }
        i = i + 1;
    }
    assert(children@.take(i as int) =~= children@);
    assert(is_zero_oid(target@) == target.spec_is_zero()) by {
        assert(target@.len() == 20);
    }
    Some((rewritten_oid, kids))
}

/// The branches to move when restacking: for each branch target that is
/// in the commit graph, in order, its newest version, if it was
/// rewritten.
pub open spec fn branch_rewrites_spec(
    evs: Seq<crate::eventlog::EventView>,
    c: int,
    targets: Seq<Oid>,
    graph: Seq<Oid>,
) -> Seq<(Seq<u8>, Seq<u8>)>
    decreases targets.len(),
{
    if targets.len() == 0 {
        Seq::empty()
    } else {
        let before = branch_rewrites_spec(evs, c, targets.drop_last(), graph);
        let t = targets.last()@;
        if !holds(graph, t) {
            before
        } else {
            match rewrite_target_spec(evs, c, t) {
                Some(n) => before.push((t, n)),
                None => before,
            }
        }
    }
}

/// The branches to move when restacking (see `branch_rewrites_spec`),
/// given the targets of the local branches and the commits of the graph.
pub fn restack_branch_rewrites(
    event_replayer: &EventReplayer,
    event_cursor: EventCursor,
    branch_targets: &[Oid],
    graph_oids: &[Oid],
) -> (r: Vec<(Oid, Oid)>)
    requires
        event_replayer.wf(),
        0 <= event_cursor.event_id <= event_replayer.recorded().len(),
    ensures
        oid_pairs_view(r@) == branch_rewrites_spec(
            event_replayer.recorded(),
            event_cursor.event_id as int,
            branch_targets@,
            graph_oids@,
        ),
{
    let ghost evs = event_replayer.recorded();
    let ghost c = event_cursor.event_id as int;
    let mut r: Vec<(Oid, Oid)> = Vec::new();
    let mut i: usize = 0;
    assert(branch_targets@.take(0) =~= Seq::<Oid>::empty());
    assert(oid_pairs_view(r@) =~= branch_rewrites_spec(evs, c, branch_targets@.take(0), graph_oids@));
    while i < branch_targets.len()
        invariant
            i <= branch_targets@.len(),
            evs == event_replayer.recorded(),
            c == event_cursor.event_id as int,
            event_replayer.wf(),
            0 <= event_cursor.event_id <= event_replayer.recorded().len(),
            oid_pairs_view(r@) == branch_rewrites_spec(evs, c, branch_targets@.take(i as int), graph_oids@),
        decreases branch_targets@.len() - i,
    {
        assert(branch_targets@.take(i + 1).drop_last() =~= branch_targets@.take(i as int));
        assert(branch_targets@.take(i + 1).last() == branch_targets@[i as int]);
        let t = branch_targets[i];
        if contains_oid(graph_oids, &t) {
            match find_rewrite_target(event_replayer, event_cursor, t) {
                Some(n) => {
                    let ghost r0 = oid_pairs_view(r@);
                    r.push((t, n));
                    assert(oid_pairs_view(r@) =~= r0.push((t@, n@)));
                },
                None => {},
            }
        }
        i = i + 1;
    }
    assert(branch_targets@.take(i as int) =~= branch_targets@);
    r
}

/// What restacking commits reports: that nothing was abandoned, that it
/// finished, or that it failed with an exit code (and how to go on).
#[derive(Clone, Copy, Debug, PartialEq, Eq, Structural)]
pub enum RestackOutcome {
    NothingToRestack,
    Finished,
    Failed(isize),
}

/// The lines reported after restacking commits.
pub open spec fn restack_report_spec(outcome: RestackOutcome) -> Seq<Seq<char>> {
    match outcome {
        RestackOutcome::NothingToRestack => seq!["No abandoned commits to restack."@],
        RestackOutcome::Finished => seq!["Finished restacking commits."@],
        RestackOutcome::Failed(code) => seq![
            "Error: Could not restack commits (exit code "@ + decimal_text(code as int) + ")."@,
            "You can resolve the error and try running `git restack` again."@,
        ],
    }
}

/// The lines reported after restacking commits.
pub fn restack_report(outcome: RestackOutcome) -> (r: Vec<String>)
    ensures
        r@.map_values(|t: String| t@) == restack_report_spec(outcome),
{
    let mut r: Vec<String> = Vec::new();
    match outcome {
        RestackOutcome::NothingToRestack => r.push("No abandoned commits to restack.".to_owned()),
        RestackOutcome::Finished => r.push("Finished restacking commits.".to_owned()),
        RestackOutcome::Failed(code) => {
            let mut line = "Error: Could not restack commits (exit code ".to_owned();
            crate::text::push_i64_decimal(&mut line, code as i64);
            line.append(").");
            r.push(line);
            r.push("You can resolve the error and try running `git restack` again.".to_owned());
        },
    }
    assert(r@.map_values(|t: String| t@) =~= restack_report_spec(outcome));
    r
}

/// What restacking branches reports.
pub fn restack_branches_report(num_moved: usize) -> (r: &'static str)
    ensures
        r@ == if num_moved == 0 {
            "No abandoned branches to restack."@
        } else {
            "Finished restacking branches."@
        },
{
    if num_moved == 0 {
        "No abandoned branches to restack."
    } else {
        "Finished restacking branches."
    }
}

/// The moves that restack the commits `candidates` (see
/// `restack_moves_spec`): pairs of a commit to move and the commit to move
/// it onto. `kids[i]` holds the children of `candidates[i]`.
pub fn restack_moves(
    event_replayer: &EventReplayer,
    event_cursor: EventCursor,
    candidates: &Vec<Oid>,
    kids: &Vec<Vec<Oid>>,
    obsolete: &Vec<Oid>,
) -> (r: Vec<(Oid, Oid)>)
    requires
        event_replayer.wf(),
        0 <= event_cursor.event_id <= event_replayer.recorded().len(),
        kids@.len() == candidates@.len(),
    ensures
        oid_pairs_view(r@) == restack_moves_spec(
            event_replayer.recorded(),
            event_cursor.event_id as int,
            candidates@,
            kids@,
            obsolete@,
        ),
{
    let ghost evs = event_replayer.recorded();
    let ghost c = event_cursor.event_id as int;
    let mut r: Vec<(Oid, Oid)> = Vec::new();
    let mut i: usize = 0;
    assert(candidates@.take(0) =~= Seq::<Oid>::empty());
    assert(oid_pairs_view(r@) =~= Seq::<(Seq<u8>, Seq<u8>)>::empty());
    while i < candidates.len()
        invariant
            i <= candidates@.len(),
            kids@.len() == candidates@.len(),
            event_replayer.wf(),
            0 <= event_cursor.event_id <= event_replayer.recorded().len(),
            evs == event_replayer.recorded(),
            c == event_cursor.event_id as int,
            oid_pairs_view(r@) == restack_moves_spec(
                evs,
                c,
                candidates@.take(i as int),
                kids@.take(i as int),
                obsolete@,
            ),
        decreases candidates@.len() - i,
    {
        assert(candidates@.take(i + 1).drop_last() =~= candidates@.take(i as int));
        assert(kids@.take(i + 1).drop_last() =~= kids@.take(i as int));
        assert(candidates@.take(i + 1).last() == candidates@[i as int]);
        assert(kids@.take(i + 1).last() == kids@[i as int]);
        match find_abandoned_children(event_replayer, event_cursor, candidates[i], kids[i].as_slice(), obsolete.as_slice()) {
            None => {},
            Some((dest, abandoned)) => {
                let ghost base = oid_pairs_view(r@);
                let ghost av = oids_view(abandoned@);
                let mut j: usize = 0;
                while j < abandoned.len()
                    invariant
                        j <= abandoned@.len(),
                        av == oids_view(abandoned@),
                        oid_pairs_view(r@) == base + av.take(j as int).map_values(|k: Seq<u8>| (k, dest@)),
                    decreases abandoned@.len() - j,
                {
                    let ghost prev = oid_pairs_view(r@);
                    r.push((abandoned[j], dest));
                    assert(oid_pairs_view(r@) =~= prev.push((av[j as int], dest@)));
                    assert(av.take(j + 1).map_values(|k: Seq<u8>| (k, dest@)) =~= av.take(j as int).map_values(
                        |k: Seq<u8>| (k, dest@),
                    ).push((av[j as int], dest@)));
                    j = j + 1;
                }
                assert(av.take(abandoned@.len() as int) =~= av);
            },
        }
        i = i + 1;
    }
    assert(candidates@.take(candidates@.len() as int) =~= candidates@);
    assert(kids@.take(candidates@.len() as int) =~= kids@);
    r
}

} // verus!
