//! What the hooks that Git calls during and after a rebase decide: which
//! commits were dropped, how the `rewritten-list` file grows, and the
//! warnings about commits and branches that a rewrite left behind.

use vstd::prelude::*;

use crate::eventlog::{EventCursor, EventReplayer, EventView};
use crate::execute::last_rewrite;
use crate::formatting::{pluralize_text, Pluralize};
use crate::hooks::oid_pairs_view;
use crate::node_descriptors::{names_of, BranchTargets};
use crate::oid::Oid;
use crate::repo::{reference_suffix, CategorizedReferenceName};
use crate::plan::{contains_oid, oids_view};
use crate::restack::{abandoned_children_spec, find_abandoned_children};
use crate::text::{
    join, join_spec, lemma_text_lt_order, sort_texts, sorted_distinct, sorted_multiset, sorted_set, strictly_sorted,
};

verus! {

/// Whether the `post-rewrite` hook reports what it processes: not for an
/// amend made while a rebase is underway (the rebase reports it).
pub fn should_report_rewrite(rewrite_type: &str, is_rebase_underway: bool) -> (r: bool)
    ensures
        r == !(rewrite_type@ == "amend"@ && is_rebase_underway),
{
    let t = crate::text::str_chars(rewrite_type);
    let amend = crate::text::str_chars("amend");
    !(crate::text::chars_eq(t.as_slice(), amend.as_slice()) && is_rebase_underway)
}

/// The line that the `post-rewrite` hook prints: how many commits were
/// rewritten.
pub fn processing_message(num_rewritten_commits: usize) -> (r: String)
    requires
        num_rewritten_commits <= isize::MAX,
    ensures
        r@ == "branchless: processing "@ + pluralize_text(
            num_rewritten_commits as int,
            "rewritten commit"@,
            "rewritten commits"@,
        ),
{
    let mut r = "branchless: processing ".to_owned();
    let p = Pluralize {
        amount: num_rewritten_commits as isize,
        singular: "rewritten commit",
        plural: "rewritten commits",
    };
    r.append(p.to_string().as_str());
    r
}

/// The names of the abandoned branches, each once, in order.
pub open spec fn distinct_branches(names: Seq<Seq<char>>) -> Seq<Seq<char>> {
    sorted_set(names.to_set())
}

/// The parts of the warning about abandoned commits and branches: the
/// number of commits, if any; the number of distinct branches with their
/// short names in order, if any.
pub open spec fn abandoned_items_spec(num_children: nat, names: Seq<Seq<char>>) -> Seq<Seq<char>> {
    let ds = distinct_branches(names);
    let suffixes = sorted_multiset(ds.map_values(|n: Seq<char>| reference_suffix(n)).to_multiset());
    (if num_children > 0 {
        seq![pluralize_text(num_children as int, "commit"@, "commits"@)]
    } else {
        Seq::empty()
    }) + (if ds.len() > 0 {
        seq![pluralize_text(ds.len() as int, "branch"@, "branches"@) + " ("@ + join_spec(suffixes, ", "@) + ")"@]
    } else {
        Seq::empty()
    })
}

/// The warning after a rewrite that left commits or branches behind, if it
/// did.
pub open spec fn abandoned_warning_spec(num_children: nat, names: Seq<Seq<char>>) -> Option<Seq<char>> {
    if num_children > 0 || names.len() > 0 {
        Some("This operation abandoned "@ + join_spec(abandoned_items_spec(num_children, names), " and "@) + "!"@)
    } else {
        None
    }
}

/// Strictly sorted texts drawn from `names` are distinct, so there are no
/// more of them than `names`, and there is one if `names` is not empty.
proof fn lemma_distinct_len(names: Seq<Seq<char>>, ds: Seq<Seq<char>>)
    requires
        strictly_sorted(ds),
        ds.to_set() == names.to_set(),
    ensures
        ds.len() <= names.len(),
        names.len() > 0 ==> ds.len() > 0,
{
    assert(ds.no_duplicates()) by {
        assert forall|i: int, j: int| 0 <= i < ds.len() && 0 <= j < ds.len() && i != j implies ds[i] != ds[j] by {
            lemma_text_lt_order(ds[i], ds[j]);
            if i < j {
                assert(crate::text::text_lt(ds[i], ds[j]));
            } else {
                assert(crate::text::text_lt(ds[j], ds[i]));
            }
        }
    }
    ds.unique_seq_to_set();
    names.lemma_cardinality_of_set();
    if names.len() > 0 {
        assert(names.to_set().contains(names[0]));
        assert(ds.to_set().contains(names[0]));
    }
}

/// The warning after a rewrite that left `num_abandoned_children` commits
/// and the branches `abandoned_branches` (full reference names) behind, if
/// it left any.
pub fn abandoned_warning(num_abandoned_children: usize, abandoned_branches: Vec<String>) -> (r: Option<String>)
    requires
        num_abandoned_children <= isize::MAX,
        abandoned_branches@.len() <= isize::MAX,
    ensures
        opt_text(r) == abandoned_warning_spec(
            num_abandoned_children as nat,
            abandoned_branches@.map_values(|t: String| t@),
        ),
{
    let ghost names = abandoned_branches@.map_values(|t: String| t@);
    let any_branch = abandoned_branches.len() > 0;
    let distinct = sorted_distinct(abandoned_branches);
    let ghost ds = distinct@.map_values(|t: String| t@);
    proof {
        lemma_distinct_len(names, ds);
    }
    let mut items: Vec<String> = Vec::new();
    if num_abandoned_children > 0 {
        let p = Pluralize { amount: num_abandoned_children as isize, singular: "commit", plural: "commits" };
        items.push(p.to_string());
    }
    let ghost first_items = items@.map_values(|t: String| t@);
    if distinct.len() > 0 {
        let mut suffixes: Vec<String> = Vec::new();
        let mut i: usize = 0;
        while i < distinct.len()
            invariant
                i <= distinct@.len(),
                ds == distinct@.map_values(|t: String| t@),
                suffixes@.map_values(|t: String| t@) == ds.take(i as int).map_values(
                    |n: Seq<char>| reference_suffix(n),
                ),
            decreases distinct@.len() - i,
        {
            let name = CategorizedReferenceName::new(distinct[i].as_str());
            let ghost s0 = suffixes@.map_values(|t: String| t@);
            let suffix = name.render_suffix();
            suffixes.push(suffix);
            assert(suffixes@.map_values(|t: String| t@) =~= s0.push(reference_suffix(ds[i as int])));
            assert(ds.take(i + 1).map_values(|n: Seq<char>| reference_suffix(n)) =~= ds.take(i as int).map_values(
                |n: Seq<char>| reference_suffix(n),
            ).push(reference_suffix(ds[i as int])));
            i = i + 1;
        }
        assert(ds.take(i as int) =~= ds);
        let sorted = sort_texts(suffixes);
        let count = Pluralize { amount: distinct.len() as isize, singular: "branch", plural: "branches" };
        let mut item = count.to_string();
        item.append(" (");
        item.append(join(&sorted, ", ").as_str());
        item.append(")");
        items.push(item);
    }
    let ghost all_items = abandoned_items_spec(num_abandoned_children as nat, names);
    assert(items@.map_values(|t: String| t@) =~= all_items);
    if items.len() == 0 {
        return None;
    }
    let mut r = "This operation abandoned ".to_owned();
    r.append(join(&items, " and ").as_str());
    r.append("!");
    Some(r)
}

/// The commits that the rewrites of `olds` left behind, with repeats: for
/// each rewritten commit in order, its abandoned children (its children at
/// the same position of `kids` that are not obsolete).
pub open spec fn left_behind_children(
    evs: Seq<EventView>,
    c: int,
    olds: Seq<Oid>,
    kids: Seq<Vec<Oid>>,
    obsolete: Seq<Oid>,
) -> Seq<Seq<u8>>
    decreases olds.len(),
{
    if olds.len() == 0 {
        Seq::empty()
    } else {
        let before = left_behind_children(evs, c, olds.drop_last(), kids.drop_last(), obsolete);
        match abandoned_children_spec(evs, c, olds.last()@, kids.last()@, obsolete) {
            None => before,
            Some((_t, ks)) => before + ks,
        }
    }
}

/// The branches that the rewrites of `olds` left behind, with repeats: the
/// names of the branches at each rewritten commit with abandoned children.
pub open spec fn left_behind_branches(
    evs: Seq<EventView>,
    c: int,
    olds: Seq<Oid>,
    kids: Seq<Vec<Oid>>,
    obsolete: Seq<Oid>,
    targets: Seq<BranchTargets>,
) -> Seq<Seq<char>>
    decreases olds.len(),
{
    if olds.len() == 0 {
        Seq::empty()
    } else {
        let before = left_behind_branches(evs, c, olds.drop_last(), kids.drop_last(), obsolete, targets);
        match abandoned_children_spec(evs, c, olds.last()@, kids.last()@, obsolete) {
            None => before,
            Some(_) => before + names_of(targets, olds.last()@),
        }
    }
}

/// The names of the branches at `oid`.
fn target_names(targets: &Vec<BranchTargets>, oid: Oid) -> (r: Vec<String>)
    ensures
        r@.map_values(|n: String| n@) == names_of(targets@, oid@),
{
    let ghost tv = targets@;
    let mut k: usize = 0;
    assert(tv.skip(0) =~= tv);
    while k < targets.len() && targets[k].oid != oid
        invariant
            k <= tv.len(),
            tv == targets@,
            names_of(tv, oid@) == names_of(tv.skip(k as int), oid@),
        decreases tv.len() - k,
    {
        assert(tv.skip(k as int).drop_first() =~= tv.skip(k + 1));
        k = k + 1;
    }
    let mut r: Vec<String> = Vec::new();
    if k == targets.len() {
        assert(tv.skip(k as int).len() == 0);
        assert(r@.map_values(|n: String| n@) =~= Seq::<Seq<char>>::empty());
        return r;
    }
    let names = &targets[k].names;
    let ghost nv = names@.map_values(|n: String| n@);
    assert(names_of(tv, oid@) == nv);
    let mut i: usize = 0;
    while i < names.len()
        invariant
            i <= names@.len(),
            nv == names@.map_values(|n: String| n@),
            r@.map_values(|n: String| n@) == nv.take(i as int),
        decreases names@.len() - i,
    {
        let ghost before = r@.map_values(|n: String| n@);
        r.push(names[i].clone());
        assert(r@.map_values(|n: String| n@) =~= before.push(nv[i as int]));
        assert(nv.take(i + 1) =~= nv.take(i as int).push(nv[i as int]));
        i = i + 1;
    }
    assert(nv.take(names@.len() as int) =~= nv);
    r
}

/// What the rewrites of `olds` left behind: how many distinct commits (see
/// `left_behind_children`), and the names of the branches (see
/// `left_behind_branches`). `kids[i]` holds the children of `olds[i]`.
pub fn abandoned_by_rewrites(
    event_replayer: &EventReplayer,
    event_cursor: EventCursor,
    olds: &Vec<Oid>,
    kids: &Vec<Vec<Oid>>,
    obsolete: &Vec<Oid>,
    targets: &Vec<BranchTargets>,
) -> (r: (usize, Vec<String>))
    requires
        event_replayer.wf(),
        0 <= event_cursor.event_id <= event_replayer.recorded().len(),
        kids@.len() == olds@.len(),
    ensures
        r.0 == left_behind_children(
            event_replayer.recorded(),
            event_cursor.event_id as int,
            olds@,
            kids@,
            obsolete@,
        ).to_set().len(),
        r.1@.map_values(|n: String| n@) == left_behind_branches(
            event_replayer.recorded(),
            event_cursor.event_id as int,
            olds@,
            kids@,
            obsolete@,
            targets@,
        ),
{
    let ghost evs = event_replayer.recorded();
    let ghost c = event_cursor.event_id as int;
    let mut distinct: Vec<Oid> = Vec::new();
    let mut branches: Vec<String> = Vec::new();
    let mut i: usize = 0;
    assert(olds@.take(0) =~= Seq::<Oid>::empty());
    assert(oids_view(distinct@) =~= Seq::<Seq<u8>>::empty());
    assert(branches@.map_values(|n: String| n@) =~= Seq::<Seq<char>>::empty());
    while i < olds.len()
        invariant
            i <= olds@.len(),
            kids@.len() == olds@.len(),
            event_replayer.wf(),
            0 <= event_cursor.event_id <= event_replayer.recorded().len(),
            evs == event_replayer.recorded(),
            c == event_cursor.event_id as int,
            oids_view(distinct@).no_duplicates(),
            oids_view(distinct@).to_set() == left_behind_children(
                evs,
                c,
                olds@.take(i as int),
                kids@.take(i as int),
                obsolete@,
            ).to_set(),
            branches@.map_values(|n: String| n@) == left_behind_branches(
                evs,
                c,
                olds@.take(i as int),
                kids@.take(i as int),
                obsolete@,
                targets@,
            ),
        decreases olds@.len() - i,
    {
        assert(olds@.take(i + 1).drop_last() =~= olds@.take(i as int));
        assert(kids@.take(i + 1).drop_last() =~= kids@.take(i as int));
        assert(olds@.take(i + 1).last() == olds@[i as int]);
        assert(kids@.take(i + 1).last() == kids@[i as int]);
        let ghost prev_all = left_behind_children(evs, c, olds@.take(i as int), kids@.take(i as int), obsolete@);
        match find_abandoned_children(event_replayer, event_cursor, olds[i], kids[i].as_slice(), obsolete.as_slice()) {
            None => {},
            Some((_dest, abandoned)) => {
                let ghost av = oids_view(abandoned@);
                let mut j: usize = 0;
                assert(av.take(0) =~= Seq::<Seq<u8>>::empty());
                assert(prev_all + av.take(0) =~= prev_all);
                while j < abandoned.len()
                    invariant
                        j <= abandoned@.len(),
                        av == oids_view(abandoned@),
                        oids_view(distinct@).no_duplicates(),
                        oids_view(distinct@).to_set() == (prev_all + av.take(j as int)).to_set(),
                    decreases abandoned@.len() - j,
                {
                    let x = abandoned[j];
                    let ghost before = oids_view(distinct@);
                    assert(av.take(j + 1) =~= av.take(j as int).push(x@));
                    assert(prev_all + av.take(j + 1) =~= (prev_all + av.take(j as int)).push(x@));
                    if !contains_oid(&distinct, x) {
                        distinct.push(x);
                        assert(oids_view(distinct@) =~= before.push(x@));
                        assert(oids_view(distinct@).no_duplicates()) by {
                            assert forall|a: int, b: int|
                                0 <= a < b < oids_view(distinct@).len() implies oids_view(distinct@)[a]
                                != oids_view(distinct@)[b] by {
                                if b == before.len() {
                                    assert(before.contains(before[a]));
                                }
                            }
                        }
                    }
                    proof {
                        lemma_push_to_set(prev_all + av.take(j as int), x@);
                        lemma_push_to_set(before, x@);
                    }
                    j = j + 1;
                }
                assert(av.take(abandoned@.len() as int) =~= av);
                let names = target_names(targets, olds[i]);
                let ghost bv = branches@.map_values(|n: String| n@);
                let mut k: usize = 0;
                let ghost nv = names@.map_values(|n: String| n@);
                assert(nv.take(0) =~= Seq::<Seq<char>>::empty());
                assert(bv + nv.take(0) =~= bv);
                while k < names.len()
                    invariant
                        k <= names@.len(),
                        nv == names@.map_values(|n: String| n@),
                        branches@.map_values(|n: String| n@) == bv + nv.take(k as int),
                    decreases names@.len() - k,
                {
                    let ghost b0 = branches@.map_values(|n: String| n@);
                    branches.push(names[k].clone());
                    assert(branches@.map_values(|n: String| n@) =~= b0.push(nv[k as int]));
                    assert(nv.take(k + 1) =~= nv.take(k as int).push(nv[k as int]));
                    k = k + 1;
                }
                assert(nv.take(names@.len() as int) =~= nv);
            },
        }
        i = i + 1;
    }
    assert(olds@.take(olds@.len() as int) =~= olds@);
    assert(kids@.take(olds@.len() as int) =~= kids@);
    proof {
        oids_view(distinct@).unique_seq_to_set();
    }
    (distinct.len(), branches)
}

/// Adding an element to a sequence adds it to its set.
proof fn lemma_push_to_set(s: Seq<Seq<u8>>, x: Seq<u8>)
    ensures
        s.push(x).to_set() == s.to_set().insert(x),
{
    assert(s.push(x).to_set() =~= s.to_set().insert(x)) by {
        assert forall|y: Seq<u8>| s.push(x).to_set().contains(y) implies s.to_set().insert(x).contains(y) by {
            let k = choose|k: int| 0 <= k < s.push(x).len() && s.push(x)[k] == y;
            if k < s.len() {
                assert(s[k] == y);
            }
        }
        assert forall|y: Seq<u8>| s.to_set().insert(x).contains(y) implies s.push(x).to_set().contains(y) by {
            if y == x {
                assert(s.push(x)[s.len() as int] == y);
            } else {
                let k = choose|k: int| 0 <= k < s.len() && s[k] == y;
                assert(s.push(x)[k] == y);
            }
        }
    }
}

/// The view of an optional text.
pub open spec fn opt_text(r: Option<String>) -> Option<Seq<char>> {
    match r {
        Some(t) => Some(t@),
        None => None,
    }
}

/// The lines printed after the warning about abandoned commits: what to
/// do about them, and how to turn the warning off.
pub fn abandoned_advice(warning: &str) -> (r: String)
    ensures
        r@ == "branchless: "@ + warning@ + "\n"@ + "branchless: Consider running one of the following:\n"@
            + "branchless:   - git restack: re-apply the abandoned commits/branches\n"@
            + "branchless:     (this is most likely what you want to do)\n"@
            + "branchless:   - git smartlog: assess the situation\n"@
            + "branchless:   - git hide [<commit>...]: hide the commits from the smartlog\n"@
            + "branchless:   - git undo: undo the operation\n"@
            + "branchless:   - git config branchless.restack.warnAbandoned false: suppress this message\n"@,
{
    let mut r = "branchless: ".to_owned();
    r.append(warning);
    r.append("\n");
    r.append("branchless: Consider running one of the following:\n");
    r.append("branchless:   - git restack: re-apply the abandoned commits/branches\n");
    r.append("branchless:     (this is most likely what you want to do)\n");
    r.append("branchless:   - git smartlog: assess the situation\n");
    r.append("branchless:   - git hide [<commit>...]: hide the commits from the smartlog\n");
    r.append("branchless:   - git undo: undo the operation\n");
    r.append("branchless:   - git config branchless.restack.warnAbandoned false: suppress this message\n");
    r
}

/// What the `drop-commit-if-empty` hook does to a commit that an on-disk
/// rebase just made.
#[derive(Debug, PartialEq, Eq)]
pub struct DropEmptyCommit {
    /// Where `HEAD` goes: the parent of the empty commit.
    pub new_head_oid: Oid,
    /// Whether that commit is recorded as where `HEAD` goes after the
    /// rebase (the dropped commit was the original `HEAD`).
    pub save_as_updated_head: bool,
    /// The entries for the `rewritten-list` file: both the original commit
    /// and the empty commit dropped.
    pub rewritten_entries: Vec<(Oid, Oid)>,
}

/// What to do after the rebase applied `old_commit_oid` as the commit at
/// `HEAD`: nothing unless `HEAD` is a commit that changes nothing and has a
/// single parent; then go back to the parent, drop both commits, and
/// remember the parent for `HEAD` if `old_commit_oid` was the original
/// `HEAD` (`orig_head_oid`).
pub fn drop_commit_if_empty(
    old_commit_oid: Oid,
    head_oid: Option<Oid>,
    head_is_empty: bool,
    head_only_parent: Option<Oid>,
    orig_head_oid: Option<Oid>,
) -> (r: Option<DropEmptyCommit>)
    ensures
        match (head_oid, head_only_parent) {
            (Some(h), Some(p)) if head_is_empty => r matches Some(d) && d.new_head_oid == p
                && d.save_as_updated_head == (orig_head_oid == Some(old_commit_oid))
                && oid_pairs_view(d.rewritten_entries@) == seq![
                    (old_commit_oid@, crate::execute::zero_oid_view()),
                    (h@, crate::execute::zero_oid_view()),
                ],
            _ => r is None,
        },
{
    let h = match head_oid {
        Some(h) => h,
        None => return None,
    };
    if !head_is_empty {
        return None;
    }
    let p = match head_only_parent {
        Some(p) => p,
        None => return None,
    };
    let save = match orig_head_oid {
        Some(o) => o == old_commit_oid,
        None => false,
    };
    proof {
        if let Some(o) = orig_head_oid {
            if o@ == old_commit_oid@ {
                crate::oid::lemma_oid_ext_equal(o, old_commit_oid);
            }
        }
    }
    let mut entries: Vec<(Oid, Oid)> = Vec::new();
    entries.push((old_commit_oid, Oid::zero()));
    entries.push((h, Oid::zero()));
    assert(entries@[0].1@ =~= crate::execute::zero_oid_view());
    assert(entries@[1].1@ =~= crate::execute::zero_oid_view());
    assert(oid_pairs_view(entries@) =~= seq![
        (old_commit_oid@, crate::execute::zero_oid_view()),
        (h@, crate::execute::zero_oid_view()),
    ]);
    Some(DropEmptyCommit { new_head_oid: p, save_as_updated_head: save, rewritten_entries: entries })
}

/// The commit to remember as where `HEAD` goes after the rebase when the
/// commit `commit_oid` is skipped as already applied upstream: the current
/// `HEAD`, if the skipped commit was the original `HEAD`.
pub fn skipped_head_target(commit_oid: Oid, orig_head_oid: Option<Oid>, current_head_oid: Option<Oid>) -> (r: Option<
    Oid,
>)
    ensures
        r == (if orig_head_oid == Some(commit_oid) {
            current_head_oid
        } else {
            None
        }),
{
    match orig_head_oid {
        Some(o) => if o == commit_oid {
            proof {
                crate::oid::lemma_oid_ext_equal(o, commit_oid);
            }
            current_head_oid
        } else {
            None
        },
        None => None,
    }
}

/// Whether an entry of `v` rewrites `oid`.
pub open spec fn rewrites(v: Seq<(Seq<u8>, Seq<u8>)>, oid: Seq<u8>) -> bool {
    exists|j: int| 0 <= j < v.len() && (#[trigger] v[j]).0 == oid
}

/// The `rewritten-list` file after adding `adds` to the entries `current`:
/// the first current entry for a commit that `adds` rewrites takes the new
/// commit from the last such entry of `adds`; the other current entries
/// stay; then each commit of `adds` that no current entry has follows,
/// once, in the order in which it first appears, with its last new commit.
pub open spec fn merged_entries_spec(current: Seq<(Seq<u8>, Seq<u8>)>, adds: Seq<(Seq<u8>, Seq<u8>)>) -> Seq<
    (Seq<u8>, Seq<u8>),
> {
    updated_entries(current, adds, current.len() as int) + new_entries_spec(current, adds, adds.len() as int)
}

/// The first `n` entries of `current`, each updated by `adds` if it is the
/// first entry for a commit that `adds` rewrites.
pub open spec fn updated_entries(current: Seq<(Seq<u8>, Seq<u8>)>, adds: Seq<(Seq<u8>, Seq<u8>)>, n: int) -> Seq<
    (Seq<u8>, Seq<u8>),
> {
    Seq::new(
        n as nat,
        |i: int|
            if rewrites(adds, current[i].0) && !rewrites(current.take(i), current[i].0) {
                (current[i].0, last_rewrite(adds, current[i].0).unwrap())
            } else {
                current[i]
            },
    )
}

/// The entries of `adds.take(k)` for commits that `current` does not have,
/// each once, in order of first appearance, with their last new commit in
/// all of `adds`.
pub open spec fn new_entries_spec(current: Seq<(Seq<u8>, Seq<u8>)>, adds: Seq<(Seq<u8>, Seq<u8>)>, k: int) -> Seq<
    (Seq<u8>, Seq<u8>),
>
    decreases k,
{
    if k <= 0 || k > adds.len() {
        Seq::empty()
    } else {
        let before = new_entries_spec(current, adds, k - 1);
        let o = adds[k - 1].0;
        if rewrites(current, o) || rewrites(adds.take(k - 1), o) {
            before
        } else {
            before.push((o, last_rewrite(adds, o).unwrap()))
        }
    }
}

/// A commit that some entry rewrites has a last rewrite.
proof fn lemma_rewrites_has_last(v: Seq<(Seq<u8>, Seq<u8>)>, oid: Seq<u8>)
    requires
        rewrites(v, oid),
    ensures
        last_rewrite(v, oid) is Some,
    decreases v.len(),
{
    if v.last().0 != oid {
        let j = choose|j: int| 0 <= j < v.len() && (#[trigger] v[j]).0 == oid;
        assert(v.drop_last()[j] == v[j]);
        lemma_rewrites_has_last(v.drop_last(), oid);
    }
}

/// Whether one of the first `k` entries of `v` rewrites `oid`.
fn rewrites_among(v: &[(Oid, Oid)], k: usize, oid: &Oid) -> (r: bool)
    requires
        k <= v@.len(),
    ensures
        r == rewrites(oid_pairs_view(v@).take(k as int), oid@),
{
    let ghost vv = oid_pairs_view(v@);
    let mut j: usize = 0;
    while j < k
        invariant
            j <= k <= v@.len(),
            vv == oid_pairs_view(v@),
            forall|i: int| 0 <= i < j ==> (#[trigger] vv[i]).0 != oid@,
        decreases k - j,
    {
        if v[j].0 == *oid {
            assert(vv.take(k as int)[j as int] == vv[j as int]);
            return true;
        }
        j = j + 1;
    }
    assert forall|i: int| 0 <= i < k implies (#[trigger] vv.take(k as int)[i]).0 != oid@ by {
        assert(vv.take(k as int)[i] == vv[i]);
    }
    false
}

/// The `rewritten-list` file after adding `adds` to `current` (see
/// `merged_entries_spec`).
pub fn merge_rewritten_entries(current: &[(Oid, Oid)], adds: &[(Oid, Oid)]) -> (r: Vec<(Oid, Oid)>)
    ensures
        oid_pairs_view(r@) == merged_entries_spec(oid_pairs_view(current@), oid_pairs_view(adds@)),
{
    let ghost cv = oid_pairs_view(current@);
    let ghost av = oid_pairs_view(adds@);
    let mut r: Vec<(Oid, Oid)> = Vec::new();
    let mut i: usize = 0;
    assert(oid_pairs_view(r@) =~= updated_entries(cv, av, 0));
    while i < current.len()
        invariant
            i <= current@.len(),
            cv == oid_pairs_view(current@),
            av == oid_pairs_view(adds@),
            oid_pairs_view(r@) == updated_entries(cv, av, i as int),
        decreases current@.len() - i,
    {
        let (o, n) = current[i];
        let ghost r0 = oid_pairs_view(r@);
        let in_adds = rewrites_among(adds, adds.len(), &o);
        assert(av.take(adds@.len() as int) =~= av);
        let seen = rewrites_among(current, i, &o);
        assert(cv[i as int] == (o@, n@));
        if in_adds && !seen {
            proof {
                lemma_rewrites_has_last(av, o@);
            }
            let found = crate::execute::find_last_rewrite(adds, &o);
            let new_oid = found.unwrap();
            assert(new_oid@ == last_rewrite(av, o@).unwrap());
            r.push((o, new_oid));
            assert(oid_pairs_view(r@) =~= r0.push((o@, new_oid@)));
            assert(updated_entries(cv, av, i + 1)[i as int] == (o@, new_oid@));
        } else {
            r.push((o, n));
            assert(oid_pairs_view(r@) =~= r0.push((o@, n@)));
            assert(updated_entries(cv, av, i + 1)[i as int] == (o@, n@));
        }
        assert(oid_pairs_view(r@) =~= updated_entries(cv, av, i + 1));
        i = i + 1;
    }
    let ghost mid = oid_pairs_view(r@);
    let mut k: usize = 0;
    assert(mid + new_entries_spec(cv, av, 0) =~= mid);
    while k < adds.len()
        invariant
            k <= adds@.len(),
            cv == oid_pairs_view(current@),
            av == oid_pairs_view(adds@),
            mid == updated_entries(cv, av, cv.len() as int),
            oid_pairs_view(r@) == mid + new_entries_spec(cv, av, k as int),
        decreases adds@.len() - k,
    {
        let o = adds[k].0;
        assert(av[k as int].0 == o@);
        let ghost r0 = oid_pairs_view(r@);
        let in_current = rewrites_among(current, current.len(), &o);
        assert(cv.take(current@.len() as int) =~= cv);
        let seen = rewrites_among(adds, k, &o);
        if !in_current && !seen {
            proof {
                assert(av[k as int].0 == o@);
                assert(rewrites(av, o@));
                lemma_rewrites_has_last(av, o@);
            }
            let new_oid = crate::execute::find_last_rewrite(adds, &o).unwrap();
            r.push((o, new_oid));
            assert(oid_pairs_view(r@) =~= r0.push((o@, new_oid@)));
        }
        k = k + 1;
    }
    r
}

/// Whether no two entries of a list of rewritten commits are for the same
/// commit.
pub open spec fn no_repeated_commits(v: Seq<(Seq<u8>, Seq<u8>)>) -> bool {
    forall|i: int, j: int| 0 <= i < j < v.len() ==> (#[trigger] v[i]).0 != (#[trigger] v[j]).0
}

/// In a list without repeated commits, the entry of a commit is its last
/// rewrite.
proof fn lemma_unique_lookup(v: Seq<(Seq<u8>, Seq<u8>)>, i: int)
    requires
        no_repeated_commits(v),
        0 <= i < v.len(),
    ensures
        last_rewrite(v, v[i].0) == Some(v[i].1),
    decreases v.len(),
{
    if i < v.len() - 1 {
        assert(v[i].0 != v[v.len() - 1].0);
        let w = v.drop_last();
        assert(w[i] == v[i]);
        assert(no_repeated_commits(w)) by {
            assert forall|a: int, b: int| 0 <= a < b < w.len() implies (#[trigger] w[a]).0 != (#[trigger] w[b]).0 by {
                assert(w[a] == v[a] && w[b] == v[b]);
            }
        }
        lemma_unique_lookup(w, i);
    }
}

/// A commit that no entry rewrites has no last rewrite.
proof fn lemma_absent_lookup(v: Seq<(Seq<u8>, Seq<u8>)>, o: Seq<u8>)
    requires
        !rewrites(v, o),
    ensures
        last_rewrite(v, o) is None,
    decreases v.len(),
{
    if v.len() > 0 {
        assert(v[v.len() - 1].0 != o);
        assert(!rewrites(v.drop_last(), o)) by {
            if rewrites(v.drop_last(), o) {
                let j = choose|j: int| 0 <= j < v.drop_last().len() && (#[trigger] v.drop_last()[j]).0 == o;
                assert(v[j] == v.drop_last()[j]);
            }
        }
        lemma_absent_lookup(v.drop_last(), o);
    }
}

/// The entries added for new commits are for commits of `adds.take(k)`
/// that `current` lacks, once each, with their last rewrite; and every
/// such commit has one.
proof fn lemma_new_entries(current: Seq<(Seq<u8>, Seq<u8>)>, adds: Seq<(Seq<u8>, Seq<u8>)>, k: int)
    requires
        0 <= k <= adds.len(),
    ensures
        ({
            let n = new_entries_spec(current, adds, k);
            &&& forall|x: int|
                0 <= x < n.len() ==> !rewrites(current, (#[trigger] n[x]).0) && rewrites(adds.take(k), n[x].0)
                    && last_rewrite(adds, n[x].0) == Some(n[x].1)
            &&& no_repeated_commits(n)
            &&& forall|o: Seq<u8>| rewrites(adds.take(k), o) && !rewrites(current, o) ==> #[trigger] rewrites(n, o)
        }),
    decreases k,
{
    if k == 0 {
        assert forall|o: Seq<u8>| rewrites(adds.take(0), o) implies false by {
            let j = choose|j: int| 0 <= j < adds.take(0).len() && (#[trigger] adds.take(0)[j]).0 == o;
        }
    } else {
        lemma_new_entries(current, adds, k - 1);
        let n0 = new_entries_spec(current, adds, k - 1);
        let n = new_entries_spec(current, adds, k);
        let o = adds[k - 1].0;
        assert(adds.take(k)[k - 1] == adds[k - 1]);
        assert forall|p: Seq<u8>| rewrites(adds.take(k - 1), p) implies rewrites(adds.take(k), p) by {
            let j = choose|j: int| 0 <= j < adds.take(k - 1).len() && (#[trigger] adds.take(k - 1)[j]).0 == p;
            assert(adds.take(k)[j] == adds.take(k - 1)[j]);
        }
        assert forall|p: Seq<u8>| rewrites(adds.take(k), p) && p != o implies rewrites(adds.take(k - 1), p) by {
            let j = choose|j: int| 0 <= j < adds.take(k).len() && (#[trigger] adds.take(k)[j]).0 == p;
            if j == k - 1 {
                assert(adds.take(k)[j] == adds[k - 1]);
            } else {
                assert(adds.take(k - 1)[j] == adds.take(k)[j]);
            }
        }
        if !(rewrites(current, o) || rewrites(adds.take(k - 1), o)) {
            assert(rewrites(adds, o)) by {
                assert(adds[k - 1].0 == o);
            }
            lemma_rewrites_has_last(adds, o);
            assert(n == n0.push((o, last_rewrite(adds, o).unwrap())));
            assert(rewrites(adds.take(k), o));
            assert(rewrites(n, o)) by {
                assert(n[n.len() - 1].0 == o);
            }
            assert forall|p: Seq<u8>| rewrites(adds.take(k), p) && !rewrites(current, p) implies #[trigger] rewrites(n, p) by {
                if p != o {
                    assert(rewrites(n0, p));
                    let j = choose|j: int| 0 <= j < n0.len() && (#[trigger] n0[j]).0 == p;
                    assert(n[j] == n0[j]);
                }
            }
            assert forall|x: int|
                0 <= x < n.len() implies !rewrites(current, (#[trigger] n[x]).0) && rewrites(adds.take(k), n[x].0)
                && last_rewrite(adds, n[x].0) == Some(n[x].1) by {
                if x < n0.len() {
                    assert(n[x] == n0[x]);
                }
            }
            assert(no_repeated_commits(n)) by {
                assert forall|a: int, b: int| 0 <= a < b < n.len() implies (#[trigger] n[a]).0 != (#[trigger] n[b]).0 by {
                    assert(n[a] == n0[a]);
                    if b < n0.len() {
                        assert(n[b] == n0[b]);
                    } else {
                        assert(rewrites(adds.take(k - 1), n0[a].0));
                    }
                }
            }
        } else {
            assert(n == n0);
            assert forall|p: Seq<u8>| rewrites(adds.take(k), p) && !rewrites(current, p) implies #[trigger] rewrites(n, p) by {
                if p == o {
                    assert(rewrites(adds.take(k - 1), o));
                }
            }
        }
    }
}

/// After entries are added to a list of rewritten commits in which no
/// commit repeats, no commit repeats, and the last rewrite of every commit
/// is its last rewrite among the added entries if they rewrite it, and
/// its rewrite before otherwise: the added entries win.
pub proof fn lemma_added_entries_win(current: Seq<(Seq<u8>, Seq<u8>)>, adds: Seq<(Seq<u8>, Seq<u8>)>, o: Seq<u8>)
    requires
        no_repeated_commits(current),
    ensures
        no_repeated_commits(merged_entries_spec(current, adds)),
        last_rewrite(merged_entries_spec(current, adds), o) == if rewrites(adds, o) {
            last_rewrite(adds, o)
        } else {
            last_rewrite(current, o)
        },
{
    let u = updated_entries(current, adds, current.len() as int);
    let n = new_entries_spec(current, adds, adds.len() as int);
    let m = merged_entries_spec(current, adds);
    lemma_new_entries(current, adds, adds.len() as int);
    assert(adds.take(adds.len() as int) =~= adds);
    assert(m == u + n);
    assert forall|i: int| 0 <= i < u.len() implies (#[trigger] u[i]).0 == current[i].0 by {}
    assert forall|i: int| 0 <= i < current.len() implies !rewrites(current.take(i), #[trigger] current[i].0) by {
        if rewrites(current.take(i), current[i].0) {
            let j = choose|j: int| 0 <= j < current.take(i).len() && (#[trigger] current.take(i)[j]).0 == current[i].0;
            assert(current.take(i)[j] == current[j]);
        }
    }
    assert(no_repeated_commits(m)) by {
        assert forall|a: int, b: int| 0 <= a < b < m.len() implies (#[trigger] m[a]).0 != (#[trigger] m[b]).0 by {
            if b < u.len() {
                assert(m[a] == u[a] && m[b] == u[b]);
            } else if a < u.len() {
                assert(m[a] == u[a] && m[b] == n[b - u.len()]);
                assert(!rewrites(current, n[b - u.len()].0));
                assert(current[a].0 == u[a].0);
            } else {
                assert(m[a] == n[a - u.len()] && m[b] == n[b - u.len()]);
            }
        }
    }
    if rewrites(current, o) {
        let i = choose|i: int| 0 <= i < current.len() && (#[trigger] current[i]).0 == o;
        assert(m[i] == u[i]);
        lemma_unique_lookup(m, i);
        if rewrites(adds, o) {
            lemma_rewrites_has_last(adds, o);
        } else {
            lemma_unique_lookup(current, i);
        }
    } else if rewrites(adds, o) {
        assert(rewrites(adds.take(adds.len() as int), o));
        assert(rewrites(n, o));
        let x = choose|x: int| 0 <= x < n.len() && (#[trigger] n[x]).0 == o;
        assert(m[u.len() + x] == n[x]);
        lemma_unique_lookup(m, u.len() + x);
    } else {
        assert(!rewrites(m, o)) by {
            if rewrites(m, o) {
                let j = choose|j: int| 0 <= j < m.len() && (#[trigger] m[j]).0 == o;
                if j < u.len() {
                    assert(m[j] == u[j]);
                    assert(current[j].0 == o);
                } else {
                    assert(m[j] == n[j - u.len()]);
                    assert(rewrites(adds.take(adds.len() as int), n[j - u.len()].0));
                }
            }
        }
        lemma_absent_lookup(m, o);
        lemma_absent_lookup(current, o);
    }
}

} // verus!
