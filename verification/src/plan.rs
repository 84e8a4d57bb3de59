//! Building a rebase plan: the constraints say which commits go on top of
//! which; the plan is the sequence of commands that carries them out.

use vstd::prelude::*;

use crate::hooks::oid_pairs_view;
use crate::oid::{oid_lt, Oid};
use crate::rebase::{
    command_views, fresh_label_spec, make_label_name, target_views, BuildRebasePlanError, CommandView,
    OidOrLabel, RebaseCommand, RebasePlan, TargetView,
};
use crate::text::{decimal_digits, u64_to_string};

verus! {

/// A commit and a list of commits related to it: its parents, or the
/// commits to put on top of it.
#[derive(Debug)]
pub struct Adjacency {
    pub oid: Oid,
    pub oids: Vec<Oid>,
}

/// The views of object IDs.
pub open spec fn oids_view(v: Seq<Oid>) -> Seq<Seq<u8>> {
    v.map_values(|o: Oid| o@)
}

/// The mathematical value of a list of adjacencies.
pub open spec fn table_view(t: Seq<Adjacency>) -> Seq<(Seq<u8>, Seq<Seq<u8>>)> {
    t.map_values(|a: Adjacency| (a.oid@, oids_view(a.oids@)))
}

/// The commits related to `oid` by the first entry for it; none if there
/// is no entry.
pub open spec fn table_lookup(t: Seq<(Seq<u8>, Seq<Seq<u8>>)>, oid: Seq<u8>) -> Seq<Seq<u8>>
    decreases t.len(),
{
    if t.len() == 0 {
        Seq::empty()
    } else if t[0].0 == oid {
        t[0].1
    } else {
        table_lookup(t.drop_first(), oid)
    }
}

/// The position of the first entry for `oid`.
fn find_entry(t: &Vec<Adjacency>, oid: Oid) -> (r: Option<usize>)
    ensures
        match r {
            Some(i) => i < t@.len() && t@[i as int].oid@ == oid@ && table_lookup(table_view(t@), oid@) == oids_view(
                t@[i as int].oids@,
            ),
            None => table_lookup(table_view(t@), oid@) == Seq::<Seq<u8>>::empty() && forall|k: int|
                0 <= k < t@.len() ==> t@[k].oid@ != oid@,
        },
{
    let ghost tv = table_view(t@);
    let mut i: usize = 0;
    assert(tv.skip(0) =~= tv);
    while i < t.len()
        invariant
            i <= t@.len(),
            tv == table_view(t@),
            table_lookup(tv, oid@) == table_lookup(tv.skip(i as int), oid@),
            forall|k: int| 0 <= k < i ==> t@[k].oid@ != oid@,
        decreases t@.len() - i,
    {
        assert(tv.skip(i as int)[0] == (t@[i as int].oid@, oids_view(t@[i as int].oids@)));
        if t[i].oid == oid {
            return Some(i);
        }
        assert(tv.skip(i as int).drop_first() =~= tv.skip(i + 1));
        i = i + 1;
    }
    None
}

/// A copy of the commits that the first entry for `oid` relates to it.
fn lookup_oids(t: &Vec<Adjacency>, oid: Oid) -> (r: Vec<Oid>)
    ensures
        oids_view(r@) == table_lookup(table_view(t@), oid@),
{
    match find_entry(t, oid) {
        Some(i) => copy_oids(&t[i].oids),
        None => {
            let v: Vec<Oid> = Vec::new();
            assert(oids_view(v@) =~= Seq::<Seq<u8>>::empty());
            v
        },
    }
}

/// A copy of a list of object IDs.
fn copy_oids(v: &Vec<Oid>) -> (r: Vec<Oid>)
    ensures
        r@ == v@,
{
    let mut r: Vec<Oid> = Vec::new();
    let mut i: usize = 0;
    while i < v.len()
        invariant
            i <= v@.len(),
            r@ == v@.take(i as int),
        decreases v@.len() - i,
    {
        r.push(v[i]);
        assert(v@.take(i + 1) =~= v@.take(i as int).push(v@[i as int]));
        i = i + 1;
    }
    assert(v@.take(v@.len() as int) =~= v@);
    r
}

/// Whether `v` holds `oid`.
pub(crate) fn contains_oid(v: &Vec<Oid>, oid: Oid) -> (r: bool)
    ensures
        r == oids_view(v@).contains(oid@),
{
    let ghost vv = oids_view(v@);
    let mut i: usize = 0;
    while i < v.len()
        invariant
            i <= v@.len(),
            vv == oids_view(v@),
            forall|k: int| 0 <= k < i ==> vv[k] != oid@,
        decreases v@.len() - i,
    {
        assert(vv[i as int] == v@[i as int]@);
        if v[i] == oid {
            return true;
        }
        i = i + 1;
    }
    false
}

/// Whether the IDs are sorted strictly increasing.
pub open spec fn oids_sorted(s: Seq<Seq<u8>>) -> bool {
    forall|i: int, j: int| 0 <= i < j < s.len() ==> oid_lt(#[trigger] s[i], #[trigger] s[j])
}

/// Whether a table of constraints is in its canonical form: entries
/// sorted by commit, each list of commits sorted, without repeats.
pub open spec fn table_wf(t: Seq<(Seq<u8>, Seq<Seq<u8>>)>) -> bool {
    &&& oids_sorted(t.map_values(|e: (Seq<u8>, Seq<Seq<u8>>)| e.0))
    &&& forall|i: int| 0 <= i < t.len() ==> oids_sorted(#[trigger] t[i].1)
    &&& forall|i: int| 0 <= i < t.len() ==> #[trigger] t[i].1.len() > 0
    &&& forall|i: int| 0 <= i < t.len() ==> #[trigger] t[i].0.len() == 20
    &&& forall|i: int, j: int| 0 <= i < t.len() && 0 <= j < t[i].1.len() ==> (#[trigger] t[i].1[j]).len() == 20
}

/// The keys of a table.
pub open spec fn table_keys(t: Seq<(Seq<u8>, Seq<Seq<u8>>)>) -> Seq<Seq<u8>> {
    t.map_values(|e: (Seq<u8>, Seq<Seq<u8>>)| e.0)
}

/// In a table whose keys differ, the lookup of a key finds its entry.
proof fn lemma_lookup_at(t: Seq<(Seq<u8>, Seq<Seq<u8>>)>, i: int)
    requires
        0 <= i < t.len(),
        forall|a: int, b: int| 0 <= a < b < t.len() ==> t[a].0 != t[b].0,
    ensures
        table_lookup(t, t[i].0) == t[i].1,
    decreases i,
{
    if i > 0 {
        assert(t[0].0 != t[i].0);
        lemma_lookup_at(t.drop_first(), i - 1);
    }
}

/// The lookup of a key without an entry finds nothing.
proof fn lemma_lookup_absent(t: Seq<(Seq<u8>, Seq<Seq<u8>>)>, k: Seq<u8>)
    requires
        forall|a: int| 0 <= a < t.len() ==> t[a].0 != k,
    ensures
        table_lookup(t, k) == Seq::<Seq<u8>>::empty(),
    decreases t.len(),
{
    if t.len() > 0 {
        assert(t[0].0 != k);
        lemma_lookup_absent(t.drop_first(), k);
    }
}

/// In a table in canonical form, keys differ.
proof fn lemma_wf_keys_distinct(t: Seq<(Seq<u8>, Seq<Seq<u8>>)>)
    requires
        table_wf(t),
    ensures
        forall|a: int, b: int| 0 <= a < b < t.len() ==> t[a].0 != t[b].0,
{
    assert forall|a: int, b: int| 0 <= a < b < t.len() implies t[a].0 != t[b].0 by {
        let ks = table_keys(t);
        assert(oid_lt(ks[a], ks[b]));
        crate::oid::lemma_oid_lt_order(t[a].0, t[a].0, t[a].0);
    }
}

/// Insert `x` into the strictly sorted IDs `v`, where it is not already.
fn insert_oid(v: &mut Vec<Oid>, x: Oid)
    requires
        oids_sorted(oids_view(old(v)@)),
    ensures
        oids_sorted(oids_view(final(v)@)),
        oids_view(final(v)@).to_set() == oids_view(old(v)@).to_set().insert(x@),
{
    let ghost ov = oids_view(v@);
    let mut i: usize = 0;
    while i < v.len()
        invariant
            i <= v@.len(),
            oids_view(v@) == ov,
            forall|k: int| 0 <= k < i ==> oid_lt(#[trigger] ov[k], x@),
        ensures
            i <= v@.len(),
            oids_view(v@) == ov,
            forall|k: int| 0 <= k < i ==> oid_lt(#[trigger] ov[k], x@),
            i < v@.len() ==> !oid_lt(ov[i as int], x@),
        decreases v@.len() - i,
    {
        assert(ov[i as int] == v@[i as int]@);
        if !v[i].lt(&x) {
            break;
        }
        i = i + 1;
    }
    if i < v.len() {
        assert(ov[i as int] == v@[i as int]@);
        if v[i] == x {
            assert(ov.to_set().insert(x@) =~= ov.to_set()) by {
                assert(ov.contains(x@)) by {
                    assert(ov[i as int] == x@);
                }
            }
            return;
        }
        proof {
            crate::oid::lemma_oid_lt_order(x@, ov[i as int], ov[i as int]);
        }
    }
    v.insert(i, x);
    let ghost nv = oids_view(v@);
    assert(nv =~= ov.insert(i as int, x@));
    assert forall|b: int| i < b < nv.len() implies oid_lt(x@, #[trigger] nv[b]) by {
        assert(nv[b] == ov[b - 1]);
        if b - 1 > i {
            assert(oid_lt(ov[i as int], ov[b - 1]));
            crate::oid::lemma_oid_lt_order(x@, ov[i as int], ov[b - 1]);
        }
    }
    assert forall|a: int, b: int| 0 <= a < b < nv.len() implies oid_lt(#[trigger] nv[a], #[trigger] nv[b]) by {
        if b < i {
            assert(nv[a] == ov[a] && nv[b] == ov[b]);
        } else if b == i {
            assert(nv[a] == ov[a]);
        } else if a < i {
            assert(nv[a] == ov[a]);
            assert(oid_lt(x@, nv[b]));
            crate::oid::lemma_oid_lt_order(nv[a], x@, nv[b]);
        } else if a == i {
            assert(oid_lt(x@, nv[b]));
        } else {
            assert(nv[a] == ov[a - 1] && nv[b] == ov[b - 1]);
        }
    }
    assert(nv.to_set() =~= ov.to_set().insert(x@)) by {
        assert forall|t: Seq<u8>| nv.to_set().contains(t) implies ov.to_set().insert(x@).contains(t) by {
            let k = choose|k: int| 0 <= k < nv.len() && #[trigger] nv[k] == t;
            if k < i {
                assert(ov[k] == t);
            } else if k > i {
                assert(ov[k - 1] == t);
            }
        }
        assert forall|t: Seq<u8>| ov.to_set().insert(x@).contains(t) implies nv.to_set().contains(t) by {
            if t == x@ {
                assert(nv[i as int] == x@);
            } else {
                let k = choose|k: int| 0 <= k < ov.len() && #[trigger] ov[k] == t;
                if k < i {
                    assert(nv[k] == t);
                } else {
                    assert(nv[k + 1] == t);
                }
            }
        }
    }
}

/// Record that `child` goes on top of `parent`, keeping the table in its
/// canonical form.
fn add_constraint(t: &mut Vec<Adjacency>, parent: Oid, child: Oid)
    requires
        table_wf(table_view(old(t)@)),
    ensures
        table_wf(table_view(final(t)@)),
        forall|k: Seq<u8>|
            #[trigger] table_lookup(table_view(final(t)@), k).to_set() == if k == parent@ {
                table_lookup(table_view(old(t)@), k).to_set().insert(child@)
            } else {
                table_lookup(table_view(old(t)@), k).to_set()
            },
{
    let ghost ov = table_view(t@);
    proof {
        lemma_wf_keys_distinct(ov);
    }
    let mut i: usize = 0;
    while i < t.len()
        invariant
            i <= t@.len(),
            table_view(t@) == ov,
            forall|k: int| 0 <= k < i ==> oid_lt(#[trigger] ov[k].0, parent@),
        ensures
            i <= t@.len(),
            table_view(t@) == ov,
            forall|k: int| 0 <= k < i ==> oid_lt(#[trigger] ov[k].0, parent@),
            i < t@.len() ==> !oid_lt(ov[i as int].0, parent@),
        decreases t@.len() - i,
    {
        assert(ov[i as int].0 == t@[i as int].oid@);
        if !t[i].oid.lt(&parent) {
            break;
        }
        i = i + 1;
    }
    if i < t.len() && t[i].oid == parent {
        let ghost old_entry = ov[i as int];
        let mut entry = t.remove(i);
        assert(oids_view(entry.oids@) == old_entry.1);
        insert_oid(&mut entry.oids, child);
        let ghost new_list = oids_view(entry.oids@);
        t.insert(i, entry);
        let ghost nv = table_view(t@);
        assert(nv =~= ov.update(i as int, (parent@, new_list)));
        assert(new_list.to_set().contains(child@));
        assert(new_list.len() > 0) by {
            assert(new_list.contains(child@));
        }
        assert forall|j: int| 0 <= j < new_list.len() implies (#[trigger] new_list[j]).len() == 20 by {
            assert(new_list.to_set().contains(new_list[j]));
            if new_list[j] != child@ {
                assert(old_entry.1.to_set().contains(new_list[j]));
                let k = choose|k: int| 0 <= k < old_entry.1.len() && #[trigger] old_entry.1[k] == new_list[j];
                assert(ov[i as int].1[k].len() == 20);
            }
        }
        assert(table_keys(nv) =~= table_keys(ov));
        proof {
            lemma_wf_keys_distinct(nv);
            assert forall|k: Seq<u8>|
                #[trigger] table_lookup(nv, k).to_set() == if k == parent@ {
                    table_lookup(ov, k).to_set().insert(child@)
                } else {
                    table_lookup(ov, k).to_set()
                } by {
                if k == parent@ {
                    lemma_lookup_at(ov, i as int);
                    lemma_lookup_at(nv, i as int);
                } else if exists|j: int| 0 <= j < ov.len() && ov[j].0 == k {
                    let j = choose|j: int| 0 <= j < ov.len() && ov[j].0 == k;
                    lemma_lookup_at(ov, j);
                    lemma_lookup_at(nv, j);
                } else {
                    lemma_lookup_absent(ov, k);
                    lemma_lookup_absent(nv, k);
                }
            }
        }
    } else {
        proof {
            if i < ov.len() {
                assert(ov[i as int].0 != parent@);
                crate::oid::lemma_oid_lt_order(parent@, ov[i as int].0, ov[i as int].0);
            }
        }
        let mut oids: Vec<Oid> = Vec::new();
        oids.push(child);
        let ghost list = oids_view(oids@);
        assert(list =~= seq![child@]);
        t.insert(i, Adjacency { oid: parent, oids });
        let ghost nv = table_view(t@);
        assert(nv =~= ov.insert(i as int, (parent@, seq![child@])));
        let ghost nk = table_keys(nv);
        let ghost ok = table_keys(ov);
        assert(nk =~= ok.insert(i as int, parent@));
        assert forall|b: int| i < b < nk.len() implies oid_lt(parent@, #[trigger] nk[b]) by {
            assert(nk[b] == ok[b - 1]);
            if b - 1 > i {
                assert(oid_lt(ok[i as int], ok[b - 1]));
                crate::oid::lemma_oid_lt_order(parent@, ok[i as int], ok[b - 1]);
            }
        }
        assert forall|a: int, b: int| 0 <= a < b < nk.len() implies oid_lt(#[trigger] nk[a], #[trigger] nk[b]) by {
            if b < i {
                assert(nk[a] == ok[a] && nk[b] == ok[b]);
            } else if b == i {
                assert(nk[a] == ok[a]);
            } else if a < i {
                assert(nk[a] == ok[a]);
                crate::oid::lemma_oid_lt_order(nk[a], parent@, nk[b]);
            } else if a == i {
            } else {
                assert(nk[a] == ok[a - 1] && nk[b] == ok[b - 1]);
            }
        }
        proof {
            lemma_wf_keys_distinct(nv);
            assert forall|k: Seq<u8>|
                #[trigger] table_lookup(nv, k).to_set() == if k == parent@ {
                    table_lookup(ov, k).to_set().insert(child@)
                } else {
                    table_lookup(ov, k).to_set()
                } by {
                if k == parent@ {
                    assert forall|j: int| 0 <= j < ov.len() implies ov[j].0 != k by {
                        if j < i {
                            assert(oid_lt(ok[j], parent@));
                            crate::oid::lemma_oid_lt_order(parent@, parent@, parent@);
                        } else {
                            assert(oid_lt(parent@, nk[j + 1]));
                            crate::oid::lemma_oid_lt_order(parent@, parent@, parent@);
                        }
                    }
                    lemma_lookup_absent(ov, k);
                    lemma_lookup_at(nv, i as int);
                    let one = seq![child@];
                    let none = Seq::<Seq<u8>>::empty();
                    assert forall|x: Seq<u8>| one.to_set().contains(x) <==> none.to_set().insert(child@).contains(x) by {
                        if x == child@ {
                            assert(one[0] == x);
                        }
                        if one.to_set().contains(x) {
                            let q = choose|q: int| 0 <= q < one.len() && #[trigger] one[q] == x;
                            assert(q == 0);
                        }
                        assert(!none.contains(x));
                    }
                    assert(one.to_set() =~= none.to_set().insert(child@));
                } else if exists|j: int| 0 <= j < ov.len() && ov[j].0 == k {
                    let j = choose|j: int| 0 <= j < ov.len() && ov[j].0 == k;
                    lemma_lookup_at(ov, j);
                    if j < i {
                        lemma_lookup_at(nv, j);
                    } else {
                        lemma_lookup_at(nv, j + 1);
                    }
                } else {
                    lemma_lookup_absent(ov, k);
                    assert forall|j: int| 0 <= j < nv.len() implies nv[j].0 != k by {
                        if j < i {
                            assert(nv[j] == ov[j]);
                        } else if j > i {
                            assert(nv[j] == ov[j - 1]);
                        }
                    }
                    lemma_lookup_absent(nv, k);
                }
            }
        }
    }
}

/// What the plan builder knows while it builds: the commands so far, the
/// labels used, and the labels set on commits that merge commits need
/// (the newest last).
pub struct PlanState {
    pub acc: Seq<CommandView>,
    pub used: Seq<Seq<char>>,
    pub labels: Seq<(Seq<u8>, Seq<char>)>,
}

/// What the plan builder reads: the parents of the commits, the commits to
/// put on top of each commit, the commits that move, and the commits whose
/// changes are already upstream.
pub struct GraphView {
    pub parents: Seq<(Seq<u8>, Seq<Seq<u8>>)>,
    pub children: Seq<(Seq<u8>, Seq<Seq<u8>>)>,
    pub to_move: Seq<Seq<u8>>,
    pub applied: Seq<Seq<u8>>,
}

/// The label set on `oid` most recently.
pub open spec fn label_lookup(labels: Seq<(Seq<u8>, Seq<char>)>, oid: Seq<u8>) -> Option<Seq<char>>
    decreases labels.len(),
{
    if labels.len() == 0 {
        None
    } else if labels.last().0 == oid {
        Some(labels.last().1)
    } else {
        label_lookup(labels.drop_last(), oid)
    }
}

/// The commits that a merge commit with these parents merges into the
/// rebase head `prev`: the other parents, by label if they move (`None`
/// while one of them has not been placed yet), by ID if they stay.
pub open spec fn merge_targets_spec(
    labels: Seq<(Seq<u8>, Seq<char>)>,
    parents: Seq<Seq<u8>>,
    prev: Seq<u8>,
    to_move: Seq<Seq<u8>>,
) -> Option<Seq<TargetView>>
    decreases parents.len(),
{
    if parents.len() == 0 {
        Some(Seq::empty())
    } else {
        match merge_targets_spec(labels, parents.drop_last(), prev, to_move) {
            None => None,
            Some(ts) => {
                let p = parents.last();
                if p == prev {
                    Some(ts)
                } else if to_move.contains(p) {
                    match label_lookup(labels, p) {
                        Some(l) => Some(ts.push(TargetView::Label(l))),
                        None => None,
                    }
                } else {
                    Some(ts.push(TargetView::Oid(p)))
                }
            }
        }
    }
}

/// Whether one of `kids` is a merge commit.
pub open spec fn has_merge_child(parents: Seq<(Seq<u8>, Seq<Seq<u8>>)>, kids: Seq<Seq<u8>>) -> bool {
    exists|i: int| 0 <= i < kids.len() && #[trigger] table_lookup(parents, kids[i]).len() > 1
}

/// The name preferred for the label on a parent of a merge commit.
pub open spec fn merge_parent_label(n: nat) -> Seq<char> {
    "merge-parent-"@ + decimal_digits(n)
}

/// The name preferred for the label to come back to after a child.
pub open spec fn branch_label(n: nat) -> Seq<char> {
    "label-"@ + decimal_digits(n)
}

/// The plan state with a label created (and recorded for a merge commit
/// on `cur` if `for_merge`).
pub open spec fn with_label(st: PlanState, l: Seq<char>, cur: Seq<u8>, for_merge: bool) -> PlanState {
    PlanState {
        acc: st.acc.push(CommandView::CreateLabel(l)),
        used: st.used.push(l),
        labels: if for_merge {
            st.labels.push((cur, l))
        } else {
            st.labels
        },
    }
}

/// The plan for commit `cur` and what goes on top of it, applied on the
/// rebase head `prev`: skipped if its changes are upstream; merged if it is
/// a merge commit and all its moving parents are placed (else nothing
/// now: a later visit will do it); picked and checked for emptiness
/// otherwise. Then a label if a child is a merge commit; then the only
/// child; or a label, and each child in order with a return to the label
/// after it. The recursion goes at most `fuel` commits deep.
pub open spec fn plan_spec(g: GraphView, st: PlanState, prev: Seq<u8>, cur: Seq<u8>, fuel: nat) -> PlanState
    decreases fuel, 0int,
{
    if fuel == 0 {
        st
    } else {
        let parents = table_lookup(g.parents, cur);
        let first: Option<Seq<CommandView>> = if g.applied.contains(cur) {
            Some(seq![CommandView::SkipUpstreamAppliedCommit(cur)])
        } else if parents.len() > 1 {
            match merge_targets_spec(st.labels, parents, prev, g.to_move) {
                Some(ts) => Some(seq![CommandView::Merge(cur, ts)]),
                None => None,
            }
        } else {
            Some(seq![CommandView::Pick(cur), CommandView::DetectEmptyCommit(cur)])
        };
        match first {
            None => st,
            Some(cmds) => {
                let st1 = PlanState { acc: st.acc + cmds, used: st.used, labels: st.labels };
                let kids = table_lookup(g.children, cur);
                let st2 = if has_merge_child(g.parents, kids) {
                    with_label(st1, fresh_label_spec(st1.used, merge_parent_label(st1.acc.len())), cur, true)
                } else {
                    st1
                };
                if kids.len() == 0 {
                    st2
                } else if kids.len() == 1 {
                    plan_spec(g, st2, cur, kids[0], (fuel - 1) as nat)
                } else {
                    let l = fresh_label_spec(st2.used, branch_label(st2.acc.len()));
                    children_spec(g, with_label(st2, l, cur, false), cur, kids, l, (fuel - 1) as nat)
                }
            },
        }
    }
}

/// The plans for the children `kids` of `cur`, in order, each followed by
/// a return to the label `label`.
pub open spec fn children_spec(
    g: GraphView,
    st: PlanState,
    cur: Seq<u8>,
    kids: Seq<Seq<u8>>,
    label: Seq<char>,
    fuel: nat,
) -> PlanState
    decreases fuel, kids.len() + 1,
{
    if kids.len() == 0 {
        st
    } else {
        let st1 = plan_spec(g, st, cur, kids[0], fuel);
        let st2 = PlanState {
            acc: st1.acc.push(CommandView::Reset(TargetView::Label(label))),
            used: st1.used,
            labels: st1.labels,
        };
        children_spec(g, st2, cur, kids.drop_first(), label, fuel)
    }
}

/// What the plan builder reads of the repository.
#[derive(Debug)]
pub struct RebaseGraph {
    /// The parents of the commits that move.
    pub parents: Vec<Adjacency>,
    /// The commits to put on top of each commit.
    pub children: Vec<Adjacency>,
    /// The commits that move.
    pub commits_to_move: Vec<Oid>,
    /// The commits whose changes are already upstream.
    pub applied_upstream: Vec<Oid>,
}

impl RebaseGraph {
    /// The mathematical value of the graph.
    pub open spec fn view_graph(&self) -> GraphView {
        GraphView {
            parents: table_view(self.parents@),
            children: table_view(self.children@),
            to_move: oids_view(self.commits_to_move@),
            applied: oids_view(self.applied_upstream@),
        }
    }
}

/// The plan being built.
#[derive(Debug)]
pub struct BuildState {
    commands: Vec<RebaseCommand>,
    used_labels: Vec<String>,
    merge_commit_parent_labels: Vec<(Oid, String)>,
}

/// The views of labels set on commits.
pub open spec fn labels_view(v: Seq<(Oid, String)>) -> Seq<(Seq<u8>, Seq<char>)> {
    v.map_values(|p: (Oid, String)| (p.0@, p.1@))
}

impl BuildState {
    /// The mathematical value of the state.
    pub closed spec fn view_state(&self) -> PlanState {
        PlanState {
            acc: command_views(self.commands@),
            used: self.used_labels@.map_values(|t: String| t@),
            labels: labels_view(self.merge_commit_parent_labels@),
        }
    }
}

/// The label set on `oid` most recently.
fn find_label(labels: &Vec<(Oid, String)>, oid: Oid) -> (r: Option<String>)
    ensures
        match r {
            Some(l) => label_lookup(labels_view(labels@), oid@) == Some(l@),
            None => label_lookup(labels_view(labels@), oid@) is None,
        },
{
    let ghost lv = labels_view(labels@);
    let mut i: usize = labels.len();
    assert(lv.take(i as int) =~= lv);
    while i > 0
        invariant
            i <= labels@.len(),
            lv == labels_view(labels@),
            label_lookup(lv, oid@) == label_lookup(lv.take(i as int), oid@),
        decreases i,
    {
        let ghost t = lv.take(i as int);
        assert(t.last() == (labels@[i - 1].0@, labels@[i - 1].1@));
        if labels[i - 1].0 == oid {
            return Some(labels[i - 1].1.clone());
        }
        assert(t.drop_last() =~= lv.take(i - 1));
        i = i - 1;
    }
    None
}

/// Once a parent cannot be named, the merge cannot be made yet.
proof fn lemma_merge_targets_none(
    labels: Seq<(Seq<u8>, Seq<char>)>,
    parents: Seq<Seq<u8>>,
    i: int,
    prev: Seq<u8>,
    to_move: Seq<Seq<u8>>,
)
    requires
        0 <= i <= parents.len(),
        merge_targets_spec(labels, parents.take(i), prev, to_move) is None,
    ensures
        merge_targets_spec(labels, parents, prev, to_move) is None,
    decreases parents.len(),
{
    if i == parents.len() {
        assert(parents.take(i) =~= parents);
    } else {
        assert(parents.drop_last().take(i) =~= parents.take(i));
        lemma_merge_targets_none(labels, parents.drop_last(), i, prev, to_move);
    }
}

/// The commits that a merge commit with these parents merges into the
/// rebase head `prev`, or `None` if a moving parent has no label yet.
fn merge_targets(labels: &Vec<(Oid, String)>, parents: &Vec<Oid>, prev: Oid, to_move: &Vec<Oid>) -> (r: Option<
    Vec<OidOrLabel>,
>)
    ensures
        match r {
            Some(v) => merge_targets_spec(labels_view(labels@), oids_view(parents@), prev@, oids_view(to_move@))
                == Some(target_views(v@)),
            None => merge_targets_spec(labels_view(labels@), oids_view(parents@), prev@, oids_view(to_move@)) is None,
        },
{
    let ghost pv = oids_view(parents@);
    let ghost lv = labels_view(labels@);
    let ghost mv = oids_view(to_move@);
    let mut targets: Vec<OidOrLabel> = Vec::new();
    let mut i: usize = 0;
    assert(pv.take(0) =~= Seq::<Seq<u8>>::empty());
    assert(target_views(targets@) =~= Seq::<TargetView>::empty());
    while i < parents.len()
        invariant
            i <= parents@.len(),
            pv == oids_view(parents@),
            lv == labels_view(labels@),
            mv == oids_view(to_move@),
            merge_targets_spec(lv, pv.take(i as int), prev@, mv) == Some(target_views(targets@)),
        decreases parents@.len() - i,
    {
        let p = parents[i];
        assert(pv.take(i + 1).drop_last() =~= pv.take(i as int));
        assert(pv.take(i + 1).last() == p@);
        let ghost before = target_views(targets@);
        if p == prev {
        } else if contains_oid(to_move, p) {
            match find_label(labels, p) {
                Some(l) => {
                    targets.push(OidOrLabel::Label(l));
                    assert(target_views(targets@) =~= before.push(TargetView::Label(l@)));
                },
                None => {
                    proof {
                        lemma_merge_targets_none(lv, pv, i + 1, prev@, mv);
                    }
                    return None;
                },
            }
        } else {
            targets.push(OidOrLabel::Oid(p));
            assert(target_views(targets@) =~= before.push(TargetView::Oid(p@)));
        }
        i = i + 1;
    }
    assert(pv.take(parents@.len() as int) =~= pv);
    Some(targets)
}

/// Whether one of `kids` is a merge commit.
fn any_merge_child(parents: &Vec<Adjacency>, kids: &Vec<Oid>) -> (r: bool)
    ensures
        r == has_merge_child(table_view(parents@), oids_view(kids@)),
{
    let ghost kv = oids_view(kids@);
    let mut i: usize = 0;
    while i < kids.len()
        invariant
            i <= kids@.len(),
            kv == oids_view(kids@),
            forall|j: int| 0 <= j < i ==> table_lookup(table_view(parents@), #[trigger] kv[j]).len() <= 1,
        decreases kids@.len() - i,
    {
        let ps = lookup_oids(parents, kids[i]);
        assert(kv[i as int] == kids@[i as int]@);
        if ps.len() > 1 {
            assert(oids_view(ps@).len() == ps@.len());
            return true;
        }
        assert(oids_view(ps@).len() == ps@.len());
        i = i + 1;
    }
    false
}

/// Add the plan for `cur` and what goes on top of it, applied on the
/// rebase head `prev`, going at most `fuel` commits deep.
fn plan_commit(g: &RebaseGraph, st: &mut BuildState, prev: Oid, cur: Oid, fuel: usize)
    ensures
        final(st).view_state() == plan_spec(g.view_graph(), old(st).view_state(), prev@, cur@, fuel as nat),
    decreases fuel,
{
    if fuel == 0 {
        return;
    }
    let ghost gv = g.view_graph();
    let ghost st0 = st.view_state();
    let parents = lookup_oids(&g.parents, cur);
    let ghost cmds: Seq<CommandView>;
    if contains_oid(&g.applied_upstream, cur) {
        st.commands.push(RebaseCommand::SkipUpstreamAppliedCommit { commit_oid: cur });
        proof {
            cmds = seq![CommandView::SkipUpstreamAppliedCommit(cur@)];
        }
    } else if parents.len() > 1 {
        assert(oids_view(parents@).len() == parents@.len());
        match merge_targets(&st.merge_commit_parent_labels, &parents, prev, &g.commits_to_move) {
            Some(targets) => {
                let ghost tv = target_views(targets@);
                st.commands.push(RebaseCommand::Merge { commit_oid: cur, commits_to_merge: targets });
                proof {
                    cmds = seq![CommandView::Merge(cur@, tv)];
                }
            },
            None => {
                return;
            },
        }
    } else {
        assert(oids_view(parents@).len() == parents@.len());
        st.commands.push(RebaseCommand::Pick { commit_oid: cur });
        st.commands.push(RebaseCommand::DetectEmptyCommit { commit_oid: cur });
        proof {
            cmds = seq![CommandView::Pick(cur@), CommandView::DetectEmptyCommit(cur@)];
        }
    }
    let ghost st1 = PlanState { acc: st0.acc + cmds, used: st0.used, labels: st0.labels };
    assert(command_views(st.commands@) =~= st0.acc + cmds);
    assert(st.view_state() == st1);
    let kids = lookup_oids(&g.children, cur);
    let ghost kv = oids_view(kids@);
    assert(kv.len() == kids@.len());
    let ghost has_merge = has_merge_child(gv.parents, kv);
    if any_merge_child(&g.parents, &kids) {
        let mut preferred = "merge-parent-".to_owned();
        preferred.append(u64_to_string(st.commands.len() as u64).as_str());
        assert(preferred@ == merge_parent_label(st1.acc.len()));
        let label = make_label_name(&mut st.used_labels, preferred);
        st.merge_commit_parent_labels.push((cur, label.clone()));
        let ghost before = command_views(st.commands@);
        st.commands.push(RebaseCommand::CreateLabel { label_name: label });
        assert(command_views(st.commands@) =~= before.push(CommandView::CreateLabel(label@)));
        assert(labels_view(st.merge_commit_parent_labels@) =~= st1.labels.push((cur@, label@)));
    }
    let ghost st2 = st.view_state();
    assert(st2 == if has_merge {
        with_label(st1, fresh_label_spec(st1.used, merge_parent_label(st1.acc.len())), cur@, true)
    } else {
        st1
    });
    if kids.len() == 0 {
        return;
    }
    if kids.len() == 1 {
        assert(kv[0] == kids@[0]@);
        plan_commit(g, st, cur, kids[0], fuel - 1);
        return;
    }
    let mut preferred = "label-".to_owned();
    preferred.append(u64_to_string(st.commands.len() as u64).as_str());
    assert(preferred@ == branch_label(st2.acc.len()));
    let label = make_label_name(&mut st.used_labels, preferred);
    let ghost before = command_views(st.commands@);
    st.commands.push(RebaseCommand::CreateLabel { label_name: label.clone() });
    assert(command_views(st.commands@) =~= before.push(CommandView::CreateLabel(label@)));
    let ghost st3 = st.view_state();
    assert(st3 == with_label(st2, label@, cur@, false));
    let mut i: usize = 0;
    assert(kv.skip(0) =~= kv);
    while i < kids.len()
        invariant
            i <= kids@.len(),
            kv == oids_view(kids@),
            gv == g.view_graph(),
            0 < fuel,
            children_spec(gv, st3, cur@, kv, label@, (fuel - 1) as nat) == children_spec(
                gv,
                st.view_state(),
                cur@,
                kv.skip(i as int),
                label@,
                (fuel - 1) as nat,
            ),
        decreases kids@.len() - i,
    {
        let ghost s0 = st.view_state();
        assert(kv.skip(i as int)[0] == kids@[i as int]@);
        assert(kv.skip(i as int).drop_first() =~= kv.skip(i + 1));
        plan_commit(g, st, cur, kids[i], fuel - 1);
        let ghost before = command_views(st.commands@);
        st.commands.push(RebaseCommand::Reset { target: OidOrLabel::Label(label.clone()) });
        assert(command_views(st.commands@) =~= before.push(CommandView::Reset(TargetView::Label(label@))));
        i = i + 1;
    }
    assert(kv.skip(kids@.len() as int) =~= Seq::<Seq<u8>>::empty());
}

/// Whether `oid` is among the commits that some entry relates to.
pub open spec fn is_related(t: Seq<(Seq<u8>, Seq<Seq<u8>>)>, oid: Seq<u8>) -> bool {
    exists|i: int, j: int| 0 <= i < t.len() && 0 <= j < t[i].1.len() && #[trigger] t[i].1[j] == oid
}

/// The edges from the commits that nothing has to go under, in table
/// order, from the entries `t.take(n)` of the table `t`.
pub open spec fn roots_spec(t: Seq<(Seq<u8>, Seq<Seq<u8>>)>, n: int) -> Seq<(Seq<u8>, Seq<u8>)>
    decreases n,
{
    if n <= 0 {
        Seq::empty()
    } else {
        let e = t[n - 1];
        roots_spec(t, n - 1) + if is_related(t, e.0) {
            Seq::empty()
        } else {
            e.1.map_values(|c: Seq<u8>| (e.0, c))
        }
    }
}

/// Whether `oid` is among the commits that some entry of `t` relates to.
fn related(t: &Vec<Adjacency>, oid: Oid) -> (r: bool)
    ensures
        r == is_related(table_view(t@), oid@),
{
    let ghost tv = table_view(t@);
    let mut i: usize = 0;
    while i < t.len()
        invariant
            i <= t@.len(),
            tv == table_view(t@),
            forall|a: int, b: int| 0 <= a < i && 0 <= b < tv[a].1.len() ==> tv[a].1[b] != oid@,
        decreases t@.len() - i,
    {
        let oids = &t[i].oids;
        assert(tv[i as int].1 == oids_view(oids@));
        let mut j: usize = 0;
        while j < oids.len()
            invariant
                j <= oids@.len(),
                i < t@.len(),
                tv == table_view(t@),
                tv[i as int].1 == oids_view(oids@),
                forall|b: int| 0 <= b < j ==> tv[i as int].1[b] != oid@,
                forall|a: int, b: int| 0 <= a < i && 0 <= b < tv[a].1.len() ==> tv[a].1[b] != oid@,
            decreases oids@.len() - j,
        {
            assert(tv[i as int].1[j as int] == oids@[j as int]@);
            if oids[j] == oid {
                assert(tv[i as int].1[j as int] == oid@);
                return true;
            }
            j = j + 1;
        }
        i = i + 1;
    }
    false
}

/// The edges from the commits that nothing has to go under: the roots of
/// the rebase, in table order.
pub fn find_roots(t: &Vec<Adjacency>) -> (r: Vec<(Oid, Oid)>)
    ensures
        r@.map_values(|p: (Oid, Oid)| (p.0@, p.1@)) == roots_spec(table_view(t@), t@.len() as int),
{
    let ghost tv = table_view(t@);
    let mut roots: Vec<(Oid, Oid)> = Vec::new();
    let mut i: usize = 0;
    assert(roots@.map_values(|p: (Oid, Oid)| (p.0@, p.1@)) =~= Seq::<(Seq<u8>, Seq<u8>)>::empty());
    while i < t.len()
        invariant
            i <= t@.len(),
            tv == table_view(t@),
            roots@.map_values(|p: (Oid, Oid)| (p.0@, p.1@)) == roots_spec(tv, i as int),
        decreases t@.len() - i,
    {
        let key = t[i].oid;
        let ghost e = tv[i as int];
        assert(e.0 == key@);
        if !related(t, key) {
            let oids = &t[i].oids;
            assert(e.1 == oids_view(oids@));
            let ghost base = roots@.map_values(|p: (Oid, Oid)| (p.0@, p.1@));
            let mut j: usize = 0;
            while j < oids.len()
                invariant
                    j <= oids@.len(),
                    e.1 == oids_view(oids@),
                    e.0 == key@,
                    roots@.map_values(|p: (Oid, Oid)| (p.0@, p.1@)) == base + e.1.take(j as int).map_values(
                        |c: Seq<u8>| (e.0, c),
                    ),
                decreases oids@.len() - j,
            {
                let ghost before = roots@.map_values(|p: (Oid, Oid)| (p.0@, p.1@));
                roots.push((key, oids[j]));
                assert(roots@.map_values(|p: (Oid, Oid)| (p.0@, p.1@)) =~= before.push((key@, oids@[j as int]@)));
                assert(e.1.take(j + 1).map_values(|c: Seq<u8>| (e.0, c)) =~= e.1.take(j as int).map_values(
                    |c: Seq<u8>| (e.0, c),
                ).push((e.0, e.1[j as int])));
                j = j + 1;
            }
            assert(e.1.take(oids@.len() as int) =~= e.1);
        } else {
            assert(roots_spec(tv, i + 1) =~= roots_spec(tv, i as int));
        }
        i = i + 1;
    }
    roots
}

/// The number of edges in a table.
pub open spec fn edge_count(t: Seq<(Seq<u8>, Seq<Seq<u8>>)>) -> int
    decreases t.len(),
{
    if t.len() == 0 {
        0
    } else {
        edge_count(t.drop_last()) + t.last().1.len()
    }
}

/// How deep the plan may go: one more than the number of edges (no path
/// through acyclic constraints is longer), as far as a `usize` counts.
pub open spec fn plan_fuel(t: Seq<(Seq<u8>, Seq<Seq<u8>>)>) -> nat {
    if edge_count(t) + 1 > usize::MAX {
        usize::MAX as nat
    } else {
        (edge_count(t) + 1) as nat
    }
}

/// How deep the plan may go.
fn compute_fuel(t: &Vec<Adjacency>) -> (r: usize)
    ensures
        r == plan_fuel(table_view(t@)),
{
    let ghost tv = table_view(t@);
    let mut n: usize = 1;
    let mut saturated = false;
    let mut i: usize = 0;
    assert(tv.take(0) =~= Seq::<(Seq<u8>, Seq<Seq<u8>>)>::empty());
    while i < t.len()
        invariant
            i <= t@.len(),
            tv == table_view(t@),
            edge_count(tv.take(i as int)) >= 0,
            saturated ==> n == usize::MAX && edge_count(tv.take(i as int)) + 1 > usize::MAX,
            !saturated ==> n == edge_count(tv.take(i as int)) + 1,
        decreases t@.len() - i,
    {
        assert(tv.take(i + 1).drop_last() =~= tv.take(i as int));
        assert(tv.take(i + 1).last().1.len() == t@[i as int].oids@.len());
        let k = t[i].oids.len();
        if !saturated {
            if n > usize::MAX - k {
                saturated = true;
                n = usize::MAX;
            } else {
                n = n + k;
            }
        }
        i = i + 1;
    }
    assert(tv.take(t@.len() as int) =~= tv);
    n
}

/// Every commit that the table puts on top of another, in table order.
pub open spec fn moved_spec(t: Seq<(Seq<u8>, Seq<Seq<u8>>)>) -> Seq<Seq<u8>>
    decreases t.len(),
{
    if t.len() == 0 {
        Seq::empty()
    } else {
        moved_spec(t.drop_last()) + t.last().1
    }
}

/// Every commit that the table puts on top of another.
fn moved_commits(t: &Vec<Adjacency>) -> (r: Vec<Oid>)
    ensures
        oids_view(r@) == moved_spec(table_view(t@)),
{
    let ghost tv = table_view(t@);
    let mut r: Vec<Oid> = Vec::new();
    let mut i: usize = 0;
    assert(tv.take(0) =~= Seq::<(Seq<u8>, Seq<Seq<u8>>)>::empty());
    assert(oids_view(r@) =~= Seq::<Seq<u8>>::empty());
    while i < t.len()
        invariant
            i <= t@.len(),
            tv == table_view(t@),
            oids_view(r@) == moved_spec(tv.take(i as int)),
        decreases t@.len() - i,
    {
        assert(tv.take(i + 1).drop_last() =~= tv.take(i as int));
        let oids = &t[i].oids;
        assert(tv.take(i + 1).last().1 == oids_view(oids@));
        let ghost base = oids_view(r@);
        let mut j: usize = 0;
        while j < oids.len()
            invariant
                j <= oids@.len(),
                oids_view(r@) == base + oids_view(oids@).take(j as int),
            decreases oids@.len() - j,
        {
            let ghost before = oids_view(r@);
            r.push(oids[j]);
            assert(oids_view(r@) =~= before.push(oids@[j as int]@));
            assert(oids_view(oids@).take(j + 1) =~= oids_view(oids@).take(j as int).push(oids@[j as int]@));
            j = j + 1;
        }
        assert(oids_view(oids@).take(oids@.len() as int) =~= oids_view(oids@));
        i = i + 1;
    }
    assert(tv.take(t@.len() as int) =~= tv);
    r
}

/// The part of `path` from the first occurrence of `x` on (empty if `x`
/// does not occur).
pub open spec fn cut_at(path: Seq<Seq<u8>>, x: Seq<u8>) -> Seq<Seq<u8>>
    decreases path.len(),
{
    if path.len() == 0 {
        path
    } else if path[0] == x {
        path
    } else {
        cut_at(path.drop_first(), x)
    }
}

/// The search for a cycle from `cur`, depth first, children in table
/// order, `path` being the commits on the way from where the search
/// started (a commit leaves it when the search returns from it): if a
/// commit comes up again on its own way, the cycle, from its first
/// occurrence on the way back to it. The search goes at most `fuel`
/// commits deep.
pub open spec fn dfs_spec(t: Seq<(Seq<u8>, Seq<Seq<u8>>)>, path: Seq<Seq<u8>>, cur: Seq<u8>, fuel: nat) -> Option<
    Seq<Seq<u8>>,
>
    decreases fuel, 0int,
{
    if fuel == 0 {
        None
    } else if path.contains(cur) {
        Some(cut_at(path, cur).push(cur))
    } else {
        dfs_children_spec(t, path.push(cur), table_lookup(t, cur), (fuel - 1) as nat)
    }
}

/// The search for a cycle through the children `kids`, in order, until
/// one is found.
pub open spec fn dfs_children_spec(
    t: Seq<(Seq<u8>, Seq<Seq<u8>>)>,
    path: Seq<Seq<u8>>,
    kids: Seq<Seq<u8>>,
    fuel: nat,
) -> Option<Seq<Seq<u8>>>
    decreases fuel, kids.len() + 1,
{
    if kids.len() == 0 {
        None
    } else {
        match dfs_spec(t, path, kids[0], fuel) {
            Some(c) => Some(c),
            None => dfs_children_spec(t, path, kids.drop_first(), fuel),
        }
    }
}

/// The first cycle found searching from each commit of the table in
/// order, starting with the entry at position `i`.
pub open spec fn cycles_spec(t: Seq<(Seq<u8>, Seq<Seq<u8>>)>, i: int, fuel: nat) -> Option<Seq<Seq<u8>>>
    decreases t.len() - i,
{
    if i < 0 || i >= t.len() {
        None
    } else {
        match dfs_spec(t, Seq::empty(), t[i].0, fuel) {
            Some(c) => Some(c),
            None => cycles_spec(t, i + 1, fuel),
        }
    }
}

/// The part of a path from a position where no earlier commit is `x` and
/// the commit is `x` is the cut at `x`.
proof fn lemma_cut_at(path: Seq<Seq<u8>>, x: Seq<u8>, k: int)
    requires
        0 <= k < path.len(),
        path[k] == x,
        forall|j: int| 0 <= j < k ==> path[j] != x,
    ensures
        cut_at(path, x) == path.skip(k),
    decreases k,
{
    if k > 0 {
        assert forall|j: int| 0 <= j < k - 1 implies path.drop_first()[j] != x by {
            assert(path.drop_first()[j] == path[j + 1]);
        }
        lemma_cut_at(path.drop_first(), x, k - 1);
        assert(path.drop_first().skip(k - 1) =~= path.skip(k));
    } else {
        assert(path.skip(0) =~= path);
    }
}

/// The cycle that the way `path` closes at `cur`.
fn cycle_from(path: &Vec<Oid>, cur: Oid) -> (r: Option<Vec<Oid>>)
    ensures
        match r {
            Some(c) => oids_view(path@).contains(cur@) && oids_view(c@) == cut_at(oids_view(path@), cur@).push(cur@),
            None => !oids_view(path@).contains(cur@),
        },
{
    let ghost pv = oids_view(path@);
    let mut k: usize = 0;
    while k < path.len() && path[k] != cur
        invariant
            k <= path@.len(),
            pv == oids_view(path@),
            forall|j: int| 0 <= j < k ==> pv[j] != cur@,
        decreases path@.len() - k,
    {
        assert(pv[k as int] == path@[k as int]@);
        k = k + 1;
    }
    if k == path.len() {
        assert forall|j: int| 0 <= j < pv.len() implies pv[j] != cur@ by {}
        return None;
    }
    assert(pv[k as int] == cur@);
    proof {
        lemma_cut_at(pv, cur@, k as int);
    }
    let mut c: Vec<Oid> = Vec::new();
    let mut i: usize = k;
    assert(oids_view(c@) =~= pv.skip(k as int).take(0));
    while i < path.len()
        invariant
            k <= i <= path@.len(),
            pv == oids_view(path@),
            oids_view(c@) == pv.skip(k as int).take(i - k),
        decreases path@.len() - i,
    {
        let ghost before = oids_view(c@);
        c.push(path[i]);
        assert(oids_view(c@) =~= before.push(pv[i as int]));
        assert(pv.skip(k as int).take(i + 1 - k) =~= pv.skip(k as int).take(i - k).push(pv[i as int]));
        i = i + 1;
    }
    assert(pv.skip(k as int).take(path@.len() - k) =~= pv.skip(k as int));
    let ghost before = oids_view(c@);
    c.push(cur);
    assert(oids_view(c@) =~= before.push(cur@));
    Some(c)
}

/// Search for a cycle from `cur`, along the way `path`, which is as it was
/// afterwards.
fn dfs(t: &Vec<Adjacency>, path: &mut Vec<Oid>, cur: Oid, fuel: usize) -> (r: Option<Vec<Oid>>)
    ensures
        final(path)@ == old(path)@,
        match r {
            Some(c) => Some(oids_view(c@)),
            None => None,
        } == dfs_spec(table_view(t@), oids_view(old(path)@), cur@, fuel as nat),
    decreases fuel,
{
    if fuel == 0 {
        return None;
    }
    let ghost p0 = path@;
    let ghost pv = oids_view(p0);
    match cycle_from(path, cur) {
        Some(c) => {
            return Some(c);
        },
        None => {},
    }
    path.push(cur);
    assert(oids_view(path@) =~= pv.push(cur@));
    let kids = lookup_oids(t, cur);
    let ghost kv = oids_view(kids@);
    let ghost tv = table_view(t@);
    assert(dfs_spec(tv, pv, cur@, fuel as nat) == dfs_children_spec(tv, pv.push(cur@), kv, (fuel - 1) as nat));
    let mut i: usize = 0;
    assert(kv.skip(0) =~= kv);
    while i < kids.len()
        invariant
            i <= kids@.len(),
            kv == oids_view(kids@),
            tv == table_view(t@),
            0 < fuel,
            p0 == old(path)@,
            path@ == p0.push(cur),
            pv == oids_view(p0),
            oids_view(path@) == pv.push(cur@),
            dfs_spec(tv, pv, cur@, fuel as nat) == dfs_children_spec(tv, pv.push(cur@), kv, (fuel - 1) as nat),
            dfs_children_spec(tv, pv.push(cur@), kv, (fuel - 1) as nat) == dfs_children_spec(
                tv,
                pv.push(cur@),
                kv.skip(i as int),
                (fuel - 1) as nat,
            ),
        decreases kids@.len() - i,
    {
        assert(kv.skip(i as int)[0] == kids@[i as int]@);
        assert(kv.skip(i as int).drop_first() =~= kv.skip(i + 1));
        match dfs(t, path, kids[i], fuel - 1) {
            Some(c) => {
                path.pop();
                assert(path@ =~= p0);
                return Some(c);
            },
            None => {},
        }
        i = i + 1;
    }
    assert(kv.skip(kids@.len() as int) =~= Seq::<Seq<u8>>::empty());
    path.pop();
    assert(path@ =~= p0);
    None
}

/// How deep the search for cycles may go: twice as deep as the plan (a
/// search that never returns along its path may visit every commit, each
/// a key or a child), as far as a `usize` counts.
pub open spec fn cycle_fuel(t: Seq<(Seq<u8>, Seq<Seq<u8>>)>) -> nat {
    if plan_fuel(t) > usize::MAX / 2 {
        usize::MAX as nat
    } else {
        2 * plan_fuel(t)
    }
}

/// Every commit that a table mentions, keys and related commits, with
/// repeats.
pub open spec fn nodes_seq(t: Seq<(Seq<u8>, Seq<Seq<u8>>)>) -> Seq<Seq<u8>>
    decreases t.len(),
{
    if t.len() == 0 {
        Seq::empty()
    } else {
        nodes_seq(t.drop_last()).push(t.last().0) + t.last().1
    }
}

/// The set of commits that a table mentions.
pub open spec fn table_nodes(t: Seq<(Seq<u8>, Seq<Seq<u8>>)>) -> Set<Seq<u8>> {
    nodes_seq(t).to_set()
}

/// How many commits that the table mentions are not on `path`.
pub open spec fn unvisited(t: Seq<(Seq<u8>, Seq<Seq<u8>>)>, path: Seq<Seq<u8>>) -> nat {
    table_nodes(t).difference(path.to_set()).len()
}

/// There are as many mentions as keys and edges.
proof fn lemma_nodes_len(t: Seq<(Seq<u8>, Seq<Seq<u8>>)>)
    ensures
        nodes_seq(t).len() == t.len() + edge_count(t),
    decreases t.len(),
{
    if t.len() > 0 {
        lemma_nodes_len(t.drop_last());
    }
}

/// A table whose lists are not empty has at least one edge per entry.
proof fn lemma_edges_at_least_entries(t: Seq<(Seq<u8>, Seq<Seq<u8>>)>)
    requires
        forall|i: int| 0 <= i < t.len() ==> #[trigger] t[i].1.len() > 0,
    ensures
        edge_count(t) >= t.len(),
    decreases t.len(),
{
    if t.len() > 0 {
        assert(t[t.len() - 1].1.len() > 0);
        assert forall|i: int| 0 <= i < t.drop_last().len() implies #[trigger] t.drop_last()[i].1.len() > 0 by {
            assert(t.drop_last()[i] == t[i]);
        }
        lemma_edges_at_least_entries(t.drop_last());
    }
}

/// The commits of an entry are mentioned by the table.
proof fn lemma_entry_in_nodes(t: Seq<(Seq<u8>, Seq<Seq<u8>>)>, i: int)
    requires
        0 <= i < t.len(),
    ensures
        forall|j: int| 0 <= j < t[i].1.len() ==> table_nodes(t).contains(#[trigger] t[i].1[j]),
    decreases t.len(),
{
    let w = nodes_seq(t);
    let prefix = nodes_seq(t.drop_last()).push(t.last().0);
    if i == t.len() - 1 {
        assert forall|j: int| 0 <= j < t[i].1.len() implies table_nodes(t).contains(#[trigger] t[i].1[j]) by {
            assert(w[prefix.len() + j] == t[i].1[j]);
        }
    } else {
        assert(t.drop_last()[i] == t[i]);
        lemma_entry_in_nodes(t.drop_last(), i);
        assert forall|j: int| 0 <= j < t[i].1.len() implies table_nodes(t).contains(#[trigger] t[i].1[j]) by {
            assert(table_nodes(t.drop_last()).contains(t.drop_last()[i].1[j]));
            let k = choose|k: int| 0 <= k < nodes_seq(t.drop_last()).len() && nodes_seq(t.drop_last())[k] == t[i].1[j];
            assert(w[k] == t[i].1[j]);
        }
    }
}

/// The commits that a lookup finds are those of some entry, or none.
proof fn lemma_lookup_is_entry(t: Seq<(Seq<u8>, Seq<Seq<u8>>)>, k: Seq<u8>)
    ensures
        table_lookup(t, k).len() == 0 || exists|i: int| 0 <= i < t.len() && t[i].1 == table_lookup(t, k),
    decreases t.len(),
{
    if t.len() > 0 {
        if t[0].0 == k {
            assert(t[0].1 == table_lookup(t, k));
        } else {
            lemma_lookup_is_entry(t.drop_first(), k);
            if table_lookup(t, k).len() != 0 {
                let i = choose|i: int| 0 <= i < t.drop_first().len() && t.drop_first()[i].1 == table_lookup(t.drop_first(), k);
                assert(t[i + 1] == t.drop_first()[i]);
            }
        }
    }
}

/// The commits that a lookup finds are mentioned by the table.
proof fn lemma_lookup_in_nodes(t: Seq<(Seq<u8>, Seq<Seq<u8>>)>, k: Seq<u8>)
    ensures
        forall|j: int| 0 <= j < table_lookup(t, k).len() ==> table_nodes(t).contains(#[trigger] table_lookup(t, k)[j]),
{
    lemma_lookup_is_entry(t, k);
    if table_lookup(t, k).len() != 0 {
        let i = choose|i: int| 0 <= i < t.len() && t[i].1 == table_lookup(t, k);
        lemma_entry_in_nodes(t, i);
    }
}

/// Visiting one more commit of a finite set `u` leaves one fewer of `u`
/// off the path.
pub(crate) proof fn lemma_visit_one(u: Set<Seq<u8>>, path: Seq<Seq<u8>>, cur: Seq<u8>)
    requires
        u.finite(),
        u.contains(cur),
        !path.contains(cur),
    ensures
        u.difference(path.push(cur).to_set()).len() + 1 == u.difference(path.to_set()).len(),
{
    assert(path.push(cur).to_set() =~= path.to_set().insert(cur)) by {
        assert forall|x: Seq<u8>| path.push(cur).to_set().contains(x) implies path.to_set().insert(cur).contains(x) by {
            let j = choose|j: int| 0 <= j < path.push(cur).len() && path.push(cur)[j] == x;
            if j < path.len() {
                assert(path[j] == x);
            }
        }
        assert forall|x: Seq<u8>| path.to_set().insert(cur).contains(x) implies path.push(cur).to_set().contains(x) by {
            if x == cur {
                assert(path.push(cur)[path.len() as int] == x);
            } else {
                let j = choose|j: int| 0 <= j < path.len() && path[j] == x;
                assert(path.push(cur)[j] == x);
            }
        }
    }
    assert(u.difference(path.to_set().insert(cur)) =~= u.difference(path.to_set()).remove(cur));
    assert(u.difference(path.to_set()).contains(cur));
}

/// With depth for every commit off the way `path`, the search from `cur`
/// finds the same with any more depth.
proof fn lemma_dfs_fuel(t: Seq<(Seq<u8>, Seq<Seq<u8>>)>, path: Seq<Seq<u8>>, cur: Seq<u8>, f: nat, g: nat)
    requires
        table_nodes(t).contains(cur),
        f >= unvisited(t, path) + 1,
        g >= f,
    ensures
        dfs_spec(t, path, cur, f) == dfs_spec(t, path, cur, g),
    decreases f, 0int,
{
    if !path.contains(cur) {
        let p1 = path.push(cur);
        lemma_visit_one(table_nodes(t), path, cur);
        lemma_lookup_in_nodes(t, cur);
        lemma_dfs_children_fuel(t, p1, table_lookup(t, cur), (f - 1) as nat, (g - 1) as nat);
    }
}

/// The search through the children `kids`, as `lemma_dfs_fuel` for one.
proof fn lemma_dfs_children_fuel(t: Seq<(Seq<u8>, Seq<Seq<u8>>)>, path: Seq<Seq<u8>>, kids: Seq<Seq<u8>>, f: nat, g: nat)
    requires
        forall|j: int| 0 <= j < kids.len() ==> table_nodes(t).contains(#[trigger] kids[j]),
        f >= unvisited(t, path) + 1,
        g >= f,
    ensures
        dfs_children_spec(t, path, kids, f) == dfs_children_spec(t, path, kids, g),
    decreases f, kids.len() + 1,
{
    if kids.len() > 0 {
        assert(table_nodes(t).contains(kids[0]));
        lemma_dfs_fuel(t, path, kids[0], f, g);
        assert forall|j: int| 0 <= j < kids.drop_first().len() implies table_nodes(t).contains(
            #[trigger] kids.drop_first()[j],
        ) by {
            assert(kids.drop_first()[j] == kids[j + 1]);
        }
        lemma_dfs_children_fuel(t, path, kids.drop_first(), f, g);
    }
}

/// With depth for every commit of the table, the search for cycles from
/// position `i` on finds the same with any more depth.
proof fn lemma_cycles_fuel(t: Seq<(Seq<u8>, Seq<Seq<u8>>)>, i: int, f: nat, g: nat)
    requires
        f >= table_nodes(t).len() + 1,
        g >= f,
    ensures
        cycles_spec(t, i, f) == cycles_spec(t, i, g),
    decreases t.len() - i,
{
    if 0 <= i < t.len() {
        let empty = Seq::<Seq<u8>>::empty();
        assert(empty.to_set() =~= Set::<Seq<u8>>::empty());
        assert(table_nodes(t).difference(empty.to_set()) =~= table_nodes(t));
        lemma_key_in_nodes(t, i);
        lemma_dfs_fuel(t, empty, t[i].0, f, g);
        lemma_cycles_fuel(t, i + 1, f, g);
    }
}

/// The key of an entry is mentioned by the table.
proof fn lemma_key_in_nodes(t: Seq<(Seq<u8>, Seq<Seq<u8>>)>, i: int)
    requires
        0 <= i < t.len(),
    ensures
        table_nodes(t).contains(t[i].0),
    decreases t.len(),
{
    let w = nodes_seq(t);
    let prefix = nodes_seq(t.drop_last());
    if i == t.len() - 1 {
        assert(w[prefix.len() as int] == t[i].0);
    } else {
        assert(t.drop_last()[i] == t[i]);
        lemma_key_in_nodes(t.drop_last(), i);
        let k = choose|k: int| 0 <= k < prefix.len() && prefix[k] == t[i].0;
        assert(w[k] == t[i].0);
    }
}

/// The search for cycles goes deep enough: searching deeper finds the same
/// (for tables far from the limit of what a `usize` counts).
pub proof fn lemma_cycle_search_deep_enough(t: Seq<(Seq<u8>, Seq<Seq<u8>>)>, g: nat)
    requires
        table_wf(t),
        edge_count(t) <= usize::MAX / 4,
        g >= cycle_fuel(t),
    ensures
        cycles_spec(t, 0, g) == cycles_spec(t, 0, cycle_fuel(t)),
{
    lemma_nodes_len(t);
    lemma_edges_at_least_entries(t);
    nodes_seq(t).lemma_cardinality_of_set();
    assert(cycle_fuel(t) >= table_nodes(t).len() + 1);
    lemma_cycles_fuel(t, 0, cycle_fuel(t), g);
}

/// Whether `c` is a cycle of the table: a way through it, of at least one
/// step, from a commit back to itself.
pub open spec fn is_table_cycle(t: Seq<(Seq<u8>, Seq<Seq<u8>>)>, c: Seq<Seq<u8>>) -> bool {
    &&& c.len() >= 2
    &&& c[0] == c.last()
    &&& is_child_path(t, c)
}

/// The cut of a way at a commit on it starts at an occurrence of that
/// commit.
proof fn lemma_cut_suffix(path: Seq<Seq<u8>>, x: Seq<u8>) -> (k: int)
    requires
        path.contains(x),
    ensures
        0 <= k < path.len(),
        path[k] == x,
        cut_at(path, x) == path.skip(k),
    decreases path.len(),
{
    if path[0] == x {
        assert(path.skip(0) =~= path);
        0
    } else {
        let j = choose|j: int| 0 <= j < path.len() && path[j] == x;
        assert(path.drop_first()[j - 1] == x);
        let k = lemma_cut_suffix(path.drop_first(), x);
        assert(path.drop_first().skip(k) =~= path.skip(k + 1));
        k + 1
    }
}

/// Along a way through the table, the search finds only cycles.
proof fn lemma_dfs_finds_cycles(t: Seq<(Seq<u8>, Seq<Seq<u8>>)>, path: Seq<Seq<u8>>, cur: Seq<u8>, f: nat)
    requires
        path.len() == 0 || is_child_path(t, path.push(cur)),
    ensures
        dfs_spec(t, path, cur, f) matches Some(c) ==> is_table_cycle(t, c),
    decreases f, 0int,
{
    if f > 0 {
        let w = path.push(cur);
        if path.contains(cur) {
            let k = lemma_cut_suffix(path, cur);
            let c = cut_at(path, cur).push(cur);
            assert(c =~= w.skip(k));
            assert forall|a: int| 0 <= a < c.len() - 1 implies #[trigger] table_lookup(t, c[a]).contains(c[a + 1]) by {
                assert(c[a] == w[k + a] && c[a + 1] == w[k + a + 1]);
            }
        } else {
            assert(is_child_path(t, w)) by {
                if path.len() == 0 {
                    assert(w.len() == 1);
                }
            }
            lemma_dfs_children_finds_cycles(t, w, table_lookup(t, cur), (f - 1) as nat);
        }
    }
}

/// The search through the children `kids` of the end of the way `path`,
/// as `lemma_dfs_finds_cycles` for one.
proof fn lemma_dfs_children_finds_cycles(
    t: Seq<(Seq<u8>, Seq<Seq<u8>>)>,
    path: Seq<Seq<u8>>,
    kids: Seq<Seq<u8>>,
    f: nat,
)
    requires
        is_child_path(t, path),
        forall|j: int| 0 <= j < kids.len() ==> table_lookup(t, path.last()).contains(#[trigger] kids[j]),
    ensures
        dfs_children_spec(t, path, kids, f) matches Some(c) ==> is_table_cycle(t, c),
    decreases f, kids.len() + 1,
{
    if kids.len() > 0 {
        let w = path.push(kids[0]);
        assert(table_lookup(t, path.last()).contains(kids[0]));
        assert forall|a: int| 0 <= a < w.len() - 1 implies #[trigger] table_lookup(t, w[a]).contains(w[a + 1]) by {
            if a < path.len() - 1 {
                assert(w[a] == path[a] && w[a + 1] == path[a + 1]);
            } else {
                assert(w[a] == path.last() && w[a + 1] == kids[0]);
            }
        }
        lemma_dfs_finds_cycles(t, path, kids[0], f);
        assert forall|j: int| 0 <= j < kids.drop_first().len() implies table_lookup(t, path.last()).contains(
            #[trigger] kids.drop_first()[j],
        ) by {
            assert(kids.drop_first()[j] == kids[j + 1]);
        }
        lemma_dfs_children_finds_cycles(t, path, kids.drop_first(), f);
    }
}

/// The searches from the keys at positions `i` on find only cycles.
proof fn lemma_cycles_are_cycles(t: Seq<(Seq<u8>, Seq<Seq<u8>>)>, i: int, f: nat)
    ensures
        cycles_spec(t, i, f) matches Some(c) ==> is_table_cycle(t, c),
    decreases t.len() - i,
{
    if 0 <= i < t.len() {
        lemma_dfs_finds_cycles(t, Seq::empty(), t[i].0, f);
        lemma_cycles_are_cycles(t, i + 1, f);
    }
}

/// Where the search from `cur` along `path`, deep enough, finds no cycle,
/// every way through the table from `cur` has no commit twice and none on
/// `path`.
proof fn lemma_dfs_none_no_repeat(t: Seq<(Seq<u8>, Seq<Seq<u8>>)>, path: Seq<Seq<u8>>, cur: Seq<u8>, f: nat)
    requires
        table_nodes(t).contains(cur),
        f >= unvisited(t, path) + 1,
        dfs_spec(t, path, cur, f) is None,
    ensures
        forall|w: Seq<Seq<u8>>|
            #[trigger] is_child_path(t, w) && w[0] == cur ==> w.no_duplicates() && forall|i: int|
                0 <= i < w.len() ==> !path.contains(w[i]),
    decreases f, 0int,
{
    assert(!path.contains(cur));
    let p1 = path.push(cur);
    let kids = table_lookup(t, cur);
    lemma_visit_one(table_nodes(t), path, cur);
    lemma_lookup_in_nodes(t, cur);
    assert(dfs_spec(t, path, cur, f) == dfs_children_spec(t, p1, kids, (f - 1) as nat));
    assert forall|w: Seq<Seq<u8>>| #[trigger] is_child_path(t, w) && w[0] == cur implies w.no_duplicates() && forall|
        i: int,
    | 0 <= i < w.len() ==> !path.contains(w[i]) by {
        if w.len() > 1 {
            let z: int = 0;
            assert(table_lookup(t, w[z]).contains(w[z + 1]));
            assert(table_lookup(t, w[0]).contains(w[1]));
            let j = choose|j: int| 0 <= j < kids.len() && kids[j] == w[1];
            lemma_kid_searched(t, p1, kids, (f - 1) as nat, j);
            assert(table_nodes(t).contains(kids[j]));
            lemma_dfs_none_no_repeat(t, p1, w[1], (f - 1) as nat);
            let v = w.drop_first();
            assert forall|a: int| 0 <= a < v.len() - 1 implies #[trigger] table_lookup(t, v[a]).contains(v[a + 1]) by {
                assert(v[a] == w[a + 1] && v[a + 1] == w[a + 2]);
            }
            assert(is_child_path(t, v));
            assert(v[0] == w[1]);
            assert forall|i: int| 0 <= i < w.len() implies !path.contains(w[i]) by {
                if i > 0 {
                    assert(w[i] == v[i - 1]);
                    assert(!p1.contains(v[i - 1]));
                    if path.contains(w[i]) {
                        let m = choose|m: int| 0 <= m < path.len() && path[m] == w[i];
                        assert(p1[m] == w[i]);
                    }
                }
            }
            assert forall|a: int, b: int| 0 <= a < w.len() && 0 <= b < w.len() && a != b implies w[a] != w[b] by {
                if a > 0 && b > 0 {
                    assert(w[a] == v[a - 1] && w[b] == v[b - 1]);
                } else if a == 0 {
                    assert(w[b] == v[b - 1]);
                    assert(!p1.contains(v[b - 1]));
                    assert(p1[path.len() as int] == cur);
                } else {
                    assert(w[a] == v[a - 1]);
                    assert(!p1.contains(v[a - 1]));
                    assert(p1[path.len() as int] == cur);
                }
            }
        }
    }
}

/// The search for cycles finds one exactly when the constraints have one
/// (for tables far from the limit of what a `usize` counts): what it
/// reports is a way through the table from a commit back to itself, and
/// where it reports none, no way through the table comes back to where it
/// started.
pub proof fn lemma_cycle_search_finds_exactly_cycles(t: Seq<(Seq<u8>, Seq<Seq<u8>>)>)
    requires
        table_wf(t),
        edge_count(t) <= usize::MAX / 4,
    ensures
        cycles_spec(t, 0, cycle_fuel(t)) matches Some(c) ==> is_table_cycle(t, c),
        cycles_spec(t, 0, cycle_fuel(t)) is None ==> forall|w: Seq<Seq<u8>>| !#[trigger] is_table_cycle(t, w),
{
    let cf = cycle_fuel(t);
    lemma_cycles_are_cycles(t, 0, cf);
    lemma_nodes_len(t);
    lemma_edges_at_least_entries(t);
    nodes_seq(t).lemma_cardinality_of_set();
    assert(cf >= table_nodes(t).len() + 1);
    if cycles_spec(t, 0, cf) is None {
        assert forall|w: Seq<Seq<u8>>| !#[trigger] is_table_cycle(t, w) by {
            if is_table_cycle(t, w) {
                assert(table_lookup(t, w[0]).contains(w[1]));
                lemma_lookup_key(t, w[0]);
                let i = choose|i: int| 0 <= i < table_keys(t).len() && table_keys(t)[i] == w[0];
                assert(t[i].0 == w[0]);
                lemma_no_cycle_from_key(t, 0, cf, i);
                lemma_key_in_nodes(t, i);
                let empty = Seq::<Seq<u8>>::empty();
                assert(empty.to_set() =~= Set::<Seq<u8>>::empty());
                assert(table_nodes(t).difference(empty.to_set()) =~= table_nodes(t));
                lemma_dfs_none_no_repeat(t, empty, w[0], cf);
                assert(w[0] == w[w.len() - 1]);
            }
        }
    }
}

/// Record the edges from `x` to each of `ks`, and put `ks` on the stack.
fn push_children(x: Oid, ks: &Vec<Oid>, edges: &mut Vec<(Oid, Oid)>, stack: &mut Vec<Oid>)
    ensures
        oids_view(final(stack)@) == oids_view(old(stack)@) + oids_view(ks@),
        oid_pairs_view(final(edges)@) == oid_pairs_view(old(edges)@) + oids_view(ks@).map_values(
            |k: Seq<u8>| (x@, k),
        ),
{
    let ghost s0 = oids_view(stack@);
    let ghost e0 = oid_pairs_view(edges@);
    let ghost kv = oids_view(ks@);
    let mut j: usize = 0;
    while j < ks.len()
        invariant
            j <= ks@.len(),
            kv == oids_view(ks@),
            oids_view(stack@) == s0 + kv.take(j as int),
            oid_pairs_view(edges@) == e0 + kv.take(j as int).map_values(|k: Seq<u8>| (x@, k)),
        decreases ks@.len() - j,
    {
        let ghost s1 = oids_view(stack@);
        let ghost e1 = oid_pairs_view(edges@);
        stack.push(ks[j]);
        edges.push((x, ks[j]));
        assert(oids_view(stack@) =~= s1.push(kv[j as int]));
        assert(oid_pairs_view(edges@) =~= e1.push((x@, kv[j as int])));
        assert(kv.take(j + 1) =~= kv.take(j as int).push(kv[j as int]));
        assert(kv.take(j + 1).map_values(|k: Seq<u8>| (x@, k)) =~= kv.take(j as int).map_values(|k: Seq<u8>| (x@, k)).push(
            (x@, kv[j as int]),
        ));
        j = j + 1;
    }
    assert(kv.take(j as int) =~= kv);
}

/// Whether `w` is a path through the table: each commit relates to the
/// next.
pub open spec fn is_child_path(t: Seq<(Seq<u8>, Seq<Seq<u8>>)>, w: Seq<Seq<u8>>) -> bool {
    &&& w.len() > 0
    &&& forall|i: int| 0 <= i < w.len() - 1 ==> #[trigger] table_lookup(t, w[i]).contains(w[i + 1])
}

/// Whether `x` is one of `starts` or, through the table, below one of them.
pub open spec fn reachable_from(t: Seq<(Seq<u8>, Seq<Seq<u8>>)>, starts: Seq<Seq<u8>>, x: Seq<u8>) -> bool {
    exists|w: Seq<Seq<u8>>| #[trigger] is_child_path(t, w) && starts.contains(w[0]) && w.last() == x
}

/// The edges from each commit reachable from `starts` to the commits that
/// the table relates to it.
pub open spec fn descendant_edges_spec(t: Seq<(Seq<u8>, Seq<Seq<u8>>)>, starts: Seq<Seq<u8>>) -> Set<
    (Seq<u8>, Seq<u8>),
> {
    Set::new(
        |e: (Seq<u8>, Seq<u8>)| reachable_from(t, starts, e.0) && table_lookup(t, e.0).contains(e.1),
    )
}

/// A set closed under the table that holds the starts holds every commit
/// reachable from them.
proof fn lemma_closed_holds_reachable(
    t: Seq<(Seq<u8>, Seq<Seq<u8>>)>,
    starts: Seq<Seq<u8>>,
    vis: Set<Seq<u8>>,
    w: Seq<Seq<u8>>,
    k: int,
)
    requires
        forall|s: Seq<u8>| starts.contains(s) ==> vis.contains(s),
        forall|x: Seq<u8>, c: Seq<u8>| vis.contains(x) && #[trigger] table_lookup(t, x).contains(c) ==> vis.contains(c),
        is_child_path(t, w),
        starts.contains(w[0]),
        0 <= k < w.len(),
    ensures
        vis.contains(w[k]),
    decreases k,
{
    if k > 0 {
        lemma_closed_holds_reachable(t, starts, vis, w, k - 1);
        let i = k - 1;
        assert(table_lookup(t, w[i]).contains(w[i + 1]));
    }
}

/// The edges below the commits `starts`, through `children` (for each
/// commit, its children that are to be shown): every commit reachable from
/// the starts, each edge to a child once.
pub fn collect_descendants(children: &Vec<Adjacency>, starts: &[Oid]) -> (r: Vec<(Oid, Oid)>)
    ensures
        oid_pairs_view(r@).to_set() == descendant_edges_spec(table_view(children@), oids_view(starts@)),
{
    let ghost tv = table_view(children@);
    let ghost sv = oids_view(starts@);
    let ghost u = (nodes_seq(tv) + sv).to_set();
    let mut visited: Vec<Oid> = Vec::new();
    let mut stack: Vec<Oid> = Vec::new();
    let mut edges: Vec<(Oid, Oid)> = Vec::new();
    let mut i: usize = 0;
    while i < starts.len()
        invariant
            i <= starts@.len(),
            sv == oids_view(starts@),
            u == (nodes_seq(tv) + sv).to_set(),
            oids_view(stack@) == sv.take(i as int),
            visited@.len() == 0,
            edges@.len() == 0,
        decreases starts@.len() - i,
    {
        let ghost s0 = oids_view(stack@);
        stack.push(starts[i]);
        assert(oids_view(stack@) =~= s0.push(starts@[i as int]@));
        assert(sv.take(i + 1) =~= sv.take(i as int).push(sv[i as int]));
        i = i + 1;
    }
    assert(sv.take(i as int) =~= sv);
    proof {
        assert forall|j: int| 0 <= j < sv.len() implies reachable_from(tv, sv, #[trigger] sv[j]) by {
            let w = seq![sv[j]];
            assert(is_child_path(tv, w));
        }
        assert forall|j: int| 0 <= j < sv.len() implies u.contains(#[trigger] sv[j]) by {
            assert((nodes_seq(tv) + sv)[nodes_seq(tv).len() + j] == sv[j]);
        }
        assert(oid_pairs_view(edges@).to_set() =~= Set::new(
            |e: (Seq<u8>, Seq<u8>)| oids_view(visited@).contains(e.0) && table_lookup(tv, e.0).contains(e.1),
        ));
    }
    while stack.len() > 0
        invariant
            tv == table_view(children@),
            sv == oids_view(starts@),
            u == (nodes_seq(tv) + sv).to_set(),
            forall|x: Seq<u8>| oids_view(visited@).contains(x) ==> #[trigger] reachable_from(tv, sv, x) && u.contains(x),
            forall|j: int| 0 <= j < stack@.len() ==> reachable_from(tv, sv, #[trigger] oids_view(stack@)[j]) && u.contains(
                oids_view(stack@)[j],
            ),
            forall|x: Seq<u8>, c: Seq<u8>|
                oids_view(visited@).contains(x) && #[trigger] table_lookup(tv, x).contains(c) ==> oids_view(
                    visited@,
                ).contains(c) || oids_view(stack@).contains(c),
            forall|s: Seq<u8>| sv.contains(s) ==> oids_view(visited@).contains(s) || oids_view(stack@).contains(s),
            oid_pairs_view(edges@).to_set() == Set::new(
                |e: (Seq<u8>, Seq<u8>)| oids_view(visited@).contains(e.0) && table_lookup(tv, e.0).contains(e.1),
            ),
        decreases u.difference(oids_view(visited@).to_set()).len(), stack@.len(),
    {
        let ghost vis0 = oids_view(visited@);
        let ghost st0 = oids_view(stack@);
        let ghost e0 = oid_pairs_view(edges@);
        let x = stack.pop().unwrap();
        assert(oids_view(stack@) =~= st0.drop_last());
        assert(st0.last() == x@);
        assert(reachable_from(tv, sv, st0[st0.len() - 1]) && u.contains(st0[st0.len() - 1]));
        if contains_oid(&visited, x) {
            assert forall|y: Seq<u8>| st0.contains(y) implies vis0.contains(y) || oids_view(stack@).contains(y) by {
                let j = choose|j: int| 0 <= j < st0.len() && st0[j] == y;
                if j < st0.len() - 1 {
                    assert(oids_view(stack@)[j] == y);
                }
            }
            assert forall|j: int| 0 <= j < stack@.len() implies reachable_from(tv, sv, #[trigger] oids_view(stack@)[j])
                && u.contains(oids_view(stack@)[j]) by {
                assert(oids_view(stack@)[j] == st0[j]);
            }
        } else {
            let ks = lookup_oids(children, x);
            let ghost kv = oids_view(ks@);
            visited.push(x);
            let ghost vis1 = oids_view(visited@);
            assert(vis1 =~= vis0.push(x@));
            let ghost st1 = oids_view(stack@);
            push_children(x, &ks, &mut edges, &mut stack);
            proof {
                let st2 = oids_view(stack@);
                assert(st2 == st1 + kv);
                let wx = choose|w: Seq<Seq<u8>>| #[trigger] is_child_path(tv, w) && sv.contains(w[0]) && w.last() == x@;
                assert forall|y: Seq<u8>| vis1.contains(y) implies #[trigger] reachable_from(tv, sv, y) && u.contains(y) by {
                    if y != x@ {
                        let j = choose|j: int| 0 <= j < vis1.len() && vis1[j] == y;
                        assert(vis0[j] == y);
                        assert(vis0.contains(y));
                    }
                }
                lemma_lookup_in_nodes(tv, x@);
                assert forall|j: int| 0 <= j < st2.len() implies reachable_from(tv, sv, #[trigger] st2[j]) && u.contains(st2[j]) by {
                    if j < st1.len() {
                        assert(st2[j] == st0[j]);
                    } else {
                        let k = st2[j];
                        assert(k == kv[j - st1.len()]);
                        assert(table_lookup(tv, x@).contains(k));
                        let w2 = wx.push(k);
                        assert(is_child_path(tv, w2)) by {
                            assert forall|a: int| 0 <= a < w2.len() - 1 implies #[trigger] table_lookup(tv, w2[a]).contains(w2[a + 1]) by {
                                if a < wx.len() - 1 {
                                    assert(w2[a] == wx[a] && w2[a + 1] == wx[a + 1]);
                                } else {
                                    assert(w2[a] == x@ && w2[a + 1] == k);
                                }
                            }
                        }
                        assert(w2[0] == wx[0]);
                        assert(table_nodes(tv).contains(k));
                        let q = choose|q: int| 0 <= q < nodes_seq(tv).len() && nodes_seq(tv)[q] == k;
                        assert((nodes_seq(tv) + sv)[q] == k);
                    }
                }
                assert forall|y: Seq<u8>, c: Seq<u8>| vis1.contains(y) && #[trigger] table_lookup(tv, y).contains(c) implies vis1.contains(c)
                    || st2.contains(c) by {
                    if y == x@ {
                        let q = choose|q: int| 0 <= q < kv.len() && kv[q] == c;
                        assert(st2[st1.len() + q] == c);
                    } else {
                        let j = choose|j: int| 0 <= j < vis1.len() && vis1[j] == y;
                        assert(vis0[j] == y);
                        assert(vis0.contains(y));
                        if st0.contains(c) {
                            let q = choose|q: int| 0 <= q < st0.len() && st0[q] == c;
                            if q < st0.len() - 1 {
                                assert(st2[q] == c);
                            } else {
                                assert(vis1[vis0.len() as int] == c);
                            }
                        } else {
                            let q = choose|q: int| 0 <= q < vis0.len() && vis0[q] == c;
                            assert(vis1[q] == c);
                        }
                    }
                }
                assert forall|z: Seq<u8>| sv.contains(z) implies vis1.contains(z) || st2.contains(z) by {
                    if vis0.contains(z) {
                        let q = choose|q: int| 0 <= q < vis0.len() && vis0[q] == z;
                        assert(vis1[q] == z);
                    } else {
                        let q = choose|q: int| 0 <= q < st0.len() && st0[q] == z;
                        if q < st0.len() - 1 {
                            assert(st2[q] == z);
                        } else {
                            assert(vis1[vis0.len() as int] == z);
                        }
                    }
                }
                let e2 = oid_pairs_view(edges@);
                assert(e2 == e0 + kv.map_values(|k: Seq<u8>| (x@, k)));
                assert(e2.to_set() =~= Set::new(
                    |e: (Seq<u8>, Seq<u8>)| vis1.contains(e.0) && table_lookup(tv, e.0).contains(e.1),
                )) by {
                    assert forall|e: (Seq<u8>, Seq<u8>)| e2.to_set().contains(e) implies vis1.contains(e.0) && table_lookup(tv, e.0).contains(e.1) by {
                        let q = choose|q: int| 0 <= q < e2.len() && e2[q] == e;
                        if q < e0.len() {
                            assert(e0[q] == e);
                            assert(e0.to_set().contains(e));
                            let j = choose|j: int| 0 <= j < vis0.len() && vis0[j] == e.0;
                            assert(vis1[j] == e.0);
                        } else {
                            assert(e == (x@, kv[q - e0.len()]));
                            assert(vis1[vis0.len() as int] == x@);
                        }
                    }
                    assert forall|e: (Seq<u8>, Seq<u8>)| vis1.contains(e.0) && table_lookup(tv, e.0).contains(e.1) implies e2.to_set().contains(e) by {
                        if e.0 == x@ {
                            let q = choose|q: int| 0 <= q < kv.len() && kv[q] == e.1;
                            assert(e2[e0.len() + q] == e);
                        } else {
                            let j = choose|j: int| 0 <= j < vis1.len() && vis1[j] == e.0;
                            assert(vis0[j] == e.0);
                            assert(vis0.contains(e.0));
                            assert(e0.to_set().contains(e));
                            let q = choose|q: int| 0 <= q < e0.len() && e0[q] == e;
                            assert(e2[q] == e);
                        }
                    }
                }
                assert(vis1.to_set() =~= vis0.to_set().insert(x@)) by {
                    assert forall|y: Seq<u8>| vis1.to_set().contains(y) implies vis0.to_set().insert(x@).contains(y) by {
                        let j = choose|j: int| 0 <= j < vis1.len() && vis1[j] == y;
                        if j < vis0.len() {
                            assert(vis0[j] == y);
                        }
                    }
                    assert forall|y: Seq<u8>| vis0.to_set().insert(x@).contains(y) implies vis1.to_set().contains(y) by {
                        if y == x@ {
                            assert(vis1[vis0.len() as int] == y);
                        } else {
                            let j = choose|j: int| 0 <= j < vis0.len() && vis0[j] == y;
                            assert(vis1[j] == y);
                        }
                    }
                }
                assert(u.difference(vis1.to_set()) =~= u.difference(vis0.to_set()).remove(x@));
                assert(u.difference(vis0.to_set()).contains(x@));
            }
        }
    }
    proof {
        let vis = oids_view(visited@).to_set();
        assert forall|s: Seq<u8>| sv.contains(s) implies vis.contains(s) by {
            assert(!oids_view(stack@).contains(s));
        }
        assert forall|x: Seq<u8>, c: Seq<u8>| vis.contains(x) && #[trigger] table_lookup(tv, x).contains(c) implies vis.contains(c) by {
            assert(oids_view(visited@).contains(x));
            assert(!oids_view(stack@).contains(c));
        }
        assert(oid_pairs_view(edges@).to_set() =~= descendant_edges_spec(tv, sv)) by {
            assert forall|e: (Seq<u8>, Seq<u8>)| descendant_edges_spec(tv, sv).contains(e) implies oid_pairs_view(edges@).to_set().contains(e) by {
                let w = choose|w: Seq<Seq<u8>>| #[trigger] is_child_path(tv, w) && sv.contains(w[0]) && w.last() == e.0;
                lemma_closed_holds_reachable(tv, sv, vis, w, w.len() - 1);
            }
        }
    }
    edges
}

/// Check the constraints for a cycle, searching from each commit in table
/// order; the first cycle found, if any, from a commit back to itself.
fn check_for_cycles(t: &Vec<Adjacency>) -> (r: Option<Vec<Oid>>)
    ensures
        match r {
            Some(c) => cycles_spec(table_view(t@), 0, cycle_fuel(table_view(t@))) == Some(oids_view(c@)),
            None => cycles_spec(table_view(t@), 0, cycle_fuel(table_view(t@))) is None,
        },
{
    let ghost tv = table_view(t@);
    let fuel = compute_fuel(t);
    let fuel2: usize = if fuel > usize::MAX / 2 {
        usize::MAX
    } else {
        fuel * 2
    };
    assert(fuel2 == cycle_fuel(tv));
    let mut i: usize = 0;
    while i < t.len()
        invariant
            i <= t@.len(),
            tv == table_view(t@),
            fuel2 == cycle_fuel(tv),
            cycles_spec(tv, 0, fuel2 as nat) == cycles_spec(tv, i as int, fuel2 as nat),
        decreases t@.len() - i,
    {
        let mut path: Vec<Oid> = Vec::new();
        assert(oids_view(path@) =~= Seq::<Seq<u8>>::empty());
        assert(tv[i as int].0 == t@[i as int].oid@);
        match dfs(t, &mut path, t[i].oid, fuel2) {
            Some(c) => {
                return Some(c);
            },
            None => {},
        }
        i = i + 1;
    }
    None
}

/// The commits that the edges `edges` put on top of `k`.
pub open spec fn children_in(edges: Seq<(Seq<u8>, Seq<u8>)>, k: Seq<u8>) -> Set<Seq<u8>> {
    Set::new(|c: Seq<u8>| exists|i: int| 0 <= i < edges.len() && #[trigger] edges[i] == (k, c))
}

/// Whether the table `t` holds the constraints of `base` and the edges
/// `edges`: in canonical form, it relates each commit to what `base`
/// relates it to and to what the edges put on top of it.
pub open spec fn holds_constraints(
    t: Seq<(Seq<u8>, Seq<Seq<u8>>)>,
    base: Seq<(Seq<u8>, Seq<Seq<u8>>)>,
    edges: Seq<(Seq<u8>, Seq<u8>)>,
) -> bool {
    &&& table_wf(t)
    &&& forall|k: Seq<u8>|
        #[trigger] table_lookup(t, k).to_set() == table_lookup(base, k).to_set().union(children_in(edges, k))
}

/// A copy of a table.
fn copy_table(t: &Vec<Adjacency>) -> (r: Vec<Adjacency>)
    ensures
        table_view(r@) == table_view(t@),
{
    let mut r: Vec<Adjacency> = Vec::new();
    let mut i: usize = 0;
    while i < t.len()
        invariant
            i <= t@.len(),
            table_view(r@) == table_view(t@).take(i as int),
        decreases t@.len() - i,
    {
        let ghost before = table_view(r@);
        r.push(Adjacency { oid: t[i].oid, oids: copy_oids(&t[i].oids) });
        assert(table_view(r@) =~= before.push((t@[i as int].oid@, oids_view(t@[i as int].oids@))));
        assert(table_view(t@).take(i + 1) =~= table_view(t@).take(i as int).push(table_view(t@)[i as int]));
        i = i + 1;
    }
    assert(table_view(t@).take(t@.len() as int) =~= table_view(t@));
    r
}

/// The plan state before anything is planned.
pub open spec fn empty_state() -> PlanState {
    PlanState { acc: Seq::empty(), used: Seq::empty(), labels: Seq::empty() }
}

/// The plans for the roots `roots`, in order, each after a reset to the
/// commit it goes on.
pub open spec fn roots_fold(g: GraphView, st: PlanState, roots: Seq<(Seq<u8>, Seq<u8>)>, fuel: nat) -> PlanState
    decreases roots.len(),
{
    if roots.len() == 0 {
        st
    } else {
        let st1 = PlanState {
            acc: st.acc.push(CommandView::Reset(TargetView::Oid(roots[0].0))),
            used: st.used,
            labels: st.labels,
        };
        roots_fold(g, plan_spec(g, st1, roots[0].0, roots[0].1, fuel), roots.drop_first(), fuel)
    }
}

/// The commands of the plan for the constraints `t`, the parents of the
/// commits and the commits already upstream: the plan for each root, then
/// the registration of the cleanup after the rebase.
pub open spec fn plan_commands_spec(
    t: Seq<(Seq<u8>, Seq<Seq<u8>>)>,
    parents: Seq<(Seq<u8>, Seq<Seq<u8>>)>,
    applied: Seq<Seq<u8>>,
) -> Seq<CommandView> {
    let g = GraphView { parents, children: t, to_move: moved_spec(t), applied };
    roots_fold(g, empty_state(), roots_spec(t, t.len() as int), plan_fuel(t)).acc.push(
        CommandView::RegisterExtraPostRewriteHook,
    )
}

/// How many keys of the table are not on `path`.
pub open spec fn keys_off_path(t: Seq<(Seq<u8>, Seq<Seq<u8>>)>, path: Seq<Seq<u8>>) -> nat {
    table_keys(t).to_set().difference(path.to_set()).len()
}

/// A commit that the table relates to others is a key of the table.
proof fn lemma_lookup_key(t: Seq<(Seq<u8>, Seq<Seq<u8>>)>, k: Seq<u8>)
    requires
        table_lookup(t, k).len() > 0,
    ensures
        table_keys(t).to_set().contains(k),
    decreases t.len(),
{
    if t[0].0 == k {
        assert(table_keys(t)[0] == k);
    } else {
        lemma_lookup_key(t.drop_first(), k);
        let j = choose|j: int| 0 <= j < table_keys(t.drop_first()).len() && table_keys(t.drop_first())[j] == k;
        assert(table_keys(t)[j + 1] == k);
    }
}

/// The plan from `cur` goes as deep as the search for cycles from `cur`
/// along `path`: where that search goes deep enough and finds no commit
/// twice, and the plan has depth for every key off the path, planning
/// deeper gives the same.
proof fn lemma_plan_fuel(
    g: GraphView,
    st: PlanState,
    prev: Seq<u8>,
    cur: Seq<u8>,
    path: Seq<Seq<u8>>,
    d: nat,
    f: nat,
    h: nat,
)
    requires
        table_nodes(g.children).contains(cur),
        path.to_set().subset_of(table_nodes(g.children)),
        d >= unvisited(g.children, path) + 1,
        dfs_spec(g.children, path, cur, d) is None,
        f >= keys_off_path(g.children, path) + 1,
        h >= f,
    ensures
        plan_spec(g, st, prev, cur, f) == plan_spec(g, st, prev, cur, h),
    decreases f, 0int,
{
    let t = g.children;
    assert(!path.contains(cur));
    let p1 = path.push(cur);
    let kids = table_lookup(t, cur);
    if kids.len() > 0 {
        lemma_lookup_key(t, cur);
        lemma_visit_one(table_keys(t).to_set(), path, cur);
        lemma_visit_one(table_nodes(t), path, cur);
        lemma_lookup_in_nodes(t, cur);
        assert(p1.to_set().subset_of(table_nodes(t))) by {
            assert forall|x: Seq<u8>| p1.to_set().contains(x) implies table_nodes(t).contains(x) by {
                let j = choose|j: int| 0 <= j < p1.len() && p1[j] == x;
                if j < path.len() {
                    assert(path[j] == x);
                    assert(path.to_set().contains(x));
                }
            }
        }
        assert(dfs_spec(t, path, cur, d) == dfs_children_spec(t, p1, kids, (d - 1) as nat));
        let parents = table_lookup(g.parents, cur);
        let first: Option<Seq<CommandView>> = if g.applied.contains(cur) {
            Some(seq![CommandView::SkipUpstreamAppliedCommit(cur)])
        } else if parents.len() > 1 {
            match merge_targets_spec(st.labels, parents, prev, g.to_move) {
                Some(ts) => Some(seq![CommandView::Merge(cur, ts)]),
                None => None,
            }
        } else {
            Some(seq![CommandView::Pick(cur), CommandView::DetectEmptyCommit(cur)])
        };
        if let Some(cmds) = first {
            let st1 = PlanState { acc: st.acc + cmds, used: st.used, labels: st.labels };
            let st2 = if has_merge_child(g.parents, kids) {
                with_label(st1, fresh_label_spec(st1.used, merge_parent_label(st1.acc.len())), cur, true)
            } else {
                st1
            };
            if kids.len() == 1 {
                assert(table_nodes(t).contains(kids[0]));
                lemma_plan_fuel(g, st2, cur, kids[0], p1, (d - 1) as nat, (f - 1) as nat, (h - 1) as nat);
            } else {
                let l = fresh_label_spec(st2.used, branch_label(st2.acc.len()));
                lemma_children_plan_fuel(
                    g,
                    with_label(st2, l, cur, false),
                    cur,
                    kids,
                    l,
                    p1,
                    (d - 1) as nat,
                    (f - 1) as nat,
                    (h - 1) as nat,
                );
            }
        }
    }
}

/// The plans for the children `kids`, as `lemma_plan_fuel` for one.
proof fn lemma_children_plan_fuel(
    g: GraphView,
    st: PlanState,
    cur: Seq<u8>,
    kids: Seq<Seq<u8>>,
    label: Seq<char>,
    path: Seq<Seq<u8>>,
    d: nat,
    f: nat,
    h: nat,
)
    requires
        forall|j: int| 0 <= j < kids.len() ==> table_nodes(g.children).contains(#[trigger] kids[j]),
        path.to_set().subset_of(table_nodes(g.children)),
        d >= unvisited(g.children, path) + 1,
        dfs_children_spec(g.children, path, kids, d) is None,
        f >= keys_off_path(g.children, path) + 1,
        h >= f,
    ensures
        children_spec(g, st, cur, kids, label, f) == children_spec(g, st, cur, kids, label, h),
    decreases f, kids.len() + 1,
{
    let t = g.children;
    if kids.len() > 0 {
        assert(table_nodes(t).contains(kids[0]));
        lemma_plan_fuel(g, st, cur, kids[0], path, d, f, h);
        let st1 = plan_spec(g, st, cur, kids[0], f);
        let st2 = PlanState {
            acc: st1.acc.push(CommandView::Reset(TargetView::Label(label))),
            used: st1.used,
            labels: st1.labels,
        };
        assert forall|j: int| 0 <= j < kids.drop_first().len() implies table_nodes(t).contains(
            #[trigger] kids.drop_first()[j],
        ) by {
            assert(kids.drop_first()[j] == kids[j + 1]);
        }
        lemma_children_plan_fuel(g, st2, cur, kids.drop_first(), label, path, d, f, h);
    }
}

/// In a search through `kids` that finds no cycle, the search from each
/// child along the same way finds none either.
proof fn lemma_kid_searched(t: Seq<(Seq<u8>, Seq<Seq<u8>>)>, path: Seq<Seq<u8>>, kids: Seq<Seq<u8>>, d: nat, j: int)
    requires
        dfs_children_spec(t, path, kids, d) is None,
        0 <= j < kids.len(),
    ensures
        dfs_spec(t, path, kids[j], d) is None,
    decreases j,
{
    if j > 0 {
        lemma_kid_searched(t, path, kids.drop_first(), d, j - 1);
        assert(kids.drop_first()[j - 1] == kids[j]);
    }
}

/// Where the search for cycles from position `i` on finds none, the search
/// from each later key finds none.
proof fn lemma_no_cycle_from_key(t: Seq<(Seq<u8>, Seq<Seq<u8>>)>, i: int, f: nat, k: int)
    requires
        cycles_spec(t, i, f) is None,
        0 <= i <= k < t.len(),
    ensures
        dfs_spec(t, Seq::empty(), t[k].0, f) is None,
    decreases k - i,
{
    if i < k {
        lemma_no_cycle_from_key(t, i + 1, f, k);
    }
}

/// Each root is an edge of the table from a key to one of its commits.
proof fn lemma_root_is_edge(t: Seq<(Seq<u8>, Seq<Seq<u8>>)>, n: int, a: int)
    requires
        0 <= n <= t.len(),
        0 <= a < roots_spec(t, n).len(),
    ensures
        exists|i: int, j: int|
            0 <= i < t.len() && 0 <= j < t[i].1.len() && roots_spec(t, n)[a] == (t[i].0, #[trigger] t[i].1[j]),
    decreases n,
{
    let r0 = roots_spec(t, n - 1);
    if a < r0.len() {
        lemma_root_is_edge(t, n - 1, a);
        let (i, j) = choose|i: int, j: int|
            0 <= i < t.len() && 0 <= j < t[i].1.len() && r0[a] == (t[i].0, #[trigger] t[i].1[j]);
        assert(roots_spec(t, n)[a] == r0[a]);
    } else {
        let e = t[n - 1];
        let j = a - r0.len();
        assert(roots_spec(t, n)[a] == e.1.map_values(|c: Seq<u8>| (e.0, c))[j]);
        assert(roots_spec(t, n)[a] == (t[n - 1].0, t[n - 1].1[j]));
    }
}

/// Whether the plan from `cur` with depth `f` goes as deep as a search for
/// cycles that finds no commit twice.
pub open spec fn plan_start_ok(t: Seq<(Seq<u8>, Seq<Seq<u8>>)>, cur: Seq<u8>, f: nat) -> bool {
    exists|p: Seq<Seq<u8>>, d: nat|
        {
            &&& table_nodes(t).contains(cur)
            &&& p.to_set().subset_of(table_nodes(t))
            &&& d >= unvisited(t, p) + 1
            &&& #[trigger] dfs_spec(t, p, cur, d) is None
            &&& f >= keys_off_path(t, p) + 1
        }
}

/// The plans for the roots, as `lemma_plan_fuel` for one.
proof fn lemma_roots_fold_fuel(g: GraphView, st: PlanState, roots: Seq<(Seq<u8>, Seq<u8>)>, f: nat, h: nat)
    requires
        forall|a: int| 0 <= a < roots.len() ==> plan_start_ok(g.children, #[trigger] roots[a].1, f),
        h >= f,
    ensures
        roots_fold(g, st, roots, f) == roots_fold(g, st, roots, h),
    decreases roots.len(),
{
    if roots.len() > 0 {
        assert(plan_start_ok(g.children, roots[0].1, f));
        let (p, d) = choose|p: Seq<Seq<u8>>, d: nat|
            {
                &&& table_nodes(g.children).contains(roots[0].1)
                &&& p.to_set().subset_of(table_nodes(g.children))
                &&& d >= unvisited(g.children, p) + 1
                &&& #[trigger] dfs_spec(g.children, p, roots[0].1, d) is None
                &&& f >= keys_off_path(g.children, p) + 1
            };
        let st1 = PlanState {
            acc: st.acc.push(CommandView::Reset(TargetView::Oid(roots[0].0))),
            used: st.used,
            labels: st.labels,
        };
        lemma_plan_fuel(g, st1, roots[0].0, roots[0].1, p, d, f, h);
        assert forall|a: int| 0 <= a < roots.drop_first().len() implies plan_start_ok(
            g.children,
            #[trigger] roots.drop_first()[a].1,
            f,
        ) by {
            assert(roots.drop_first()[a] == roots[a + 1]);
        }
        lemma_roots_fold_fuel(g, plan_spec(g, st1, roots[0].0, roots[0].1, f), roots.drop_first(), f, h);
    }
}

/// The plan goes deep enough: for constraints without cycles (far from
/// the limit of what a `usize` counts), planning deeper gives the same
/// plan.
pub proof fn lemma_plan_deep_enough(
    t: Seq<(Seq<u8>, Seq<Seq<u8>>)>,
    parents: Seq<(Seq<u8>, Seq<Seq<u8>>)>,
    applied: Seq<Seq<u8>>,
    h: nat,
)
    requires
        table_wf(t),
        edge_count(t) <= usize::MAX / 4,
        cycles_spec(t, 0, cycle_fuel(t)) is None,
        h >= plan_fuel(t),
    ensures
        ({
            let g = GraphView { parents, children: t, to_move: moved_spec(t), applied };
            roots_fold(g, empty_state(), roots_spec(t, t.len() as int), h) == roots_fold(
                g,
                empty_state(),
                roots_spec(t, t.len() as int),
                plan_fuel(t),
            )
        }),
{
    let g = GraphView { parents, children: t, to_move: moved_spec(t), applied };
    let roots = roots_spec(t, t.len() as int);
    let f = plan_fuel(t);
    let cf = cycle_fuel(t);
    lemma_nodes_len(t);
    lemma_edges_at_least_entries(t);
    nodes_seq(t).lemma_cardinality_of_set();
    table_keys(t).lemma_cardinality_of_set();
    lemma_wf_keys_distinct(t);
    assert(cf >= table_nodes(t).len() + 1);
    assert forall|a: int| 0 <= a < roots.len() implies plan_start_ok(t, #[trigger] roots[a].1, f) by {
        lemma_root_is_edge(t, t.len() as int, a);
        let (i, j) = choose|i: int, j: int|
            0 <= i < t.len() && 0 <= j < t[i].1.len() && roots[a] == (t[i].0, #[trigger] t[i].1[j]);
        let key = t[i].0;
        let empty = Seq::<Seq<u8>>::empty();
        lemma_no_cycle_from_key(t, 0, cf, i);
        lemma_lookup_at(t, i);
        lemma_key_in_nodes(t, i);
        lemma_entry_in_nodes(t, i);
        assert(empty.to_set() =~= Set::<Seq<u8>>::empty());
        assert(table_nodes(t).difference(empty.to_set()) =~= table_nodes(t));
        lemma_visit_one(table_nodes(t), empty, key);
        let start = empty.push(key);
        assert(start.to_set().subset_of(table_nodes(t))) by {
            assert forall|x: Seq<u8>| start.to_set().contains(x) implies table_nodes(t).contains(x) by {
                let k = choose|k: int| 0 <= k < start.len() && start[k] == x;
                assert(k == 0);
            }
        }
        assert(dfs_spec(t, empty, key, cf) == dfs_children_spec(t, start, t[i].1, (cf - 1) as nat));
        lemma_kid_searched(t, start, t[i].1, (cf - 1) as nat, j);
        let p = start;
        assert(table_keys(t)[i] == key);
        assert(table_keys(t).to_set().contains(key));
        lemma_visit_one(table_keys(t).to_set(), empty, key);
        assert(table_keys(t).to_set().difference(empty.to_set()) =~= table_keys(t).to_set());
        assert(table_nodes(t).contains(t[i].1[j]));
        assert(plan_start_ok(t, roots[a].1, f)) by {
            assert(dfs_spec(t, p, t[i].1[j], (cf - 1) as nat) is None);
        }
    }
    lemma_roots_fold_fuel(g, empty_state(), roots, f, h);
}

/// Builder for a rebase plan. Unlike regular Git rebases, a rebase plan
/// can move multiple unrelated subtrees to unrelated destinations.
#[derive(Debug)]
pub struct RebasePlanBuilder {
    initial_constraints: Vec<Adjacency>,
}

impl RebasePlanBuilder {
    /// The constraints: for each commit, the commits to put on top of it.
    pub closed spec fn spec_constraints(&self) -> Seq<(Seq<u8>, Seq<Seq<u8>>)> {
        table_view(self.initial_constraints@)
    }

    /// Whether the constraints are in canonical form.
    pub closed spec fn wf(&self) -> bool {
        table_wf(self.spec_constraints())
    }

    /// A builder without constraints.
    pub fn new() -> (r: Self)
        ensures
            r.wf(),
            r.spec_constraints() == Seq::<(Seq<u8>, Seq<Seq<u8>>)>::empty(),
    {
        let r = RebasePlanBuilder { initial_constraints: Vec::new() };
        assert(r.spec_constraints() =~= Seq::<(Seq<u8>, Seq<Seq<u8>>)>::empty());
        r
    }

    /// Move the subtree at `source_oid` on top of `dest_oid`.
    pub fn move_subtree(&mut self, source_oid: Oid, dest_oid: Oid)
        requires
            old(self).wf(),
        ensures
            final(self).wf(),
            forall|k: Seq<u8>|
                #[trigger] table_lookup(final(self).spec_constraints(), k).to_set() == if k == dest_oid@ {
                    table_lookup(old(self).spec_constraints(), k).to_set().insert(source_oid@)
                } else {
                    table_lookup(old(self).spec_constraints(), k).to_set()
                },
    {
        add_constraint(&mut self.initial_constraints, dest_oid, source_oid);
    }

    /// Create the rebase plan, with the constraints and the edges
    /// `descendant_edges` (the descendants of the moved commits, which move
    /// with them), the parents of the commits, and the commits whose
    /// changes are already upstream. An error if the constraints contain a
    /// cycle; `None` if nothing moves.
    pub fn build(&self, descendant_edges: &[(Oid, Oid)], parents: Vec<Adjacency>, applied_upstream: Vec<Oid>) -> (r:
        Result<Option<RebasePlan>, BuildRebasePlanError>)
        requires
            self.wf(),
        ensures
            exists|t: Seq<(Seq<u8>, Seq<Seq<u8>>)>|
                {
                    &&& #[trigger] holds_constraints(
                        t,
                        self.spec_constraints(),
                        oid_pairs_view(descendant_edges@),
                    )
                    &&& match r {
                        Err(BuildRebasePlanError::ConstraintCycle { cycle_oids }) => cycles_spec(
                            t,
                            0,
                            cycle_fuel(t),
                        ) == Some(oids_view(cycle_oids@)),
                        Ok(plan) => cycles_spec(t, 0, cycle_fuel(t)) is None && match plan {
                            None => roots_spec(t, t.len() as int).len() == 0,
                            Some(p) => roots_spec(t, t.len() as int).len() > 0 && p.first_dest_oid@ == roots_spec(
                                t,
                                t.len() as int,
                            )[0].0 && command_views(p.commands@) == plan_commands_spec(
                                t,
                                table_view(parents@),
                                oids_view(applied_upstream@),
                            ),
                        },
                    }
                },
    {
        let ghost base = self.spec_constraints();
        let ghost ev = oid_pairs_view(descendant_edges@);
        let mut constraints = copy_table(&self.initial_constraints);
        let mut i: usize = 0;
        assert forall|k: Seq<u8>| #[trigger] table_lookup(base, k).to_set() == table_lookup(base, k).to_set().union(
            children_in(ev.take(0), k),
        ) by {
            assert(children_in(ev.take(0), k) =~= Set::<Seq<u8>>::empty());
            assert(table_lookup(base, k).to_set().union(Set::empty()) =~= table_lookup(base, k).to_set());
        }
        while i < descendant_edges.len()
            invariant
                i <= descendant_edges@.len(),
                ev == oid_pairs_view(descendant_edges@),
                holds_constraints(table_view(constraints@), base, ev.take(i as int)),
            decreases descendant_edges@.len() - i,
        {
            let (parent, child) = descendant_edges[i];
            let ghost before = table_view(constraints@);
            add_constraint(&mut constraints, parent, child);
            proof {
                assert(ev[i as int] == (parent@, child@));
                assert forall|k: Seq<u8>|
                    #[trigger] table_lookup(table_view(constraints@), k).to_set() == table_lookup(base, k).to_set().union(
                        children_in(ev.take(i + 1), k),
                    ) by {
                    let now = children_in(ev.take(i + 1), k);
                    let was = children_in(ev.take(i as int), k);
                    if k == parent@ {
                        assert(now =~= was.insert(child@)) by {
                            assert forall|c: Seq<u8>| now.contains(c) implies was.insert(child@).contains(c) by {
                                let j = choose|j: int| 0 <= j < ev.take(i + 1).len() && #[trigger] ev.take(i + 1)[j] == (k, c);
                                if j < i {
                                    assert(ev.take(i as int)[j] == (k, c));
                                }
                            }
                            assert forall|c: Seq<u8>| was.insert(child@).contains(c) implies now.contains(c) by {
                                if c == child@ {
                                    assert(ev.take(i + 1)[i as int] == (k, c));
                                } else {
                                    let j = choose|j: int| 0 <= j < ev.take(i as int).len() && #[trigger] ev.take(i as int)[j] == (k, c);
                                    assert(ev.take(i + 1)[j] == (k, c));
                                }
                            }
                        }
                        assert(table_lookup(base, k).to_set().union(was).insert(child@) =~= table_lookup(base, k).to_set().union(
                            was.insert(child@),
                        ));
                    } else {
                        assert(now =~= was) by {
                            assert forall|c: Seq<u8>| now.contains(c) implies was.contains(c) by {
                                let j = choose|j: int| 0 <= j < ev.take(i + 1).len() && #[trigger] ev.take(i + 1)[j] == (k, c);
                                if j < i {
                                    assert(ev.take(i as int)[j] == (k, c));
                                } else {
                                    assert(ev.take(i + 1)[j] == (parent@, child@));
                                }
                            }
                            assert forall|c: Seq<u8>| was.contains(c) implies now.contains(c) by {
                                let j = choose|j: int| 0 <= j < ev.take(i as int).len() && #[trigger] ev.take(i as int)[j] == (k, c);
                                assert(ev.take(i + 1)[j] == (k, c));
                            }
                        }
                    }
                }
            }
            i = i + 1;
        }
        assert(ev.take(descendant_edges@.len() as int) =~= ev);
        let ghost t = table_view(constraints@);
        match check_for_cycles(&constraints) {
            Some(cycle_oids) => {
                return Err(BuildRebasePlanError::ConstraintCycle { cycle_oids });
            },
            None => {},
        }
        let fuel = compute_fuel(&constraints);
        let commits_to_move = moved_commits(&constraints);
        let roots = find_roots(&constraints);
        let ghost rv = roots@.map_values(|p: (Oid, Oid)| (p.0@, p.1@));
        let graph = RebaseGraph { parents, children: constraints, commits_to_move, applied_upstream };
        let ghost gv = graph.view_graph();
        let mut st = BuildState { commands: Vec::new(), used_labels: Vec::new(), merge_commit_parent_labels: Vec::new() };
        assert(st.view_state() =~= empty_state()) by {
            assert(command_views(st.commands@) =~= Seq::<CommandView>::empty());
            assert(st.used_labels@.map_values(|t: String| t@) =~= Seq::<Seq<char>>::empty());
            assert(labels_view(st.merge_commit_parent_labels@) =~= Seq::<(Seq<u8>, Seq<char>)>::empty());
        }
        let mut j: usize = 0;
        assert(rv.skip(0) =~= rv);
        while j < roots.len()
            invariant
                j <= roots@.len(),
                rv == roots@.map_values(|p: (Oid, Oid)| (p.0@, p.1@)),
                gv == graph.view_graph(),
                roots_fold(gv, empty_state(), rv, fuel as nat) == roots_fold(
                    gv,
                    st.view_state(),
                    rv.skip(j as int),
                    fuel as nat,
                ),
            decreases roots@.len() - j,
        {
            let (p, c) = roots[j];
            assert(rv.skip(j as int)[0] == (p@, c@));
            assert(rv.skip(j as int).drop_first() =~= rv.skip(j + 1));
            let ghost before = command_views(st.commands@);
            st.commands.push(RebaseCommand::Reset { target: OidOrLabel::Oid(p) });
            assert(command_views(st.commands@) =~= before.push(CommandView::Reset(TargetView::Oid(p@))));
            plan_commit(&graph, &mut st, p, c, fuel);
            j = j + 1;
        }
        assert(rv.skip(roots@.len() as int) =~= Seq::<(Seq<u8>, Seq<u8>)>::empty());
        let ghost before = command_views(st.commands@);
        st.commands.push(RebaseCommand::RegisterExtraPostRewriteHook);
        assert(command_views(st.commands@) =~= before.push(CommandView::RegisterExtraPostRewriteHook));
        assert(command_views(st.commands@) == plan_commands_spec(t, table_view(graph.parents@), oids_view(graph.applied_upstream@)));
        if roots.len() == 0 {
            assert(rv.len() == 0);
            return Ok(None);
        }
        assert(rv[0] == (roots@[0].0@, roots@[0].1@));
        Ok(Some(RebasePlan { first_dest_oid: roots[0].0, commands: st.commands }))
    }
}

} // verus!
