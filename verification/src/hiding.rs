//! Hiding and unhiding commits on request: the commits concerned (with the
//! commits below them, on request), the events recorded, and what the user
//! is told about each commit.

use vstd::prelude::*;

use crate::eventlog::{visibility_spec, CommitVisibility, Event, EventCursor, EventReplayer, EventTransactionId, EventView};
use crate::node_descriptors::{short_oid, short_oid_spec};
use crate::oid::Oid;
use crate::plan::lemma_visit_one;
use crate::smartlog::{
    drawn_below, find_node, is_drawn_path, lemma_node_index, no_commit_below_itself, node_index, node_oids, oid_views,
    SmartlogNode,
};

verus! {

/// The events that hide (or, with `unhide`, unhide) the commits `oids`, in
/// order.
pub fn visibility_events(oids: &[Oid], timestamp: u64, event_tx_id: EventTransactionId, unhide: bool) -> (r: Vec<
    Event,
>)
    ensures
        r@.len() == oids@.len(),
        forall|i: int|
            0 <= i < oids@.len() ==> (#[trigger] r@[i])@ == if unhide {
                EventView::Unhide { timestamp, tx: event_tx_id.0, oid: oids@[i]@ }
            } else {
                EventView::Hide { timestamp, tx: event_tx_id.0, oid: oids@[i]@ }
            },
{
    let mut events: Vec<Event> = Vec::new();
    let mut i: usize = 0;
    while i < oids.len()
        invariant
            i <= oids@.len(),
            events@.len() == i,
            forall|j: int|
                0 <= j < i ==> (#[trigger] events@[j])@ == if unhide {
                    EventView::Unhide { timestamp, tx: event_tx_id.0, oid: oids@[j]@ }
                } else {
                    EventView::Hide { timestamp, tx: event_tx_id.0, oid: oids@[j]@ }
                },
        decreases oids@.len() - i,
    {
        let commit_oid = oids[i];
        if unhide {
            events.push(Event::UnhideEvent { timestamp, event_tx_id, commit_oid });
        } else {
            events.push(Event::HideEvent { timestamp, event_tx_id, commit_oid });
        }
        i = i + 1;
    }
    events
}

/// The notes under a commit that was hidden (or, with `unhide`, unhidden):
/// that the operation had no effect if the commit already was hidden (or
/// visible) as of the cursor, and the command that reverses it.
pub open spec fn visibility_notes_spec(evs: Seq<EventView>, c: int, oid: Seq<u8>, unhide: bool) -> Seq<Seq<char>> {
    let vis = visibility_spec(evs, c, oid);
    let no_effect: Seq<Seq<char>> = if !unhide && vis == Some(CommitVisibility::Hidden) {
        seq!["(It was already hidden, so this operation had no effect.)"@]
    } else if unhide && vis == Some(CommitVisibility::Visible) {
        seq!["(It was not hidden, so this operation had no effect.)"@]
    } else {
        Seq::empty()
    };
    no_effect.push(
        if unhide {
            "To hide this commit, run: git hide "@
        } else {
            "To unhide this commit, run: git unhide "@
        } + short_oid_spec(oid),
    )
}

/// The notes under a commit that was hidden (or, with `unhide`, unhidden),
/// as of the cursor before the operation.
pub fn visibility_notes(event_replayer: &EventReplayer, cursor: EventCursor, oid: Oid, unhide: bool) -> (r: Vec<String>)
    requires
        event_replayer.wf(),
        0 <= cursor.event_id <= event_replayer.recorded().len(),
    ensures
        r@.map_values(|s: String| s@) == visibility_notes_spec(
            event_replayer.recorded(),
            cursor.event_id as int,
            oid@,
            unhide,
        ),
{
    let visibility = event_replayer.get_cursor_commit_visibility(cursor, oid);
    let mut notes: Vec<String> = Vec::new();
    let ghost before;
    if !unhide && visibility == Some(CommitVisibility::Hidden) {
        notes.push("(It was already hidden, so this operation had no effect.)".to_owned());
        proof {
            before = seq!["(It was already hidden, so this operation had no effect.)"@];
        }
    } else if unhide && visibility == Some(CommitVisibility::Visible) {
        notes.push("(It was not hidden, so this operation had no effect.)".to_owned());
        proof {
            before = seq!["(It was not hidden, so this operation had no effect.)"@];
        }
    } else {
        proof {
            before = Seq::<Seq<char>>::empty();
        }
    }
    assert(notes@.map_values(|s: String| s@) =~= before);
    let mut reverse = if unhide {
        "To hide this commit, run: git hide ".to_owned()
    } else {
        "To unhide this commit, run: git unhide ".to_owned()
    };
    reverse.append(short_oid(oid).as_str());
    notes.push(reverse);
    assert(notes@.map_values(|s: String| s@) =~= before.push(reverse@));
    notes
}

/// The commits at and below `cur` in the smartlog, in depth-first order
/// (each before its children, children in order), that are visible if
/// `visible` and hidden otherwise; with repeats. At most `fuel` commits
/// deep.
pub open spec fn below_spec(nodes: Seq<SmartlogNode>, visible: bool, cur: Seq<u8>, fuel: nat) -> Seq<Seq<u8>>
    decreases fuel, 0int,
{
    if fuel == 0 {
        Seq::empty()
    } else {
        match node_index(nodes, cur) {
            None => Seq::empty(),
            Some(i) => (if nodes[i].is_visible == visible {
                seq![cur]
            } else {
                Seq::empty()
            }) + below_kids_spec(nodes, visible, oid_views(nodes[i].children@), 0, (fuel - 1) as nat),
        }
    }
}

/// `below_spec` for each of `kids[j..]`, in order.
pub open spec fn below_kids_spec(
    nodes: Seq<SmartlogNode>,
    visible: bool,
    kids: Seq<Seq<u8>>,
    j: int,
    fuel: nat,
) -> Seq<Seq<u8>>
    decreases fuel, kids.len() - j + 1,
{
    if j < 0 || j >= kids.len() {
        Seq::empty()
    } else {
        below_spec(nodes, visible, kids[j], fuel) + below_kids_spec(nodes, visible, kids, j + 1, fuel)
    }
}

/// The members of `s` in order, each at its first place only.
pub open spec fn first_places(s: Seq<Seq<u8>>) -> Seq<Seq<u8>>
    decreases s.len(),
{
    if s.len() == 0 {
        Seq::empty()
    } else {
        let d = first_places(s.drop_last());
        if d.contains(s.last()) {
            d
        } else {
            d.push(s.last())
        }
    }
}

/// How deep the walk below commits goes: one more than the number of nodes,
/// as far as a `usize` counts.
pub open spec fn below_fuel(nodes: Seq<SmartlogNode>) -> nat {
    if nodes.len() < usize::MAX {
        (nodes.len() + 1) as nat
    } else {
        usize::MAX as nat
    }
}

/// The commits to hide (`visible`) or unhide (not `visible`) recursively:
/// those at and below each of `starts`, in order, without repeats.
pub open spec fn recurse_spec(nodes: Seq<SmartlogNode>, visible: bool, starts: Seq<Seq<u8>>) -> Seq<Seq<u8>> {
    first_places(below_kids_spec(nodes, visible, starts, 0, below_fuel(nodes)))
}

/// Append the commits of `below_spec` to `acc`.
fn walk_below(nodes: &Vec<SmartlogNode>, visible: bool, cur: Oid, fuel: usize, acc: &mut Vec<Oid>)
    ensures
        oid_views(final(acc)@) == oid_views(old(acc)@) + below_spec(nodes@, visible, cur@, fuel as nat),
    decreases fuel, 0int,
{
    if fuel == 0 {
        assert(oid_views(acc@) =~= oid_views(acc@) + Seq::<Seq<u8>>::empty());
        return;
    }
    match find_node(nodes, cur) {
        None => {
            assert(oid_views(acc@) =~= oid_views(acc@) + Seq::<Seq<u8>>::empty());
        },
        Some(i) => {
            let ghost a0 = oid_views(acc@);
            if nodes[i].is_visible == visible {
                acc.push(cur);
                assert(oid_views(acc@) =~= a0 + seq![cur@]);
            } else {
                assert(oid_views(acc@) =~= a0 + Seq::<Seq<u8>>::empty());
            }
            let ghost a1 = oid_views(acc@);
            walk_kids(nodes, visible, &nodes[i].children, 0, fuel - 1, acc);
            assert(oid_views(acc@) =~= a0 + below_spec(nodes@, visible, cur@, fuel as nat));
        },
    }
}

/// Append the commits of `below_kids_spec` to `acc`.
fn walk_kids(nodes: &Vec<SmartlogNode>, visible: bool, kids: &Vec<Oid>, j: usize, fuel: usize, acc: &mut Vec<Oid>)
    requires
        j <= kids@.len(),
    ensures
        oid_views(final(acc)@) == oid_views(old(acc)@) + below_kids_spec(
            nodes@,
            visible,
            oid_views(kids@),
            j as int,
            fuel as nat,
        ),
    decreases fuel, kids@.len() - j + 1,
{
    if j == kids.len() {
        assert(oid_views(acc@) =~= oid_views(acc@) + Seq::<Seq<u8>>::empty());
        return;
    }
    let ghost a0 = oid_views(acc@);
    walk_below(nodes, visible, kids[j], fuel, acc);
    let ghost a1 = oid_views(acc@);
    walk_kids(nodes, visible, kids, j + 1, fuel, acc);
    assert(oid_views(kids@)[j as int] == kids@[j as int]@);
    assert(oid_views(acc@) =~= a0 + below_kids_spec(nodes@, visible, oid_views(kids@), j as int, fuel as nat));
}

/// The members of `v` in order, each at its first place only.
pub fn keep_first_places(v: &Vec<Oid>) -> (r: Vec<Oid>)
    ensures
        oid_views(r@) == first_places(oid_views(v@)),
{
    let ghost vv = oid_views(v@);
    let mut r: Vec<Oid> = Vec::new();
    let mut i: usize = 0;
    assert(vv.take(0) =~= Seq::<Seq<u8>>::empty());
    assert(oid_views(r@) =~= Seq::<Seq<u8>>::empty());
    while i < v.len()
        invariant
            i <= v@.len(),
            vv == oid_views(v@),
            oid_views(r@) == first_places(vv.take(i as int)),
        decreases v@.len() - i,
    {
        assert(vv.take(i + 1).drop_last() =~= vv.take(i as int));
        assert(vv.take(i + 1).last() == v@[i as int]@);
        let x = v[i];
        let mut found = false;
        let mut k: usize = 0;
        while k < r.len()
            invariant
                k <= r@.len(),
                found == exists|m: int| 0 <= m < k && (#[trigger] r@[m])@ == x@,
            decreases r@.len() - k,
        {
            if r[k] == x {
                found = true;
            }
            k = k + 1;
        }
        proof {
            if found {
                let m = choose|m: int| 0 <= m < r@.len() && (#[trigger] r@[m])@ == x@;
                assert(oid_views(r@)[m] == x@);
            } else {
                assert forall|m: int| 0 <= m < oid_views(r@).len() implies oid_views(r@)[m] != x@ by {
                    assert(oid_views(r@)[m] == r@[m]@);
                }
            }
        }
        if !found {
            let ghost before = oid_views(r@);
            r.push(x);
            assert(oid_views(r@) =~= before.push(x@));
        }
        i = i + 1;
    }
    assert(vv.take(v@.len() as int) =~= vv);
    r
}

/// The commits that `hide --recursive` hides (`visible`) or `unhide
/// --recursive` unhides (not `visible`): the commits given and those below
/// them in the smartlog that are visible (respectively hidden), in
/// depth-first order, without repeats. Each given commit has a node.
pub fn recurse_on_commits(nodes: &Vec<SmartlogNode>, starts: &Vec<Oid>, visible: bool) -> (r: Vec<Oid>)
    requires
        forall|k: int| 0 <= k < starts@.len() ==> node_index(nodes@, #[trigger] starts@[k]@) is Some,
    ensures
        oid_views(r@) == recurse_spec(nodes@, visible, oid_views(starts@)),
{
    let fuel: usize = if nodes.len() < usize::MAX {
        nodes.len() + 1
    } else {
        usize::MAX
    };
    let mut all: Vec<Oid> = Vec::new();
    assert(oid_views(all@) =~= Seq::<Seq<u8>>::empty());
    walk_kids(nodes, visible, starts, 0, fuel, &mut all);
    assert(oid_views(all@) =~= below_kids_spec(nodes@, visible, oid_views(starts@), 0, below_fuel(nodes@)));
    keep_first_places(&all)
}

/// The walk from `cur`, reached along the drawn path `path`, goes as deep as
/// it gets when the depth covers every commit off the path.
proof fn lemma_below_fuel(nodes: Seq<SmartlogNode>, visible: bool, cur: Seq<u8>, path: Seq<Seq<u8>>, f: nat, h: nat)
    requires
        no_commit_below_itself(nodes),
        is_drawn_path(nodes, path.push(cur)),
        f >= node_oids(nodes).difference(path.to_set()).len() + 1,
        h >= f,
    ensures
        below_spec(nodes, visible, cur, f) == below_spec(nodes, visible, cur, h),
    decreases f, 0int,
{
    if let Some(i) = node_index(nodes, cur) {
        let w = path.push(cur);
        lemma_node_index(nodes, cur);
        assert(nodes.map_values(|n: SmartlogNode| n.oid@)[i] == cur);
        assert(node_oids(nodes).contains(cur));
        assert(!path.contains(cur)) by {
            if path.contains(cur) {
                let k = choose|k: int| 0 <= k < path.len() && path[k] == cur;
                let c = w.subrange(k, w.len() as int);
                assert forall|a: int| 0 <= a < c.len() - 1 implies #[trigger] drawn_below(nodes, c[a], c[a + 1]) by {
                    assert(c[a] == w[k + a]);
                    assert(c[a + 1] == w[k + a + 1]);
                }
                assert(is_drawn_path(nodes, c));
                assert(c[0] == cur);
                assert(c.last() == cur);
            }
        }
        lemma_visit_one(node_oids(nodes), path, cur);
        let kids = oid_views(nodes[i].children@);
        assert forall|j: int| 0 <= j < kids.len() implies #[trigger] drawn_below(nodes, w.last(), kids[j]) by {
            assert(kids.contains(kids[j]));
        }
        lemma_below_kids_fuel(nodes, visible, kids, 0, w, (f - 1) as nat, (h - 1) as nat);
    }
}

/// The walks from the children `kids[j..]` of the last commit of the drawn
/// path `path`, as `lemma_below_fuel` for one.
proof fn lemma_below_kids_fuel(
    nodes: Seq<SmartlogNode>,
    visible: bool,
    kids: Seq<Seq<u8>>,
    j: int,
    path: Seq<Seq<u8>>,
    f: nat,
    h: nat,
)
    requires
        no_commit_below_itself(nodes),
        is_drawn_path(nodes, path),
        forall|k: int| 0 <= k < kids.len() ==> #[trigger] drawn_below(nodes, path.last(), kids[k]),
        f >= node_oids(nodes).difference(path.to_set()).len() + 1,
        h >= f,
    ensures
        below_kids_spec(nodes, visible, kids, j, f) == below_kids_spec(nodes, visible, kids, j, h),
    decreases f, kids.len() - j + 1,
{
    if 0 <= j < kids.len() {
        lemma_below_kids_fuel(nodes, visible, kids, j + 1, path, f, h);
        let w = path.push(kids[j]);
        assert(drawn_below(nodes, path.last(), kids[j]));
        assert forall|a: int| 0 <= a < w.len() - 1 implies #[trigger] drawn_below(nodes, w[a], w[a + 1]) by {
            if a < path.len() - 1 {
                assert(w[a] == path[a] && w[a + 1] == path[a + 1]);
            } else {
                assert(w[a] == path.last() && w[a + 1] == kids[j]);
            }
        }
        lemma_below_fuel(nodes, visible, kids[j], path, f, h);
    }
}

/// The recursive walk goes deep enough: where no commit is drawn below
/// itself (and there are fewer nodes than a `usize` counts), walking deeper
/// finds the same commits.
pub proof fn lemma_recursion_deep_enough(nodes: Seq<SmartlogNode>, visible: bool, starts: Seq<Seq<u8>>, h: nat)
    requires
        no_commit_below_itself(nodes),
        nodes.len() < usize::MAX,
        h >= below_fuel(nodes),
    ensures
        first_places(below_kids_spec(nodes, visible, starts, 0, h)) == recurse_spec(nodes, visible, starts),
{
    nodes.map_values(|n: SmartlogNode| n.oid@).lemma_cardinality_of_set();
    let empty = Seq::<Seq<u8>>::empty();
    assert(empty.to_set() =~= Set::<Seq<u8>>::empty());
    assert(node_oids(nodes).difference(empty.to_set()) =~= node_oids(nodes));
    lemma_starts_fuel(nodes, visible, starts, 0, below_fuel(nodes), h);
}

/// The walks from each of `starts[j..]`, as `lemma_below_fuel` for one.
proof fn lemma_starts_fuel(nodes: Seq<SmartlogNode>, visible: bool, starts: Seq<Seq<u8>>, j: int, f: nat, h: nat)
    requires
        no_commit_below_itself(nodes),
        f >= node_oids(nodes).len() + 1,
        h >= f,
    ensures
        below_kids_spec(nodes, visible, starts, j, f) == below_kids_spec(nodes, visible, starts, j, h),
    decreases starts.len() - j,
{
    if 0 <= j < starts.len() {
        let empty = Seq::<Seq<u8>>::empty();
        assert(empty.to_set() =~= Set::<Seq<u8>>::empty());
        assert(node_oids(nodes).difference(empty.to_set()) =~= node_oids(nodes));
        assert(is_drawn_path(nodes, empty.push(starts[j])));
        lemma_below_fuel(nodes, visible, starts[j], empty, f, h);
        lemma_starts_fuel(nodes, visible, starts, j + 1, f, h);
    }
}

} // verus!
