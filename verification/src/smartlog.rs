//! Drawing the smartlog: the commits that the user works on, as a tree
//! under the main branch, one line per commit with lines connecting them;
//! which commits are drawn under which, and in what order the roots come.

use vstd::prelude::*;

use crate::formatting::Glyphs;
use crate::hooks::oid_pairs_view;
use crate::oid::{oid_lt, Oid};
use crate::eventlog::opt_oid_view;
use crate::plan::{contains_oid, lemma_visit_one, oids_view};

verus! {

/// A commit of the smartlog, with what the drawing needs of it.
#[derive(Debug)]
pub struct SmartlogNode {
    /// The commit.
    pub oid: Oid,
    /// The commit's parents in the repository.
    pub parent_oids: Vec<Oid>,
    /// The commit's children in the smartlog.
    pub children: Vec<Oid>,
    /// Whether the commit is on the main branch.
    pub is_main: bool,
    /// Whether the commit is visible (not hidden).
    pub is_visible: bool,
    /// When the commit was made, in seconds since the Unix epoch.
    pub time: i64,
    /// The description of the commit (hash, branches, message, ...).
    pub text: String,
}

/// The glyph that stands for a commit.
pub open spec fn cursor_spec(g: Glyphs, is_main: bool, is_visible: bool, is_head: bool) -> Seq<char> {
    match (is_main, is_visible, is_head) {
        (false, false, false) => g.commit_hidden@,
        (false, false, true) => g.commit_hidden_head@,
        (false, true, false) => g.commit_visible@,
        (false, true, true) => g.commit_visible_head@,
        (true, false, false) => g.commit_main_hidden@,
        (true, false, true) => g.commit_main_hidden_head@,
        (true, true, false) => g.commit_main@,
        (true, true, true) => g.commit_main_head@,
    }
}

/// The glyph that stands for a commit: whether it is on the main branch,
/// whether it is visible, and whether it is checked out.
pub fn commit_cursor(glyphs: &Glyphs, is_main: bool, is_visible: bool, is_head: bool) -> (r: &'static str)
    ensures
        r@ == cursor_spec(*glyphs, is_main, is_visible, is_head),
{
    match (is_main, is_visible, is_head) {
        (false, false, false) => glyphs.commit_hidden,
        (false, false, true) => glyphs.commit_hidden_head,
        (false, true, false) => glyphs.commit_visible,
        (false, true, true) => glyphs.commit_visible_head,
        (true, false, false) => glyphs.commit_main_hidden,
        (true, false, true) => glyphs.commit_main_hidden_head,
        (true, true, false) => glyphs.commit_main,
        (true, true, true) => glyphs.commit_main_head,
    }
}

/// The position of the first node for `oid`.
pub open spec fn node_index(nodes: Seq<SmartlogNode>, oid: Seq<u8>) -> Option<int>
    decreases nodes.len(),
{
    if nodes.len() == 0 {
        None
    } else if nodes[0].oid@ == oid {
        Some(0)
    } else {
        match node_index(nodes.drop_first(), oid) {
            Some(i) => Some(i + 1),
            None => None,
        }
    }
}

/// The position of the first node for `oid`.
pub(crate) fn find_node(nodes: &Vec<SmartlogNode>, oid: Oid) -> (r: Option<usize>)
    ensures
        r matches Some(k) ==> node_index(nodes@, oid@) == Some(k as int) && k < nodes@.len() && nodes@[k as int].oid@
            == oid@,
        r is None ==> node_index(nodes@, oid@) is None,
{
    let mut i: usize = 0;
    assert(nodes@.skip(0) =~= nodes@);
    while i < nodes.len()
        invariant
            i <= nodes@.len(),
            node_index(nodes@, oid@) == match node_index(nodes@.skip(i as int), oid@) {
                Some(k) => Some(k + i),
                None => None,
            },
        decreases nodes@.len() - i,
    {
        assert(nodes@.skip(i as int)[0] == nodes@[i as int]);
        if nodes[i].oid == oid {
            return Some(i);
        }
        assert(nodes@.skip(i as int).drop_first() =~= nodes@.skip(i + 1));
        i = i + 1;
    }
    None
}

/// A text in bold, with the terminal's escape codes, if `bold`.
pub open spec fn bold_spec(s: Seq<char>, bold: bool) -> Seq<char> {
    if bold {
        "\u{1b}[1m"@ + s + "\u{1b}[0m"@
    } else {
        s
    }
}

/// The commits among `oids` that have a node, in order.
pub open spec fn in_graph(nodes: Seq<SmartlogNode>, oids: Seq<Seq<u8>>) -> Seq<Seq<u8>>
    decreases oids.len(),
{
    if oids.len() == 0 {
        Seq::empty()
    } else if node_index(nodes, oids.last()) is Some {
        in_graph(nodes, oids.drop_last()).push(oids.last())
    } else {
        in_graph(nodes, oids.drop_last())
    }
}

/// The commit time of the node for `oid`.
pub open spec fn time_of(nodes: Seq<SmartlogNode>, oid: Seq<u8>) -> i64 {
    match node_index(nodes, oid) {
        Some(i) => nodes[i].time,
        None => 0,
    }
}

/// The commits `s` with `x` inserted after every commit that is not
/// younger than it (`s` being sorted by commit time).
pub open spec fn insert_by_time(nodes: Seq<SmartlogNode>, s: Seq<Seq<u8>>, x: Seq<u8>) -> Seq<Seq<u8>>
    decreases s.len(),
{
    if s.len() == 0 {
        seq![x]
    } else if time_of(nodes, s.last()) <= time_of(nodes, x) {
        s.push(x)
    } else {
        insert_by_time(nodes, s.drop_last(), x).push(s.last())
    }
}

/// The commits `oids` sorted by commit time, oldest first; commits made at
/// the same time keep their order.
pub open spec fn sort_by_time(nodes: Seq<SmartlogNode>, oids: Seq<Seq<u8>>) -> Seq<Seq<u8>>
    decreases oids.len(),
{
    if oids.len() == 0 {
        Seq::empty()
    } else {
        insert_by_time(nodes, sort_by_time(nodes, oids.drop_last()), oids.last())
    }
}

/// The views of object IDs.
pub open spec fn oid_views(v: Seq<Oid>) -> Seq<Seq<u8>> {
    v.map_values(|o: Oid| o@)
}

/// Insert `x` after every commit in `v` that is not younger than it.
fn insert_sorted_by_time(nodes: &Vec<SmartlogNode>, v: &mut Vec<Oid>, x: Oid, x_time: i64)
    requires
        x_time == time_of(nodes@, x@),
    ensures
        oid_views(final(v)@) == insert_by_time(nodes@, oid_views(old(v)@), x@),
{
    let ghost ov = oid_views(v@);
    let mut i: usize = v.len();
    assert(ov.take(i as int) =~= ov);
    assert(ov.skip(i as int) =~= Seq::<Seq<u8>>::empty());
    while i > 0
        invariant
            i <= v@.len(),
            oid_views(v@) == ov,
            x_time == time_of(nodes@, x@),
            insert_by_time(nodes@, ov, x@) == insert_by_time(nodes@, ov.take(i as int), x@) + ov.skip(i as int),
        ensures
            i <= v@.len(),
            oid_views(v@) == ov,
            insert_by_time(nodes@, ov, x@) == insert_by_time(nodes@, ov.take(i as int), x@) + ov.skip(i as int),
            i > 0 ==> time_of(nodes@, ov[i - 1]) <= x_time,
        decreases i,
    {
        let t = match find_node(nodes, v[i - 1]) {
            Some(k) => {
                assert(node_index(nodes@, v@[i - 1]@) == Some(k as int));
                nodes[k].time
            },
            None => 0,
        };
        assert(ov.take(i as int).last() == v@[i - 1]@);
        assert(t == time_of(nodes@, ov.take(i as int).last()));
        if t <= x_time {
            break;
        }
        assert(ov.take(i as int).drop_last() =~= ov.take(i - 1));
        assert(ov.take(i - 1).len() == i - 1);
        assert(insert_by_time(nodes@, ov.take(i - 1), x@).push(ov[i - 1]) + ov.skip(i as int) =~= insert_by_time(
            nodes@,
            ov.take(i - 1),
            x@,
        ) + ov.skip(i - 1));
        i = i - 1;
    }
    proof {
        if i > 0 {
            assert(insert_by_time(nodes@, ov.take(i as int), x@) == ov.take(i as int).push(x@));
        } else {
            assert(ov.take(0) =~= Seq::<Seq<u8>>::empty());
            assert(insert_by_time(nodes@, ov.take(0), x@) == seq![x@]);
        }
    }
    v.insert(i, x);
    assert(oid_views(v@) =~= ov.take(i as int).push(x@) + ov.skip(i as int));
}

/// The children of a node that have nodes themselves, sorted by commit
/// time, oldest first.
pub fn sorted_children(nodes: &Vec<SmartlogNode>, children: &Vec<Oid>) -> (r: Vec<Oid>)
    ensures
        oid_views(r@) == sort_by_time(nodes@, in_graph(nodes@, oid_views(children@))),
{
    let ghost cv = oid_views(children@);
    let mut sorted: Vec<Oid> = Vec::new();
    let mut i: usize = 0;
    assert(cv.take(0) =~= Seq::<Seq<u8>>::empty());
    assert(oid_views(sorted@) =~= Seq::<Seq<u8>>::empty());
    while i < children.len()
        invariant
            i <= children@.len(),
            cv == oid_views(children@),
            oid_views(sorted@) == sort_by_time(nodes@, in_graph(nodes@, cv.take(i as int))),
        decreases children@.len() - i,
    {
        let c = children[i];
        assert(cv.take(i + 1).drop_last() =~= cv.take(i as int));
        assert(cv.take(i + 1).last() == c@);
        match find_node(nodes, c) {
            Some(k) => {
                assert(node_index(nodes@, c@) == Some(k as int));
                let t = nodes[k].time;
                let ghost filtered = in_graph(nodes@, cv.take(i as int));
                assert(in_graph(nodes@, cv.take(i + 1)) == filtered.push(c@));
                assert(filtered.push(c@).drop_last() =~= filtered);
                insert_sorted_by_time(nodes, &mut sorted, c, t);
            },
            None => {},
        }
        i = i + 1;
    }
    assert(cv.take(children@.len() as int) =~= cv);
    sorted
}

/// The line of a commit: its glyph and its description, both in bold if
/// the commit is checked out and `bold` is asked for.
pub open spec fn commit_line_spec(g: Glyphs, node: SmartlogNode, is_head: bool, bold: bool) -> Seq<char> {
    let cursor = cursor_spec(g, node.is_main, node.is_visible, is_head);
    if is_head {
        bold_spec(cursor, bold) + " "@ + bold_spec(node.text@, bold)
    } else {
        cursor + " "@ + node.text@
    }
}

/// What the smartlog draws: the glyphs, the nodes, the roots (drawn apart,
/// not under their parents), the checked-out commit, and whether to use
/// bold.
pub struct Drawing {
    pub glyphs: Glyphs,
    pub nodes: Seq<SmartlogNode>,
    pub roots: Seq<Seq<u8>>,
    pub head: Option<Seq<u8>>,
    pub bold: bool,
}

/// The line in front of a child of a node and in front of the child's own
/// lines: the last child goes on the line of the node (or branches off it
/// if `last`, the line that continues below, is given); the others branch
/// off.
pub open spec fn connector_spec(g: Glyphs, is_last: bool, last: Option<Seq<char>>) -> Seq<char> {
    if is_last && last is None {
        g.line@
    } else {
        g.line_with_offshoot@ + g.slash@
    }
}

/// A line of a child's drawing, moved right under its parent.
pub open spec fn indent_spec(g: Glyphs, is_last: bool, last: Option<Seq<char>>, l: Seq<char>) -> Seq<char> {
    if is_last {
        match last {
            Some(c) => c + " "@ + l,
            None => l,
        }
    } else {
        g.line@ + " "@ + l
    }
}

/// The drawing of commit `cur` and what is under it; `last` is the line
/// that continues below it, if any. At most `fuel` commits deep.
pub open spec fn child_output_spec(d: Drawing, cur: Seq<u8>, last: Option<Seq<char>>, fuel: nat) -> Seq<Seq<char>>
    decreases fuel, 0int,
{
    if fuel == 0 {
        Seq::empty()
    } else {
        match node_index(d.nodes, cur) {
            None => Seq::empty(),
            Some(i) => {
                let node = d.nodes[i];
                let first = commit_line_spec(d.glyphs, node, d.head == Some(node.oid@), d.bold);
                let kids = sort_by_time(d.nodes, in_graph(d.nodes, oid_views(node.children@)));
                seq![first] + kids_output_spec(d, kids, 0, last, (fuel - 1) as nat)
            },
        }
    }
}

/// The drawings of the children `kids[j..]`, each under its connector;
/// children that are roots are drawn elsewhere.
pub open spec fn kids_output_spec(
    d: Drawing,
    kids: Seq<Seq<u8>>,
    j: int,
    last: Option<Seq<char>>,
    fuel: nat,
) -> Seq<Seq<char>>
    decreases fuel, kids.len() - j + 1,
{
    if j < 0 || j >= kids.len() {
        Seq::empty()
    } else {
        let rest = kids_output_spec(d, kids, j + 1, last, fuel);
        if d.roots.contains(kids[j]) {
            rest
        } else {
            let is_last = j == kids.len() - 1;
            let lines = child_output_spec(d, kids[j], None, fuel);
            seq![connector_spec(d.glyphs, is_last, last)] + lines.map_values(
                |l: Seq<char>| indent_spec(d.glyphs, is_last, last, l),
            ) + rest
        }
    }
}

/// A text in bold, if asked for.
fn bold_text(s: &str, bold: bool) -> (r: String)
    ensures
        r@ == bold_spec(s@, bold),
{
    if bold {
        let mut r = "\u{1b}[1m".to_owned();
        r.append(s);
        r.append("\u{1b}[0m");
        r
    } else {
        s.to_owned()
    }
}

/// Whether `v` holds `oid`.
fn holds_oid(v: &[Oid], oid: Oid) -> (r: bool)
    ensures
        r == oid_views(v@).contains(oid@),
{
    let ghost vv = oid_views(v@);
    let mut i: usize = 0;
    while i < v.len()
        invariant
            i <= v@.len(),
            vv == oid_views(v@),
            forall|k: int| 0 <= k < i ==> vv[k] != oid@,
        decreases v@.len() - i,
    {
        assert(vv[i as int] == v@[i as int]@);
        if v[i] == oid {
            return true;
        }
        i = i + 1;
    }
    false
}

/// The drawing of commit `cur` and what is under it.
fn get_child_output(
    glyphs: &Glyphs,
    nodes: &Vec<SmartlogNode>,
    roots: &[Oid],
    head: Option<Oid>,
    bold: bool,
    cur: Oid,
    last: Option<&str>,
    fuel: usize,
) -> (r: Vec<String>)
    ensures
        r@.map_values(|s: String| s@) == child_output_spec(
            Drawing {
                glyphs: *glyphs,
                nodes: nodes@,
                roots: oid_views(roots@),
                head: match head {
                    Some(h) => Some(h@),
                    None => None,
                },
                bold,
            },
            cur@,
            match last {
                Some(c) => Some(c@),
                None => None,
            },
            fuel as nat,
        ),
    decreases fuel,
{
    let ghost d = Drawing {
        glyphs: *glyphs,
        nodes: nodes@,
        roots: oid_views(roots@),
        head: match head {
            Some(h) => Some(h@),
            None => None,
        },
        bold,
    };
    let ghost lastv = match last {
        Some(c) => Some(c@),
        None => None,
    };
    let mut lines: Vec<String> = Vec::new();
    if fuel == 0 {
        assert(lines@.map_values(|s: String| s@) =~= Seq::<Seq<char>>::empty());
        return lines;
    }
    let i = match find_node(nodes, cur) {
        Some(i) => i,
        None => {
            assert(lines@.map_values(|s: String| s@) =~= Seq::<Seq<char>>::empty());
            return lines;
        },
    };
    let node = &nodes[i];
    let is_head = match head {
        Some(h) => h == node.oid,
        None => false,
    };
    assert(is_head == (d.head == Some(node.oid@)));
    let cursor = commit_cursor(glyphs, node.is_main, node.is_visible, is_head);
    let first = if is_head {
        let mut f = bold_text(cursor, bold);
        f.append(" ");
        f.append(bold_text(node.text.as_str(), bold).as_str());
        f
    } else {
        let mut f = cursor.to_owned();
        f.append(" ");
        f.append(node.text.as_str());
        f
    };
    assert(first@ == commit_line_spec(*glyphs, *node, is_head, bold));
    lines.push(first);
    let kids = sorted_children(nodes, &node.children);
    let ghost kv = oid_views(kids@);
    assert(lines@.map_values(|s: String| s@) =~= seq![first@]);
    let mut j: usize = 0;
    while j < kids.len()
        invariant
            j <= kids@.len(),
            kv == oid_views(kids@),
            0 < fuel,
            d == (Drawing {
                glyphs: *glyphs,
                nodes: nodes@,
                roots: oid_views(roots@),
                head: match head {
                    Some(h) => Some(h@),
                    None => None,
                },
                bold,
            }),
            lastv == match last {
                Some(c) => Some(c@),
                None => None::<Seq<char>>,
            },
            seq![first@] + kids_output_spec(d, kv, 0, lastv, (fuel - 1) as nat) == lines@.map_values(
                |s: String| s@,
            ) + kids_output_spec(d, kv, j as int, lastv, (fuel - 1) as nat),
        decreases kids@.len() - j,
    {
        let kid = kids[j];
        assert(kv[j as int] == kid@);
        let ghost rest = kids_output_spec(d, kv, j + 1, lastv, (fuel - 1) as nat);
        if holds_oid(roots, kid) {
            j = j + 1;
            continue;
        }
        let is_last = j == kids.len() - 1;
        let connector = if is_last && last.is_none() {
            glyphs.line.to_owned()
        } else {
            let mut c = glyphs.line_with_offshoot.to_owned();
            c.append(glyphs.slash);
            c
        };
        assert(connector@ == connector_spec(*glyphs, is_last, lastv));
        let ghost before = lines@.map_values(|s: String| s@);
        lines.push(connector);
        let child_lines = get_child_output(glyphs, nodes, roots, head, bold, kid, None, fuel - 1);
        let ghost cl = child_lines@.map_values(|s: String| s@);
        let ghost mid = lines@.map_values(|s: String| s@);
        assert(mid =~= before.push(connector@));
        let mut k: usize = 0;
        while k < child_lines.len()
            invariant
                k <= child_lines@.len(),
                cl == child_lines@.map_values(|s: String| s@),
                lines@.map_values(|s: String| s@) == mid + cl.take(k as int).map_values(
                    |l: Seq<char>| indent_spec(*glyphs, is_last, lastv, l),
                ),
                lastv == match last {
                    Some(c) => Some(c@),
                    None => None::<Seq<char>>,
                },
            decreases child_lines@.len() - k,
        {
            let line = &child_lines[k];
            let indented = if is_last {
                match last {
                    Some(c) => {
                        let mut s = c.to_owned();
                        s.append(" ");
                        s.append(line.as_str());
                        s
                    },
                    None => line.clone(),
                }
            } else {
                let mut s = glyphs.line.to_owned();
                s.append(" ");
                s.append(line.as_str());
                s
            };
            assert(indented@ == indent_spec(*glyphs, is_last, lastv, cl[k as int]));
            let ghost prev = lines@.map_values(|s: String| s@);
            lines.push(indented);
            assert(lines@.map_values(|s: String| s@) =~= prev.push(indented@));
            assert(cl.take(k + 1).map_values(|l: Seq<char>| indent_spec(*glyphs, is_last, lastv, l)) =~= cl.take(
                k as int,
            ).map_values(|l: Seq<char>| indent_spec(*glyphs, is_last, lastv, l)).push(indented@));
            k = k + 1;
        }
        assert(cl.take(child_lines@.len() as int) =~= cl);
        assert(lines@.map_values(|s: String| s@) + rest =~= before + (seq![connector@] + cl.map_values(
            |l: Seq<char>| indent_spec(*glyphs, is_last, lastv, l),
        ) + rest));
        j = j + 1;
    }
    assert(lines@.map_values(|s: String| s@) + kids_output_spec(d, kv, j as int, lastv, (fuel - 1) as nat)
        =~= lines@.map_values(|s: String| s@));
    lines
}

/// Whether the commit of the node for `oid` has `parent` as a parent in
/// the repository.
pub open spec fn has_real_parent(nodes: Seq<SmartlogNode>, oid: Seq<u8>, parent: Seq<u8>) -> bool {
    match node_index(nodes, oid) {
        Some(i) => oid_views(nodes[i].parent_oids@).contains(parent),
        None => false,
    }
}

/// The drawing of the roots `d.roots[idx..]`, each under a line that joins
/// it to the root before it (or dots, where commits in between are left
/// out, or an empty line between unrelated roots).
pub open spec fn output_spec(d: Drawing, idx: int, fuel: nat) -> Seq<Seq<char>>
    decreases d.roots.len() - idx,
{
    if idx < 0 || idx >= d.roots.len() {
        Seq::empty()
    } else {
        let root = d.roots[idx];
        let node = d.nodes[node_index(d.nodes, root)->0];
        let sep: Seq<Seq<char>> = if node.parent_oids@.len() > 0 {
            seq![
                if idx > 0 && has_real_parent(d.nodes, root, d.roots[idx - 1]) {
                    d.glyphs.line@
                } else {
                    d.glyphs.vertical_ellipsis@
                },
            ]
        } else if idx > 0 {
            seq![Seq::<char>::empty()]
        } else {
            Seq::empty()
        };
        let last = if idx == d.roots.len() - 1 {
            None
        } else if has_real_parent(d.nodes, d.roots[idx + 1], root) {
            Some(d.glyphs.line@)
        } else {
            Some(d.glyphs.vertical_ellipsis@)
        };
        sep + child_output_spec(d, root, last, fuel) + output_spec(d, idx + 1, fuel)
    }
}

/// How deep the drawing may go: one more than the number of nodes (a tree
/// is no deeper), as far as a `usize` counts.
pub open spec fn smartlog_fuel(nodes: Seq<SmartlogNode>) -> nat {
    if nodes.len() < usize::MAX {
        (nodes.len() + 1) as nat
    } else {
        usize::MAX as nat
    }
}

/// Whether the commit of the node for `oid` has `parent` as a parent.
fn real_parent(nodes: &Vec<SmartlogNode>, oid: Oid, parent: Oid) -> (r: bool)
    ensures
        r == has_real_parent(nodes@, oid@, parent@),
{
    match find_node(nodes, oid) {
        Some(i) => holds_oid(nodes[i].parent_oids.as_slice(), parent),
        None => false,
    }
}

/// Draw the smartlog: the roots `roots` in order (the topologically
/// earliest first), each with the commits under it; `head` is the
/// checked-out commit.
pub fn get_output(glyphs: &Glyphs, nodes: &Vec<SmartlogNode>, head: Option<Oid>, bold: bool, roots: &[Oid]) -> (r: Vec<
    String,
>)
    requires
        forall|k: int| 0 <= k < roots@.len() ==> node_index(nodes@, #[trigger] roots@[k]@) is Some,
    ensures
        r@.map_values(|s: String| s@) == output_spec(
            Drawing {
                glyphs: *glyphs,
                nodes: nodes@,
                roots: oid_views(roots@),
                head: match head {
                    Some(h) => Some(h@),
                    None => None,
                },
                bold,
            },
            0,
            smartlog_fuel(nodes@),
        ),
{
    let ghost d = Drawing {
        glyphs: *glyphs,
        nodes: nodes@,
        roots: oid_views(roots@),
        head: match head {
            Some(h) => Some(h@),
            None => None,
        },
        bold,
    };
    let fuel: usize = if nodes.len() < usize::MAX {
        nodes.len() + 1
    } else {
        usize::MAX
    };
    let mut lines: Vec<String> = Vec::new();
    let mut idx: usize = 0;
    assert(lines@.map_values(|s: String| s@) + output_spec(d, 0, fuel as nat) =~= output_spec(d, 0, fuel as nat));
    while idx < roots.len()
        invariant
            idx <= roots@.len(),
            fuel == smartlog_fuel(nodes@),
            forall|k: int| 0 <= k < roots@.len() ==> node_index(nodes@, #[trigger] roots@[k]@) is Some,
            d == (Drawing {
                glyphs: *glyphs,
                nodes: nodes@,
                roots: oid_views(roots@),
                head: match head {
                    Some(h) => Some(h@),
                    None => None,
                },
                bold,
            }),
            output_spec(d, 0, fuel as nat) == lines@.map_values(|s: String| s@) + output_spec(
                d,
                idx as int,
                fuel as nat,
            ),
        decreases roots@.len() - idx,
    {
        let root = roots[idx];
        assert(d.roots[idx as int] == root@);
        assert(node_index(nodes@, roots@[idx as int]@) is Some);
        let i = match find_node(nodes, root) {
            Some(i) => i,
            None => {
                return lines;
            },
        };
        let ghost before = lines@.map_values(|s: String| s@);
        let ghost sep: Seq<Seq<char>>;
        if nodes[i].parent_oids.len() > 0 {
            let joined = idx > 0 && real_parent(nodes, root, roots[idx - 1]);
            if idx > 0 {
                assert(d.roots[idx - 1] == roots@[idx - 1]@);
            }
            let s = if joined {
                glyphs.line.to_owned()
            } else {
                glyphs.vertical_ellipsis.to_owned()
            };
            proof {
                sep = seq![s@];
            }
            lines.push(s);
        } else if idx > 0 {
            let s = String::new();
            proof {
                sep = seq![s@];
            }
            lines.push(s);
        } else {
            proof {
                sep = Seq::empty();
            }
        }
        assert(lines@.map_values(|s: String| s@) =~= before + sep);
        let last: Option<&str> = if idx == roots.len() - 1 {
            None
        } else if real_parent(nodes, roots[idx + 1], root) {
            Some(glyphs.line)
        } else {
            Some(glyphs.vertical_ellipsis)
        };
        if idx + 1 < roots.len() {
            assert(d.roots[idx + 1] == roots@[idx + 1]@);
        }
        let child = get_child_output(glyphs, nodes, roots, head, bold, root, last, fuel);
        let ghost cl = child@.map_values(|s: String| s@);
        let ghost mid = lines@.map_values(|s: String| s@);
        let mut k: usize = 0;
        while k < child.len()
            invariant
                k <= child@.len(),
                cl == child@.map_values(|s: String| s@),
                lines@.map_values(|s: String| s@) == mid + cl.take(k as int),
            decreases child@.len() - k,
        {
            let ghost prev = lines@.map_values(|s: String| s@);
            lines.push(child[k].clone());
            assert(lines@.map_values(|s: String| s@) =~= prev.push(cl[k as int]));
            assert(cl.take(k + 1) =~= cl.take(k as int).push(cl[k as int]));
            k = k + 1;
        }
        assert(cl.take(child@.len() as int) =~= cl);
        assert(lines@.map_values(|s: String| s@) + output_spec(d, idx + 1, fuel as nat) =~= before + (sep + cl
            + output_spec(d, idx + 1, fuel as nat)));
        idx = idx + 1;
    }
    assert(lines@.map_values(|s: String| s@) + output_spec(d, idx as int, fuel as nat) =~= lines@.map_values(
        |s: String| s@,
    ));
    lines
}

/// The commits drawn under `oid`: those of the nodes, in order, that are
/// off the main branch and have `oid` as a parent.
pub open spec fn graph_children(nodes: Seq<SmartlogNode>, oid: Seq<u8>) -> Seq<Seq<u8>>
    decreases nodes.len(),
{
    if nodes.len() == 0 {
        Seq::empty()
    } else {
        let n = nodes.last();
        let rest = graph_children(nodes.drop_last(), oid);
        if !n.is_main && oid_views(n.parent_oids@).contains(oid) {
            rest.push(n.oid@)
        } else {
            rest
        }
    }
}

/// The commits drawn under `oid`.
fn children_in_graph(nodes: &Vec<SmartlogNode>, oid: Oid) -> (r: Vec<Oid>)
    ensures
        oid_views(r@) == graph_children(nodes@, oid@),
{
    let mut r: Vec<Oid> = Vec::new();
    let mut i: usize = 0;
    assert(nodes@.take(0) =~= Seq::<SmartlogNode>::empty());
    assert(oid_views(r@) =~= Seq::<Seq<u8>>::empty());
    while i < nodes.len()
        invariant
            i <= nodes@.len(),
            oid_views(r@) == graph_children(nodes@.take(i as int), oid@),
        decreases nodes@.len() - i,
    {
        assert(nodes@.take(i + 1).drop_last() =~= nodes@.take(i as int));
        assert(nodes@.take(i + 1).last() == nodes@[i as int]);
        if !nodes[i].is_main && holds_oid(nodes[i].parent_oids.as_slice(), oid) {
            let ghost before = oid_views(r@);
            r.push(nodes[i].oid);
            assert(oid_views(r@) =~= before.push(nodes@[i as int].oid@));
        }
        i = i + 1;
    }
    assert(nodes@.take(nodes@.len() as int) =~= nodes@);
    r
}

/// Link the nodes of the smartlog: each node gets as children the commits
/// drawn under it (those off the main branch that have it as a parent);
/// everything else stays.
pub fn link_children(nodes: Vec<SmartlogNode>) -> (r: Vec<SmartlogNode>)
    ensures
        r@.len() == nodes@.len(),
        forall|i: int|
            0 <= i < nodes@.len() ==> {
                &&& (#[trigger] r@[i]).oid == nodes@[i].oid
                &&& r@[i].parent_oids@ == nodes@[i].parent_oids@
                &&& r@[i].is_main == nodes@[i].is_main
                &&& r@[i].is_visible == nodes@[i].is_visible
                &&& r@[i].time == nodes@[i].time
                &&& r@[i].text@ == nodes@[i].text@
                &&& oid_views(r@[i].children@) == graph_children(nodes@, nodes@[i].oid@)
            },
{
    let ghost orig = nodes@;
    let mut lists: Vec<Vec<Oid>> = Vec::new();
    let mut i: usize = 0;
    while i < nodes.len()
        invariant
            i <= nodes@.len(),
            lists@.len() == i,
            forall|k: int| 0 <= k < i ==> oid_views((#[trigger] lists@[k])@) == graph_children(nodes@, nodes@[k].oid@),
        decreases nodes@.len() - i,
    {
        lists.push(children_in_graph(&nodes, nodes[i].oid));
        i = i + 1;
    }
    let mut rest = nodes;
    let mut r: Vec<SmartlogNode> = Vec::new();
    let mut j: usize = 0;
    while j < lists.len()
        invariant
            j <= lists@.len(),
            lists@.len() == orig.len(),
            rest@ == orig.skip(j as int),
            r@.len() == j,
            forall|k: int| 0 <= k < orig.len() ==> oid_views((#[trigger] lists@[k])@) == graph_children(orig, orig[k].oid@),
            forall|k: int|
                0 <= k < j ==> {
                    &&& (#[trigger] r@[k]).oid == orig[k].oid
                    &&& r@[k].parent_oids@ == orig[k].parent_oids@
                    &&& r@[k].is_main == orig[k].is_main
                    &&& r@[k].is_visible == orig[k].is_visible
                    &&& r@[k].time == orig[k].time
                    &&& r@[k].text@ == orig[k].text@
                    &&& oid_views(r@[k].children@) == graph_children(orig, orig[k].oid@)
                },
        decreases lists@.len() - j,
    {
        assert(rest@.len() > 0);
        let mut node = rest.remove(0);
        assert(node == orig[j as int]);
        assert(rest@ =~= orig.skip(j + 1));
        node.children = copy_oid_list(&lists[j]);
        r.push(node);
        j = j + 1;
    }
    r
}

/// A copy of a list of object IDs.
fn copy_oid_list(v: &Vec<Oid>) -> (r: Vec<Oid>)
    ensures
        r@ == v@,
{
    let mut r: Vec<Oid> = Vec::new();
    let mut i: usize = 0;
    while i < v.len()
        invariant
            i <= v@.len(),
            r@ == v@.take(i as int),
        decreases v@.len() - i,
    {
        r.push(v[i]);
        assert(r@ =~= v@.take(i + 1));
        i = i + 1;
    }
    assert(v@.take(v@.len() as int) =~= v@);
    r
}

/// Whether a node is drawn as a root: it is on the main branch, or none of
/// its parents has a node.
pub open spec fn is_graph_root(nodes: Seq<SmartlogNode>, n: SmartlogNode) -> bool {
    n.is_main || in_graph(nodes, oid_views(n.parent_oids@)).len() == 0
}

/// The commits of the first `m` nodes that are drawn as roots, in order.
pub open spec fn candidate_roots(nodes: Seq<SmartlogNode>, m: int) -> Seq<Seq<u8>>
    decreases m,
{
    if m <= 0 || m > nodes.len() {
        Seq::empty()
    } else if is_graph_root(nodes, nodes[m - 1]) {
        candidate_roots(nodes, m - 1).push(nodes[m - 1].oid@)
    } else {
        candidate_roots(nodes, m - 1)
    }
}

/// Whether none of `parents` has a node.
fn no_parent_in_graph(nodes: &Vec<SmartlogNode>, parents: &Vec<Oid>) -> (r: bool)
    ensures
        r == (in_graph(nodes@, oid_views(parents@)).len() == 0),
{
    let ghost pv = oid_views(parents@);
    let mut i: usize = 0;
    assert(pv.take(0) =~= Seq::<Seq<u8>>::empty());
    while i < parents.len()
        invariant
            i <= parents@.len(),
            pv == oid_views(parents@),
            in_graph(nodes@, pv.take(i as int)).len() == 0,
        decreases parents@.len() - i,
    {
        assert(pv.take(i + 1).drop_last() =~= pv.take(i as int));
        assert(pv.take(i + 1).last() == parents@[i as int]@);
        if find_node(nodes, parents[i]).is_some() {
            proof {
                assert(in_graph(nodes@, pv.take(i + 1)).len() > 0);
                lemma_in_graph_grows(nodes@, pv, (i + 1) as int);
            }
            return false;
        }
        i = i + 1;
    }
    assert(pv.take(parents@.len() as int) =~= pv);
    true
}

/// Keeping more commits keeps at least as many.
proof fn lemma_in_graph_grows(nodes: Seq<SmartlogNode>, oids: Seq<Seq<u8>>, m: int)
    requires
        0 <= m <= oids.len(),
    ensures
        in_graph(nodes, oids.take(m)).len() <= in_graph(nodes, oids).len(),
    decreases oids.len() - m,
{
    if m < oids.len() {
        lemma_in_graph_grows(nodes, oids, m + 1);
        assert(oids.take(m + 1).drop_last() =~= oids.take(m));
    } else {
        assert(oids.take(m) =~= oids);
    }
}

/// The commits drawn as roots, in node order: those on the main branch and
/// those none of whose parents has a node.
pub fn root_candidates(nodes: &Vec<SmartlogNode>) -> (r: Vec<Oid>)
    ensures
        oid_views(r@) == candidate_roots(nodes@, nodes@.len() as int),
{
    let mut r: Vec<Oid> = Vec::new();
    let mut i: usize = 0;
    assert(oid_views(r@) =~= Seq::<Seq<u8>>::empty());
    while i < nodes.len()
        invariant
            i <= nodes@.len(),
            oid_views(r@) == candidate_roots(nodes@, i as int),
        decreases nodes@.len() - i,
    {
        if nodes[i].is_main || no_parent_in_graph(nodes, &nodes[i].parent_oids) {
            let ghost before = oid_views(r@);
            r.push(nodes[i].oid);
            assert(oid_views(r@) =~= before.push(nodes@[i as int].oid@));
        }
        i = i + 1;
    }
    r
}

/// Whether root `l` is drawn before root `r`: `l` first if `r` descends
/// from it, `r` first if `l` descends from it; otherwise the older first,
/// and for the same time the smaller object ID. `descendants` holds pairs
/// of a commit and one of its ancestors.
pub open spec fn root_before(
    nodes: Seq<SmartlogNode>,
    descendants: Seq<(Seq<u8>, Seq<u8>)>,
    l: Seq<u8>,
    r: Seq<u8>,
) -> bool {
    if descendants.contains((r, l)) {
        true
    } else if descendants.contains((l, r)) {
        false
    } else if time_of(nodes, l) != time_of(nodes, r) {
        time_of(nodes, l) < time_of(nodes, r)
    } else {
        oid_lt(l, r)
    }
}

/// The roots `s` (in drawing order) with `x` inserted after every root that
/// it is not drawn before.
pub open spec fn insert_root(
    nodes: Seq<SmartlogNode>,
    descendants: Seq<(Seq<u8>, Seq<u8>)>,
    s: Seq<Seq<u8>>,
    x: Seq<u8>,
) -> Seq<Seq<u8>>
    decreases s.len(),
{
    if s.len() == 0 {
        seq![x]
    } else if !root_before(nodes, descendants, x, s.last()) {
        s.push(x)
    } else {
        insert_root(nodes, descendants, s.drop_last(), x).push(s.last())
    }
}

/// The roots `s` in drawing order, sorted one by one, keeping their order
/// where neither goes first.
pub open spec fn order_roots_spec(
    nodes: Seq<SmartlogNode>,
    descendants: Seq<(Seq<u8>, Seq<u8>)>,
    s: Seq<Seq<u8>>,
) -> Seq<Seq<u8>>
    decreases s.len(),
{
    if s.len() == 0 {
        Seq::empty()
    } else {
        insert_root(nodes, descendants, order_roots_spec(nodes, descendants, s.drop_last()), s.last())
    }
}

/// Whether `descendants` holds the pair `(a, b)`.
fn holds_pair(descendants: &[(Oid, Oid)], a: Oid, b: Oid) -> (r: bool)
    ensures
        r == oid_pairs_view(descendants@).contains((a@, b@)),
{
    let ghost pv = oid_pairs_view(descendants@);
    let mut i: usize = 0;
    while i < descendants.len()
        invariant
            i <= descendants@.len(),
            pv == oid_pairs_view(descendants@),
            forall|k: int| 0 <= k < i ==> pv[k] != (a@, b@),
        decreases descendants@.len() - i,
    {
        let (x, y) = descendants[i];
        assert(pv[i as int] == (x@, y@));
        if x == a && y == b {
            return true;
        }
        i = i + 1;
    }
    false
}

/// The commit time of the node for `oid`.
fn node_time(nodes: &Vec<SmartlogNode>, oid: Oid) -> (r: i64)
    ensures
        r == time_of(nodes@, oid@),
{
    match find_node(nodes, oid) {
        Some(k) => nodes[k].time,
        None => 0,
    }
}

/// Whether root `l` is drawn before root `r`.
fn root_goes_before(nodes: &Vec<SmartlogNode>, descendants: &[(Oid, Oid)], l: Oid, r: Oid) -> (b: bool)
    ensures
        b == root_before(nodes@, oid_pairs_view(descendants@), l@, r@),
{
    if holds_pair(descendants, r, l) {
        true
    } else if holds_pair(descendants, l, r) {
        false
    } else {
        let tl = node_time(nodes, l);
        let tr = node_time(nodes, r);
        if tl != tr {
            tl < tr
        } else {
            l.lt(&r)
        }
    }
}

/// Put the roots `candidates` in drawing order: ancestors before their
/// descendants, otherwise the older first (for the same time, the smaller
/// object ID). `descendants` holds the pairs of roots of which the first
/// descends from the second.
pub fn order_roots(nodes: &Vec<SmartlogNode>, candidates: &Vec<Oid>, descendants: &[(Oid, Oid)]) -> (r: Vec<Oid>)
    ensures
        oid_views(r@) == order_roots_spec(nodes@, oid_pairs_view(descendants@), oid_views(candidates@)),
{
    let ghost dv = oid_pairs_view(descendants@);
    let ghost cv = oid_views(candidates@);
    let mut sorted: Vec<Oid> = Vec::new();
    let mut i: usize = 0;
    assert(cv.take(0) =~= Seq::<Seq<u8>>::empty());
    assert(oid_views(sorted@) =~= Seq::<Seq<u8>>::empty());
    while i < candidates.len()
        invariant
            i <= candidates@.len(),
            cv == oid_views(candidates@),
            dv == oid_pairs_view(descendants@),
            oid_views(sorted@) == order_roots_spec(nodes@, dv, cv.take(i as int)),
        decreases candidates@.len() - i,
    {
        let x = candidates[i];
        assert(cv.take(i + 1).drop_last() =~= cv.take(i as int));
        assert(cv.take(i + 1).last() == x@);
        insert_root_exec(nodes, descendants, &mut sorted, x);
        i = i + 1;
    }
    assert(cv.take(candidates@.len() as int) =~= cv);
    sorted
}

/// Insert root `x` after every root of `v` that it is not drawn before.
fn insert_root_exec(nodes: &Vec<SmartlogNode>, descendants: &[(Oid, Oid)], v: &mut Vec<Oid>, x: Oid)
    ensures
        oid_views(final(v)@) == insert_root(nodes@, oid_pairs_view(descendants@), oid_views(old(v)@), x@),
{
    let ghost dv = oid_pairs_view(descendants@);
    let ghost ov = oid_views(v@);
    let mut i: usize = v.len();
    assert(ov.take(i as int) =~= ov);
    assert(ov.skip(i as int) =~= Seq::<Seq<u8>>::empty());
    while i > 0
        invariant
            i <= v@.len(),
            oid_views(v@) == ov,
            dv == oid_pairs_view(descendants@),
            insert_root(nodes@, dv, ov, x@) == insert_root(nodes@, dv, ov.take(i as int), x@) + ov.skip(i as int),
        ensures
            i <= v@.len(),
            oid_views(v@) == ov,
            insert_root(nodes@, dv, ov, x@) == insert_root(nodes@, dv, ov.take(i as int), x@) + ov.skip(i as int),
            i > 0 ==> !root_before(nodes@, dv, x@, ov[i - 1]),
        decreases i,
    {
        assert(ov.take(i as int).last() == v@[i - 1]@);
        if !root_goes_before(nodes, descendants, x, v[i - 1]) {
            break;
        }
        assert(ov.take(i as int).drop_last() =~= ov.take(i - 1));
        assert(insert_root(nodes@, dv, ov.take(i - 1), x@).push(ov[i - 1]) + ov.skip(i as int) =~= insert_root(
            nodes@,
            dv,
            ov.take(i - 1),
            x@,
        ) + ov.skip(i - 1));
        i = i - 1;
    }
    proof {
        if i > 0 {
            assert(insert_root(nodes@, dv, ov.take(i as int), x@) == ov.take(i as int).push(x@));
        } else {
            assert(ov.take(0) =~= Seq::<Seq<u8>>::empty());
            assert(insert_root(nodes@, dv, ov.take(0), x@) == seq![x@]);
        }
    }
    v.insert(i, x);
    assert(oid_views(v@) =~= ov.take(i as int).push(x@) + ov.skip(i as int));
}

/// Whether the smartlog draws `b` under `a`: `b` is a child of the node
/// for `a`.
pub open spec fn drawn_below(nodes: Seq<SmartlogNode>, a: Seq<u8>, b: Seq<u8>) -> bool {
    match node_index(nodes, a) {
        Some(i) => oid_views(nodes[i].children@).contains(b),
        None => false,
    }
}

/// Whether each commit of `w` is drawn below the one before it.
pub open spec fn is_drawn_path(nodes: Seq<SmartlogNode>, w: Seq<Seq<u8>>) -> bool {
    &&& w.len() > 0
    &&& forall|i: int| 0 <= i < w.len() - 1 ==> #[trigger] drawn_below(nodes, w[i], w[i + 1])
}

/// Whether no commit is drawn below itself, however far down.
pub open spec fn no_commit_below_itself(nodes: Seq<SmartlogNode>) -> bool {
    forall|w: Seq<Seq<u8>>| #[trigger] is_drawn_path(nodes, w) && w.len() > 1 ==> w[0] != w.last()
}

/// The commits that have nodes.
pub open spec fn node_oids(nodes: Seq<SmartlogNode>) -> Set<Seq<u8>> {
    nodes.map_values(|n: SmartlogNode| n.oid@).to_set()
}

/// The node found for a commit is the node of that commit.
pub(crate) proof fn lemma_node_index(nodes: Seq<SmartlogNode>, oid: Seq<u8>)
    requires
        node_index(nodes, oid) is Some,
    ensures
        0 <= node_index(nodes, oid)->0 < nodes.len(),
        nodes[node_index(nodes, oid)->0].oid@ == oid,
    decreases nodes.len(),
{
    if nodes[0].oid@ != oid {
        lemma_node_index(nodes.drop_first(), oid);
    }
}

/// The commits kept of `oids` are among `oids`.
proof fn lemma_in_graph_within(nodes: Seq<SmartlogNode>, oids: Seq<Seq<u8>>, x: Seq<u8>)
    requires
        in_graph(nodes, oids).contains(x),
    ensures
        oids.contains(x),
    decreases oids.len(),
{
    let r0 = in_graph(nodes, oids.drop_last());
    if r0.contains(x) {
        lemma_in_graph_within(nodes, oids.drop_last(), x);
        let k = choose|k: int| 0 <= k < oids.drop_last().len() && oids.drop_last()[k] == x;
        assert(oids[k] == x);
    } else {
        assert(x == oids.last());
        assert(oids[oids.len() - 1] == x);
    }
}

/// Inserting by time adds only the commit inserted.
proof fn lemma_insert_by_time_within(nodes: Seq<SmartlogNode>, s: Seq<Seq<u8>>, x: Seq<u8>, y: Seq<u8>)
    requires
        insert_by_time(nodes, s, x).contains(y),
    ensures
        y == x || s.contains(y),
    decreases s.len(),
{
    if s.len() > 0 {
        if time_of(nodes, s.last()) <= time_of(nodes, x) {
            let k = choose|k: int| 0 <= k < s.push(x).len() && s.push(x)[k] == y;
            if k < s.len() {
                assert(s[k] == y);
            }
        } else {
            let r0 = insert_by_time(nodes, s.drop_last(), x);
            if r0.contains(y) {
                lemma_insert_by_time_within(nodes, s.drop_last(), x, y);
                if y != x {
                    let k = choose|k: int| 0 <= k < s.drop_last().len() && s.drop_last()[k] == y;
                    assert(s[k] == y);
                }
            } else {
                let k = choose|k: int| 0 <= k < r0.push(s.last()).len() && r0.push(s.last())[k] == y;
                assert(k == r0.len());
                assert(s[s.len() - 1] == y);
            }
        }
    }
}

/// Sorting by time keeps only the commits sorted.
proof fn lemma_sort_by_time_within(nodes: Seq<SmartlogNode>, oids: Seq<Seq<u8>>, y: Seq<u8>)
    requires
        sort_by_time(nodes, oids).contains(y),
    ensures
        oids.contains(y),
    decreases oids.len(),
{
    lemma_insert_by_time_within(nodes, sort_by_time(nodes, oids.drop_last()), oids.last(), y);
    if y == oids.last() {
        assert(oids[oids.len() - 1] == y);
    } else {
        lemma_sort_by_time_within(nodes, oids.drop_last(), y);
        let k = choose|k: int| 0 <= k < oids.drop_last().len() && oids.drop_last()[k] == y;
        assert(oids[k] == y);
    }
}

/// The drawing of `cur`, reached along the drawn path `path`, is as deep
/// as it gets when the depth covers every commit off the path.
proof fn lemma_child_output_fuel(
    d: Drawing,
    cur: Seq<u8>,
    last: Option<Seq<char>>,
    path: Seq<Seq<u8>>,
    f: nat,
    h: nat,
)
    requires
        no_commit_below_itself(d.nodes),
        is_drawn_path(d.nodes, path.push(cur)),
        f >= node_oids(d.nodes).difference(path.to_set()).len() + 1,
        h >= f,
    ensures
        child_output_spec(d, cur, last, f) == child_output_spec(d, cur, last, h),
    decreases f, 0int,
{
    if let Some(i) = node_index(d.nodes, cur) {
        let w = path.push(cur);
        lemma_node_index(d.nodes, cur);
        assert(d.nodes.map_values(|n: SmartlogNode| n.oid@)[i] == cur);
        assert(node_oids(d.nodes).contains(cur));
        assert(!path.contains(cur)) by {
            if path.contains(cur) {
                let k = choose|k: int| 0 <= k < path.len() && path[k] == cur;
                let c = w.subrange(k, w.len() as int);
                assert forall|a: int| 0 <= a < c.len() - 1 implies #[trigger] drawn_below(d.nodes, c[a], c[a + 1]) by {
                    assert(c[a] == w[k + a]);
                    assert(c[a + 1] == w[k + a + 1]);
                }
                assert(is_drawn_path(d.nodes, c));
                assert(c[0] == cur);
                assert(c.last() == cur);
            }
        }
        lemma_visit_one(node_oids(d.nodes), path, cur);
        let node = d.nodes[i];
        let kids = sort_by_time(d.nodes, in_graph(d.nodes, oid_views(node.children@)));
        assert forall|j: int| 0 <= j < kids.len() implies #[trigger] drawn_below(d.nodes, w.last(), kids[j]) by {
            assert(kids.contains(kids[j]));
            lemma_sort_by_time_within(d.nodes, in_graph(d.nodes, oid_views(node.children@)), kids[j]);
            lemma_in_graph_within(d.nodes, oid_views(node.children@), kids[j]);
        }
        lemma_kids_output_fuel(d, kids, 0, last, w, (f - 1) as nat, (h - 1) as nat);
    }
}

/// The drawings of the children `kids[j..]` of the last commit of the
/// drawn path `path`, as `lemma_child_output_fuel` for one.
proof fn lemma_kids_output_fuel(
    d: Drawing,
    kids: Seq<Seq<u8>>,
    j: int,
    last: Option<Seq<char>>,
    path: Seq<Seq<u8>>,
    f: nat,
    h: nat,
)
    requires
        no_commit_below_itself(d.nodes),
        is_drawn_path(d.nodes, path),
        forall|k: int| 0 <= k < kids.len() ==> #[trigger] drawn_below(d.nodes, path.last(), kids[k]),
        f >= node_oids(d.nodes).difference(path.to_set()).len() + 1,
        h >= f,
    ensures
        kids_output_spec(d, kids, j, last, f) == kids_output_spec(d, kids, j, last, h),
    decreases f, kids.len() - j + 1,
{
    if 0 <= j < kids.len() {
        lemma_kids_output_fuel(d, kids, j + 1, last, path, f, h);
        if !d.roots.contains(kids[j]) {
            let w = path.push(kids[j]);
            assert(drawn_below(d.nodes, path.last(), kids[j]));
            assert forall|a: int| 0 <= a < w.len() - 1 implies #[trigger] drawn_below(d.nodes, w[a], w[a + 1]) by {
                if a < path.len() - 1 {
                    assert(w[a] == path[a] && w[a + 1] == path[a + 1]);
                } else {
                    assert(w[a] == path.last() && w[a + 1] == kids[j]);
                }
            }
            lemma_child_output_fuel(d, kids[j], None, path, f, h);
        }
    }
}

/// The drawing of the roots `d.roots[idx..]`, as `lemma_child_output_fuel`
/// for one root.
proof fn lemma_output_fuel(d: Drawing, idx: int, f: nat, h: nat)
    requires
        no_commit_below_itself(d.nodes),
        f >= node_oids(d.nodes).len() + 1,
        h >= f,
    ensures
        output_spec(d, idx, f) == output_spec(d, idx, h),
    decreases d.roots.len() - idx,
{
    if 0 <= idx < d.roots.len() {
        let empty = Seq::<Seq<u8>>::empty();
        let root = d.roots[idx];
        assert(empty.to_set() =~= Set::<Seq<u8>>::empty());
        assert(node_oids(d.nodes).difference(empty.to_set()) =~= node_oids(d.nodes));
        assert(is_drawn_path(d.nodes, empty.push(root)));
        let last = if idx == d.roots.len() - 1 {
            None
        } else if has_real_parent(d.nodes, d.roots[idx + 1], root) {
            Some(d.glyphs.line@)
        } else {
            Some(d.glyphs.vertical_ellipsis@)
        };
        lemma_child_output_fuel(d, root, last, empty, f, h);
        lemma_output_fuel(d, idx + 1, f, h);
    }
}

/// The smartlog is drawn deep enough: where no commit is drawn below
/// itself (and there are fewer nodes than a `usize` counts), drawing
/// deeper draws the same.
pub proof fn lemma_drawing_deep_enough(d: Drawing, h: nat)
    requires
        no_commit_below_itself(d.nodes),
        d.nodes.len() < usize::MAX,
        h >= smartlog_fuel(d.nodes),
    ensures
        output_spec(d, 0, h) == output_spec(d, 0, smartlog_fuel(d.nodes)),
{
    d.nodes.map_values(|n: SmartlogNode| n.oid@).lemma_cardinality_of_set();
    lemma_output_fuel(d, 0, smartlog_fuel(d.nodes), h);
}


/// The stack of a walk with the commits already visited popped from the
/// top, and the commit to visit next (`None` when the stack runs out).
pub open spec fn pop_unvisited(members: Seq<Seq<u8>>, stack: Seq<Seq<u8>>) -> (Seq<Seq<u8>>, Option<Seq<u8>>)
    decreases stack.len(),
{
    if stack.len() == 0 {
        (stack, None)
    } else if members.contains(stack.last()) {
        pop_unvisited(members, stack.drop_last())
    } else {
        (stack.drop_last(), Some(stack.last()))
    }
}

/// The commit that a walk visits next has not been visited yet.
pub proof fn lemma_pop_unvisited_fresh(members: Seq<Seq<u8>>, stack: Seq<Seq<u8>>)
    ensures
        pop_unvisited(members, stack).1 matches Some(k) ==> !members.contains(k),
    decreases stack.len(),
{
    if stack.len() > 0 && members.contains(stack.last()) {
        lemma_pop_unvisited_fresh(members, stack.drop_last());
    }
}

/// The walk that collects the commits of the smartlog: from each start
/// commit through its parents, stopping at commits of the main branch.
/// Each commit is visited once; the caller tells the walk, for each
/// visited commit, whether it is on the main branch and what its parents
/// are.
pub struct MembershipWalk {
    /// The commits visited so far, in the order they were visited.
    pub members: Vec<Oid>,
    /// The commits still to look at, the next one last.
    pub stack: Vec<Oid>,
}

impl MembershipWalk {
    /// A walk that starts from `starts`, the first of them looked at first.
    pub fn new(starts: &Vec<Oid>) -> (r: MembershipWalk)
        ensures
            r.members@.len() == 0,
            oids_view(r.stack@) == oids_view(starts@).reverse(),
    {
        let mut stack: Vec<Oid> = Vec::new();
        let mut i: usize = starts.len();
        while i > 0
            invariant
                i <= starts@.len(),
                oids_view(stack@) == oids_view(starts@).subrange(i as int, starts@.len() as int).reverse(),
            decreases i,
        {
            i = i - 1;
            let ghost before = oids_view(stack@);
            stack.push(starts[i]);
            assert(oids_view(stack@) =~= before.push(starts@[i as int]@));
            assert(oids_view(starts@).subrange(i as int, starts@.len() as int).reverse() =~= oids_view(
                starts@,
            ).subrange(i + 1, starts@.len() as int).reverse().push(starts@[i as int]@));
        }
        MembershipWalk { members: Vec::new(), stack }
    }

    /// The next commit to visit, now counted as visited; `None` when the
    /// walk is done.
    pub fn next(&mut self) -> (r: Option<Oid>)
        ensures
            oids_view(final(self).stack@) == pop_unvisited(oids_view(old(self).members@), oids_view(old(self).stack@)).0,
            opt_oid_view(r) == pop_unvisited(oids_view(old(self).members@), oids_view(old(self).stack@)).1,
            oids_view(final(self).members@) == match r {
                Some(oid) => oids_view(old(self).members@).push(oid@),
                None => oids_view(old(self).members@),
            },
            r matches Some(oid) ==> !oids_view(old(self).members@).contains(oid@),
    {
        proof {
            lemma_pop_unvisited_fresh(oids_view(self.members@), oids_view(self.stack@));
        }
        let ghost m0 = oids_view(self.members@);
        let ghost s0 = oids_view(self.stack@);
        loop
            invariant
                m0 == oids_view(old(self).members@),
                s0 == oids_view(old(self).stack@),
                oids_view(self.members@) == m0,
                pop_unvisited(m0, oids_view(self.stack@)) == pop_unvisited(m0, s0),
            decreases self.stack@.len(),
        {
            let ghost before = oids_view(self.stack@);
            match self.stack.pop() {
                None => {
                    assert(before.len() == 0);
                    assert(oids_view(self.stack@) =~= before);
                    assert(pop_unvisited(m0, before) == (before, None::<Seq<u8>>));
                    return None;
                },
                Some(oid) => {
                    assert(before.drop_last() =~= oids_view(self.stack@));
                    assert(before.last() == oid@);
                    if !contains_oid(&self.members, oid) {
                        assert(!m0.contains(before.last()));
                        assert(pop_unvisited(m0, before) == (before.drop_last(), Some(before.last())));
                        let ghost mb = oids_view(self.members@);
                        self.members.push(oid);
                        assert(oids_view(self.members@) =~= mb.push(oid@));
                        return Some(oid);
                    }
                    assert(m0.contains(before.last()));
                    assert(pop_unvisited(m0, before) == pop_unvisited(m0, before.drop_last()));
                },
            }
        }
    }

    /// Record what is known of the commit just visited: unless it is on
    /// the main branch, its parents are to be looked at next.
    pub fn visit(&mut self, on_main: bool, parents: &Vec<Oid>)
        ensures
            oids_view(final(self).members@) == oids_view(old(self).members@),
            oids_view(final(self).stack@) == if on_main {
                oids_view(old(self).stack@)
            } else {
                oids_view(old(self).stack@) + oids_view(parents@)
            },
    {
        if on_main {
            return;
        }
        let ghost s0 = oids_view(self.stack@);
        let mut i: usize = 0;
        while i < parents.len()
            invariant
                i <= parents@.len(),
                oids_view(self.stack@) == s0 + oids_view(parents@).take(i as int),
                oids_view(self.members@) == oids_view(old(self).members@),
            decreases parents@.len() - i,
        {
            let ghost before = oids_view(self.stack@);
            self.stack.push(parents[i]);
            assert(oids_view(self.stack@) =~= before.push(parents@[i as int]@));
            assert(oids_view(parents@).take(i + 1) =~= oids_view(parents@).take(i as int).push(parents@[i as int]@));
            i = i + 1;
        }
        assert(oids_view(parents@).take(parents@.len() as int) =~= oids_view(parents@));
    }
}

} // verus!
