use branchless::formatting::Glyphs;
use branchless::gc::{find_dangling_references, reachable_reference_name, ReferenceTarget};
use branchless::hiding::{recurse_on_commits, visibility_events, visibility_notes};
use branchless::eventlog::{Event, EventReplayer, EventTransactionId};
use branchless::oid::Oid;
use branchless::smartlog::{
    commit_cursor, get_output, link_children, order_roots, root_candidates, sorted_children, MembershipWalk,
    SmartlogNode,
};

fn oid(text: &str) -> Oid {
    Oid::from_str(text).unwrap()
}

fn node(oid: Oid, parent_oids: Vec<Oid>, children: Vec<Oid>, is_main: bool, time: i64, text: &str) -> SmartlogNode {
    SmartlogNode { oid, parent_oids, children, is_main, is_visible: true, time, text: String::from(text) }
}

#[test]
fn smartlog_draws_a_tree() {
    let m = oid("0a");
    let a = oid("0b");
    let b = oid("0c");
    let nodes = vec![
        node(m, vec![], vec![a, b], true, 0, "main"),
        node(a, vec![m], vec![], false, 2, "a"),
        node(b, vec![m], vec![], false, 1, "b"),
    ];
    let glyphs = Glyphs::text();
    let lines = get_output(&glyphs, &nodes, Some(a), false, &[m]);
    assert_eq!(lines, vec!["O main", "|\\", "| o b", "|", "@ a"]);
    let bold = get_output(&glyphs, &nodes, Some(a), true, &[m]);
    assert_eq!(bold[4], "\u{1b}[1m@\u{1b}[0m \u{1b}[1ma\u{1b}[0m");
}

#[test]
fn smartlog_joins_roots() {
    let m1 = oid("0a");
    let m2 = oid("0b");
    let x = oid("0c");
    let nodes = vec![
        node(m1, vec![oid("01")], vec![x], true, 0, "m1"),
        node(m2, vec![m1], vec![], true, 5, "m2"),
        node(x, vec![m1], vec![], false, 1, "x"),
    ];
    let glyphs = Glyphs::text();
    let lines = get_output(&glyphs, &nodes, None, false, &[m1, m2]);
    assert_eq!(lines, vec![":", "O m1", "|\\", "| o x", "|", "O m2"]);
}

#[test]
fn cursor_glyphs() {
    let glyphs = Glyphs::text();
    assert_eq!(commit_cursor(&glyphs, false, false, false), "x");
    assert_eq!(commit_cursor(&glyphs, false, true, true), "@");
    assert_eq!(commit_cursor(&glyphs, true, false, false), "X");
    assert_eq!(commit_cursor(&glyphs, true, true, false), "O");
}

#[test]
fn hide_and_unhide_reports() {
    let a = oid("abcdef1234");
    let tx = EventTransactionId(1);
    let events = visibility_events(&[a], 3, tx, false);
    assert_eq!(events, vec![Event::HideEvent { timestamp: 3, event_tx_id: tx, commit_oid: a }]);
    let mut replayer = EventReplayer::new();
    let cursor = replayer.make_default_cursor();
    assert_eq!(
        visibility_notes(&replayer, cursor, a, false),
        vec![String::from("To unhide this commit, run: git unhide abcdef12")]
    );
    replayer.process_event(&events[0]);
    let cursor = replayer.make_default_cursor();
    assert_eq!(
        visibility_notes(&replayer, cursor, a, false),
        vec![
            String::from("(It was already hidden, so this operation had no effect.)"),
            String::from("To unhide this commit, run: git unhide abcdef12"),
        ]
    );
    assert_eq!(
        visibility_notes(&replayer, cursor, a, true),
        vec![String::from("To hide this commit, run: git hide abcdef12")]
    );
    assert_eq!(
        visibility_events(&[a], 3, tx, true),
        vec![Event::UnhideEvent { timestamp: 3, event_tx_id: tx, commit_oid: a }]
    );
}

#[test]
fn garbage_collection_references() {
    let a = oid("aa");
    let b = oid("bb");
    assert_eq!(reachable_reference_name(a), format!("refs/branchless/{}", a.to_hex()));
    let refs = vec![
        ReferenceTarget { name: reachable_reference_name(a), commit_oid: Some(a) },
        ReferenceTarget { name: reachable_reference_name(b), commit_oid: Some(b) },
        ReferenceTarget { name: String::from("refs/heads/main"), commit_oid: Some(b) },
        ReferenceTarget { name: String::from("refs/branchless/tree"), commit_oid: None },
    ];
    assert_eq!(find_dangling_references(&refs, &[a]), vec![reachable_reference_name(b)]);
}

#[test]
fn smartlog_draws_a_long_stack_to_its_end() {
    let texts = ["c0", "c1", "c2", "c3", "c4", "c5"];
    let oids: Vec<Oid> = vec![oid("a0"), oid("a1"), oid("a2"), oid("a3"), oid("a4"), oid("a5")];
    let mut nodes = vec![];
    for i in 0..oids.len() {
        let parents = if i == 0 { vec![] } else { vec![oids[i - 1]] };
        let children = if i + 1 < oids.len() { vec![oids[i + 1]] } else { vec![] };
        nodes.push(node(oids[i], parents, children, i == 0, i as i64, texts[i]));
    }
    let glyphs = Glyphs::text();
    let lines = get_output(&glyphs, &nodes, None, false, &[oids[0]]);
    assert_eq!(lines, vec!["O c0", "|", "o c1", "|", "o c2", "|", "o c3", "|", "o c4", "|", "o c5"]);
}

#[test]
fn smartlog_links_children_and_orders_roots() {
    let m1 = oid("0a");
    let m2 = oid("0b");
    let x = oid("0c");
    let y = oid("0d");
    let z = oid("0e");
    let w = oid("0f");
    // m2 descends from m1 on the main branch; x and y sit on m1, z on x;
    // w's parent has no node.
    let nodes = vec![
        node(m1, vec![oid("01")], vec![], true, 10, "m1"),
        node(m2, vec![m1], vec![], true, 50, "m2"),
        node(x, vec![m1], vec![], false, 30, "x"),
        node(y, vec![m1], vec![], false, 20, "y"),
        node(z, vec![x], vec![], false, 40, "z"),
        node(w, vec![oid("02")], vec![], false, 5, "w"),
    ];
    let nodes = link_children(nodes);
    assert_eq!(nodes[0].children, vec![x, y]);
    assert_eq!(nodes[1].children, Vec::<Oid>::new());
    assert_eq!(nodes[2].children, vec![z]);
    assert_eq!(nodes[4].children, Vec::<Oid>::new());
    assert_eq!(nodes[4].text, "z");
    assert_eq!(sorted_children(&nodes, &nodes[0].children), vec![y, x]);

    let candidates = root_candidates(&nodes);
    assert_eq!(candidates, vec![m1, m2, w]);
    // Without ancestry, the oldest first.
    assert_eq!(order_roots(&nodes, &candidates, &[]), vec![w, m1, m2]);
    // An ancestor goes before its descendant, whatever the times.
    assert_eq!(order_roots(&nodes, &candidates, &[(w, m2)]), vec![m1, m2, w]);
}

#[test]
fn recursive_hide_and_unhide_walk_below_commits() {
    let a = oid("a1");
    let b = oid("b1");
    let c = oid("c1");
    let d = oid("d1");
    let mut hidden = node(c, vec![a], vec![], false, 3, "c");
    hidden.is_visible = false;
    // a has children b and c; b has child d; d is also given.
    let nodes = vec![
        node(a, vec![], vec![b, c], false, 1, "a"),
        node(b, vec![a], vec![d], false, 2, "b"),
        hidden,
        node(d, vec![b], vec![], false, 4, "d"),
    ];
    assert_eq!(recurse_on_commits(&nodes, &vec![a, d], true), vec![a, b, d]);
    assert_eq!(recurse_on_commits(&nodes, &vec![a], false), vec![c]);
    assert_eq!(recurse_on_commits(&nodes, &vec![d], true), vec![d]);
}

#[test]
fn membership_walk_stops_at_the_main_branch_and_visits_once() {
    // main <- m1 <- a <- b, and m1 <- c; main and m1 are on the main branch.
    let main = oid("aa");
    let m1 = oid("bb");
    let a = oid("cc");
    let b = oid("dd");
    let c = oid("ee");
    let parents_of = |x: Oid| -> Vec<Oid> {
        if x == m1 {
            vec![main]
        } else if x == a || x == c {
            vec![m1]
        } else if x == b {
            vec![a]
        } else {
            vec![]
        }
    };
    let mut walk = MembershipWalk::new(&vec![b, c, a, main]);
    let mut visited = Vec::new();
    while let Some(x) = walk.next() {
        visited.push(x);
        let on_main = x == main || x == m1;
        walk.visit(on_main, &parents_of(x));
    }
    assert_eq!(visited, vec![b, a, m1, c, main]);
    assert_eq!(walk.members, visited);
    assert!(walk.stack.is_empty());
}
