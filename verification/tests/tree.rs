use branchless::oid::Oid;
use branchless::tree::{get_changed_paths_between_trees, EntryObject, TreeEntry, TreeNode};
use branchless::upstream::{commits_applied_upstream, should_check_patch_id};

fn oid(text: &str) -> Oid {
    Oid::from_str(text).unwrap()
}

fn file(name: &str, blob: &str, file_mode: i32) -> TreeEntry {
    TreeEntry { name: name.as_bytes().to_vec(), file_mode, object: EntryObject::NotATree(oid(blob)) }
}

fn dir(name: &str, tree_oid: &str, entries: Vec<TreeEntry>) -> TreeEntry {
    TreeEntry {
        name: name.as_bytes().to_vec(),
        file_mode: 0o040000,
        object: EntryObject::Tree(TreeNode { oid: oid(tree_oid), entries }),
    }
}

fn changed(lhs: Option<&TreeNode>, rhs: Option<&TreeNode>) -> Vec<String> {
    let mut acc = Vec::new();
    get_changed_paths_between_trees(&mut acc, &Vec::new(), lhs, rhs);
    acc.into_iter().map(|p| String::from_utf8(p).unwrap()).collect()
}

#[test]
fn test_detect_path_only_changed_file_mode() {
    let lhs = TreeNode { oid: oid("11"), entries: vec![file("initial.txt", "aa", 0o100644)] };
    let rhs = TreeNode { oid: oid("22"), entries: vec![file("initial.txt", "aa", 0o100755)] };
    assert_eq!(changed(Some(&lhs), Some(&rhs)), vec!["initial.txt".to_string()]);
}

#[test]
fn tree_against_itself_has_no_changes() {
    let t = TreeNode {
        oid: oid("11"),
        entries: vec![file("a.txt", "aa", 0o100644), dir("sub", "33", vec![file("b.txt", "bb", 0o100644)])],
    };
    assert!(changed(Some(&t), Some(&t)).is_empty());
    assert!(changed(None, None).is_empty());
}

#[test]
fn changed_paths_between_trees() {
    let lhs = TreeNode {
        oid: oid("11"),
        entries: vec![
            file("same.txt", "aa", 0o100644),
            file("edited.txt", "aa", 0o100644),
            file("removed.txt", "aa", 0o100644),
            dir("gone", "44", vec![file("x.txt", "aa", 0o100644)]),
            file("became_dir", "aa", 0o100644),
            dir("changed", "55", vec![file("keep.txt", "aa", 0o100644), file("edit.txt", "aa", 0o100644)]),
        ],
    };
    let rhs = TreeNode {
        oid: oid("22"),
        entries: vec![
            file("same.txt", "aa", 0o100644),
            file("edited.txt", "bb", 0o100644),
            dir("became_dir", "66", vec![file("inner.txt", "aa", 0o100644)]),
            dir("changed", "77", vec![file("keep.txt", "aa", 0o100644), file("edit.txt", "bb", 0o100644)]),
            file("added.txt", "aa", 0o100644),
        ],
    };
    assert_eq!(
        changed(Some(&lhs), Some(&rhs)),
        vec![
            "edited.txt",
            "removed.txt",
            "gone/x.txt",
            "became_dir/inner.txt",
            "became_dir",
            "changed/edit.txt",
            "added.txt",
        ]
    );
    // Against a missing tree, every file is changed.
    assert_eq!(changed(None, Some(&rhs)), vec![
        "same.txt",
        "edited.txt",
        "became_dir/inner.txt",
        "changed/keep.txt",
        "changed/edit.txt",
        "added.txt",
    ]);
}

#[test]
fn changed_paths_are_the_same_both_ways() {
    let lhs = TreeNode {
        oid: oid("11"),
        entries: vec![
            file("edited.txt", "aa", 0o100644),
            file("removed.txt", "aa", 0o100644),
            dir("sub", "44", vec![file("x.txt", "aa", 0o100644)]),
        ],
    };
    let rhs = TreeNode {
        oid: oid("22"),
        entries: vec![
            file("added.txt", "aa", 0o100644),
            file("edited.txt", "bb", 0o100644),
            file("sub", "cc", 0o100644),
        ],
    };
    let mut forward = changed(Some(&lhs), Some(&rhs));
    let mut backward = changed(Some(&rhs), Some(&lhs));
    forward.sort();
    backward.sort();
    assert_eq!(forward, vec!["added.txt", "edited.txt", "removed.txt", "sub", "sub/x.txt"]);
    assert_eq!(forward, backward);
}

#[test]
fn changed_paths_below_a_directory() {
    let lhs = TreeNode { oid: oid("11"), entries: vec![file("a", "aa", 0o100644)] };
    let mut acc = vec![b"earlier".to_vec()];
    get_changed_paths_between_trees(&mut acc, &b"dir".to_vec(), Some(&lhs), None);
    assert_eq!(acc, vec![b"earlier".to_vec(), b"dir/a".to_vec()]);
}

#[test]
fn upstream_commits_worth_comparing() {
    let a = b"a.txt".to_vec();
    let b = b"b.txt".to_vec();
    let local = vec![vec![a.clone(), b.clone()], vec![b.clone()]];
    assert!(should_check_patch_id(&None, &local));
    assert!(should_check_patch_id(&Some(vec![b.clone(), a.clone()]), &local));
    assert!(should_check_patch_id(&Some(vec![b.clone(), b.clone()]), &local));
    assert!(!should_check_patch_id(&Some(vec![a.clone()]), &local));
    assert!(!should_check_patch_id(&Some(vec![]), &local));

    let c1 = oid("c1");
    let c2 = oid("c2");
    let c3 = oid("c3");
    let p1 = oid("f1");
    let p2 = oid("f2");
    let moving = vec![(c1, Some(p1)), (c2, None), (c3, Some(p2))];
    assert_eq!(commits_applied_upstream(&moving, &[p2, oid("f9")]), vec![c3]);
    assert_eq!(commits_applied_upstream(&moving, &[]), Vec::<Oid>::new());
}
