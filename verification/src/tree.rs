//! Comparing Git trees: which paths differ between two snapshots of the
//! files of a repository.

use vstd::prelude::*;

use crate::oid::Oid;

verus! {

/// A Git tree, with the trees below it, as far as comparing trees reads it.
pub struct TreeNode {
    /// The ID of the tree object.
    pub oid: Oid,
    /// Its entries.
    pub entries: Vec<TreeEntry>,
}

/// An entry of a tree: a name, a file mode and the object it names.
pub struct TreeEntry {
    /// The name, as raw bytes (it need not be UTF-8).
    pub name: Vec<u8>,
    /// The file mode, as Git stores it.
    pub file_mode: i32,
    /// The object.
    pub object: EntryObject,
}

/// The object that a tree entry names.
pub enum EntryObject {
    /// A blob or any other object that is not a tree, by its ID.
    NotATree(Oid),
    /// A subtree.
    Tree(TreeNode),
}

/// `name` below the directory `prefix`, as `Path::join` writes it.
pub open spec fn join_path(prefix: Seq<u8>, name: Seq<u8>) -> Seq<u8> {
    if prefix.len() == 0 || prefix.last() == 47u8 {
        prefix + name
    } else {
        prefix + seq![47u8] + name
    }
}

/// Whether an entry named `name` is among `es`.
pub open spec fn has_name(es: Seq<TreeEntry>, name: Seq<u8>) -> bool {
    exists|j: int| 0 <= j < es.len() && (#[trigger] es[j]).name@ == name
}

/// The first entry named `name`, if any (Git keeps names unique in a tree;
/// a lookup by name finds the first).
pub open spec fn entry_named(es: Seq<TreeEntry>, name: Seq<u8>) -> Option<TreeEntry>
    decreases es.len(),
{
    if es.len() == 0 {
        None
    } else if es[0].name@ == name {
        Some(es[0])
    } else {
        entry_named(es.drop_first(), name)
    }
}

/// Every path of a file (a non-tree entry) below the entries `es` of a
/// directory at `prefix`, in entry order; of entries with the same name,
/// the first counts.
pub open spec fn files_below(es: Seq<TreeEntry>, prefix: Seq<u8>) -> Seq<Seq<u8>>
    decreases es,
{
    if es.len() == 0 {
        Seq::empty()
    } else {
        let e = es.last();
        let rest = es.drop_last();
        proof {
            assert(decreases_to!(es => es.subrange(0, es.len() - 1)));
            assert(decreases_to!(es => es[es.len() - 1]));
        }
        let before = files_below(rest, prefix);
        if has_name(rest, e.name@) {
            before
        } else {
            before + match e.object {
                EntryObject::NotATree(_) => seq![join_path(prefix, e.name@)],
                EntryObject::Tree(t) => {
                    proof {
                        assert(decreases_to!(e => e.object));
                        assert(decreases_to!(e.object => t));
                        assert(decreases_to!(t => t.entries));
                        assert(decreases_to!(t.entries => t.entries@));
                    }
                    files_below(t.entries@, join_path(prefix, e.name@))
                },
            }
        }
    }
}

/// The changed paths for an entry that only one side has: the entry's
/// path if it is a file, every file below it if it is a directory.
pub open spec fn one_sided(e: TreeEntry, path: Seq<u8>) -> Seq<Seq<u8>> {
    match e.object {
        EntryObject::NotATree(_) => seq![path],
        EntryObject::Tree(t) => files_below(t.entries@, path),
    }
}

/// The path if the two file modes differ.
pub open spec fn if_mode_changed(lm: i32, rm: i32, path: Seq<u8>) -> Seq<Seq<u8>> {
    if lm == rm {
        Seq::empty()
    } else {
        seq![path]
    }
}

/// The changed paths below two directories with entries `ls` and `rs`:
/// first for each name on the left, then for each name only on the right.
pub open spec fn diff_entries(ls: Seq<TreeEntry>, rs: Seq<TreeEntry>, prefix: Seq<u8>) -> Seq<Seq<u8>>
    decreases ls, 1nat,
{
    diff_left(ls, rs, prefix) + diff_right(ls, rs, prefix)
}

/// The changed paths for the names of `lp` (the first entries of the left
/// directory), each compared with the entry of the same name on the right:
/// - a file on both sides: its path, unless the ID and the mode agree;
/// - a file on one side, nothing on the other: its path;
/// - a directory on one side, nothing on the other: every file below it;
/// - a file on one side, a directory on the other: every file below the
///   directory, then the path;
/// - a directory on both sides: nothing if the trees agree, except the
///   path when the modes differ; otherwise the changed paths below them,
///   then the path when the modes differ.
pub open spec fn diff_left(lp: Seq<TreeEntry>, rs: Seq<TreeEntry>, prefix: Seq<u8>) -> Seq<Seq<u8>>
    decreases lp, 0nat,
{
    if lp.len() == 0 {
        Seq::empty()
    } else {
        let e = lp.last();
        let rest = lp.drop_last();
        proof {
            assert(decreases_to!(lp => lp.subrange(0, lp.len() - 1)));
            assert(decreases_to!(lp => lp[lp.len() - 1]));
        }
        let before = diff_left(rest, rs, prefix);
        let path = join_path(prefix, e.name@);
        if has_name(rest, e.name@) {
            before
        } else {
            before + match entry_named(rs, e.name@) {
                None => one_sided(e, path),
                Some(r) => match (e.object, r.object) {
                    (EntryObject::NotATree(lo), EntryObject::NotATree(ro)) => if lo@ == ro@ && e.file_mode
                        == r.file_mode {
                        Seq::empty()
                    } else {
                        seq![path]
                    },
                    (EntryObject::NotATree(_), EntryObject::Tree(t)) => files_below(t.entries@, path).push(path),
                    (EntryObject::Tree(t), EntryObject::NotATree(_)) => files_below(t.entries@, path).push(path),
                    (EntryObject::Tree(lt), EntryObject::Tree(rt)) => if lt.oid@ == rt.oid@ {
                        if_mode_changed(e.file_mode, r.file_mode, path)
                    } else {
                        proof {
                            assert(decreases_to!(e => e.object));
                            assert(decreases_to!(e.object => lt));
                            assert(decreases_to!(lt => lt.entries));
                            assert(decreases_to!(lt.entries => lt.entries@));
                        }
                        diff_entries(lt.entries@, rt.entries@, path) + if_mode_changed(
                            e.file_mode,
                            r.file_mode,
                            path,
                        )
                    },
                },
            }
        }
    }
}

/// The changed paths for the names that only the right directory has,
/// among its first entries `rp`: each as an entry that one side lacks.
pub open spec fn diff_right(ls: Seq<TreeEntry>, rp: Seq<TreeEntry>, prefix: Seq<u8>) -> Seq<Seq<u8>>
    decreases rp.len(),
{
    if rp.len() == 0 {
        Seq::empty()
    } else {
        let e = rp.last();
        let rest = rp.drop_last();
        let before = diff_right(ls, rest, prefix);
        if has_name(rest, e.name@) || has_name(ls, e.name@) {
            before
        } else {
            before + one_sided(e, join_path(prefix, e.name@))
        }
    }
}

/// The entries of an optional tree; none for a missing tree.
pub open spec fn entries_of(t: Option<&TreeNode>) -> Seq<TreeEntry> {
    match t {
        Some(t) => t.entries@,
        None => Seq::empty(),
    }
}

/// The views of paths.
pub open spec fn paths_view(v: Seq<Vec<u8>>) -> Seq<Seq<u8>> {
    v.map_values(|p: Vec<u8>| p@)
}

/// The first entry with a name that no earlier entry has is the entry that
/// a lookup by that name finds.
proof fn lemma_entry_named_first(es: Seq<TreeEntry>, k: int)
    requires
        0 <= k < es.len(),
        !has_name(es.take(k), es[k].name@),
    ensures
        entry_named(es, es[k].name@) == Some(es[k]),
    decreases k,
{
    let n = es[k].name@;
    if k > 0 {
        assert(es[0].name@ != n) by {
            assert(es.take(k)[0] == es[0]);
        }
        let rest = es.drop_first();
        assert(rest[k - 1] == es[k]);
        assert(!has_name(rest.take(k - 1), n)) by {
            if has_name(rest.take(k - 1), n) {
                let j = choose|j: int| 0 <= j < k - 1 && (#[trigger] rest.take(k - 1)[j]).name@ == n;
                assert(es.take(k)[j + 1] == rest.take(k - 1)[j]);
            }
        }
        lemma_entry_named_first(rest, k - 1);
    }
}

/// The left part of comparing a directory with itself is empty.
proof fn lemma_diff_left_self(es: Seq<TreeEntry>, k: int, p: Seq<u8>)
    requires
        0 <= k <= es.len(),
    ensures
        diff_left(es.take(k), es, p) == Seq::<Seq<u8>>::empty(),
    decreases k,
{
    if k > 0 {
        let lp = es.take(k);
        assert(lp.drop_last() =~= es.take(k - 1));
        assert(lp.last() == es[k - 1]);
        lemma_diff_left_self(es, k - 1, p);
        let e = es[k - 1];
        if !has_name(es.take(k - 1), e.name@) {
            lemma_entry_named_first(es, k - 1);
        }
    }
}

/// The right part of comparing a directory with itself is empty: every
/// name on the right is on the left.
proof fn lemma_diff_right_self(es: Seq<TreeEntry>, k: int, p: Seq<u8>)
    requires
        0 <= k <= es.len(),
    ensures
        diff_right(es, es.take(k), p) == Seq::<Seq<u8>>::empty(),
    decreases k,
{
    if k > 0 {
        let rp = es.take(k);
        assert(rp.drop_last() =~= es.take(k - 1));
        assert(rp.last() == es[k - 1]);
        assert(has_name(es, es[k - 1].name@));
        lemma_diff_right_self(es, k - 1, p);
    }
}

/// A tree compared with itself has no changed paths.
pub proof fn lemma_no_changes_against_itself(t: Option<&TreeNode>, current_path: Seq<u8>)
    ensures
        diff_entries(entries_of(t), entries_of(t), current_path) == Seq::<Seq<u8>>::empty(),
{
    let es = entries_of(t);
    lemma_diff_left_self(es, es.len() as int, current_path);
    lemma_diff_right_self(es, es.len() as int, current_path);
    assert(es.take(es.len() as int) =~= es);
}

/// What `diff_left` adds for the entry `e` of the left directory, given the
/// entries `rs` of the right one.
pub open spec fn left_part(e: TreeEntry, rs: Seq<TreeEntry>, prefix: Seq<u8>) -> Seq<Seq<u8>>
{
    let path = join_path(prefix, e.name@);
    match entry_named(rs, e.name@) {
        None => one_sided(e, path),
        Some(r) => match (e.object, r.object) {
            (EntryObject::NotATree(lo), EntryObject::NotATree(ro)) => if lo@ == ro@ && e.file_mode == r.file_mode {
                Seq::empty()
            } else {
                seq![path]
            },
            (EntryObject::NotATree(_), EntryObject::Tree(t)) => files_below(t.entries@, path).push(path),
            (EntryObject::Tree(t), EntryObject::NotATree(_)) => files_below(t.entries@, path).push(path),
            (EntryObject::Tree(lt), EntryObject::Tree(rt)) => if lt.oid@ == rt.oid@ {
                if_mode_changed(e.file_mode, r.file_mode, path)
            } else {
                diff_entries(lt.entries@, rt.entries@, path) + if_mode_changed(e.file_mode, r.file_mode, path)
            },
        },
    }
}

/// Whether position `k` holds the first entry of its name in `es`.
pub open spec fn first_of_name(es: Seq<TreeEntry>, k: int) -> bool {
    0 <= k < es.len() && !has_name(es.take(k), es[k].name@)
}

/// A lookup by name finds nothing exactly when no entry has the name, and
/// otherwise the first entry of that name.
proof fn lemma_entry_named(es: Seq<TreeEntry>, n: Seq<u8>)
    ensures
        entry_named(es, n) is None <==> !has_name(es, n),
        entry_named(es, n) matches Some(e) ==> exists|k: int| first_of_name(es, k) && es[k] == e,
    decreases es.len(),
{
    if es.len() > 0 {
        lemma_entry_named(es.drop_first(), n);
        if es[0].name@ == n {
            assert(es.take(0) =~= Seq::<TreeEntry>::empty());
            assert(first_of_name(es, 0));
            assert(has_name(es, n));
        } else {
            if has_name(es, n) {
                let j = choose|j: int| 0 <= j < es.len() && (#[trigger] es[j]).name@ == n;
                assert(es.drop_first()[j - 1] == es[j]);
            }
            if has_name(es.drop_first(), n) {
                let j = choose|j: int| 0 <= j < es.drop_first().len() && (#[trigger] es.drop_first()[j]).name@ == n;
                assert(es[j + 1] == es.drop_first()[j]);
            }
            if let Some(e) = entry_named(es, n) {
                lemma_entry_named_name(es, n);
                let k = choose|k: int| first_of_name(es.drop_first(), k) && es.drop_first()[k] == e;
                assert(es[k + 1] == e);
                assert(!has_name(es.take(k + 1), es[k + 1].name@)) by {
                    if has_name(es.take(k + 1), es[k + 1].name@) {
                        let j = choose|j: int| 0 <= j < k + 1 && (#[trigger] es.take(k + 1)[j]).name@ == es[k + 1].name@;
                        if j > 0 {
                            assert(es.drop_first().take(k)[j - 1] == es.take(k + 1)[j]);
                        }
                    }
                }
            }
        }
    }
}

/// What the left part holds: for each first entry of a name on the left,
/// its `left_part`.
proof fn lemma_diff_left_members(lp: Seq<TreeEntry>, rs: Seq<TreeEntry>, prefix: Seq<u8>, x: Seq<u8>)
    ensures
        diff_left(lp, rs, prefix).contains(x) <==> exists|k: int|
            #[trigger] first_of_name(lp, k) && left_part(lp[k], rs, prefix).contains(x),
    decreases lp.len(),
{
    if lp.len() > 0 {
        let rest = lp.drop_last();
        let e = lp.last();
        let k0 = lp.len() - 1;
        lemma_diff_left_members(rest, rs, prefix, x);
        assert(lp.take(k0) =~= rest);
        assert(lp[k0] == e);
        let before = diff_left(rest, rs, prefix);
        let add = if has_name(rest, e.name@) {
            Seq::<Seq<u8>>::empty()
        } else {
            left_part(e, rs, prefix)
        };
        assert(diff_left(lp, rs, prefix) =~= before + add);
        assert forall|k: int| 0 <= k < rest.len() implies first_of_name(lp, k) == first_of_name(rest, k) by {
            assert(lp.take(k) =~= rest.take(k));
            assert(lp[k] == rest[k]);
        }
        if diff_left(lp, rs, prefix).contains(x) {
            let i = choose|i: int| 0 <= i < (before + add).len() && (before + add)[i] == x;
            if i < before.len() {
                assert(before.contains(x));
                let k = choose|k: int| #[trigger] first_of_name(rest, k) && left_part(rest[k], rs, prefix).contains(x);
                assert(first_of_name(lp, k));
                assert(lp[k] == rest[k]);
            } else {
                assert(add[i - before.len()] == x);
                assert(first_of_name(lp, k0));
            }
        }
        if exists|k: int| #[trigger] first_of_name(lp, k) && left_part(lp[k], rs, prefix).contains(x) {
            let k = choose|k: int| #[trigger] first_of_name(lp, k) && left_part(lp[k], rs, prefix).contains(x);
            if k < k0 {
                assert(first_of_name(rest, k));
                assert(rest[k] == lp[k]);
                assert(before.contains(x));
                let i = choose|i: int| 0 <= i < before.len() && before[i] == x;
                assert((before + add)[i] == x);
            } else {
                let i = choose|i: int| 0 <= i < left_part(e, rs, prefix).len() && left_part(e, rs, prefix)[i] == x;
                assert((before + add)[before.len() + i] == x);
            }
        }
    }
}

/// What the right part holds: for each first entry of a name on the right
/// that the left lacks, its paths as a one-sided entry.
proof fn lemma_diff_right_members(ls: Seq<TreeEntry>, rp: Seq<TreeEntry>, prefix: Seq<u8>, x: Seq<u8>)
    ensures
        diff_right(ls, rp, prefix).contains(x) <==> exists|k: int|
            #[trigger] first_of_name(rp, k) && !has_name(ls, rp[k].name@) && one_sided(
                rp[k],
                join_path(prefix, rp[k].name@),
            ).contains(x),
    decreases rp.len(),
{
    if rp.len() > 0 {
        let rest = rp.drop_last();
        let e = rp.last();
        let k0 = rp.len() - 1;
        lemma_diff_right_members(ls, rest, prefix, x);
        assert(rp.take(k0) =~= rest);
        assert(rp[k0] == e);
        let before = diff_right(ls, rest, prefix);
        let add = if has_name(rest, e.name@) || has_name(ls, e.name@) {
            Seq::<Seq<u8>>::empty()
        } else {
            one_sided(e, join_path(prefix, e.name@))
        };
        assert(diff_right(ls, rp, prefix) =~= before + add);
        assert forall|k: int| 0 <= k < rest.len() implies first_of_name(rp, k) == first_of_name(rest, k) by {
            assert(rp.take(k) =~= rest.take(k));
            assert(rp[k] == rest[k]);
        }
        if diff_right(ls, rp, prefix).contains(x) {
            let i = choose|i: int| 0 <= i < (before + add).len() && (before + add)[i] == x;
            if i < before.len() {
                assert(before.contains(x));
                let k = choose|k: int|
                    #[trigger] first_of_name(rest, k) && !has_name(ls, rest[k].name@) && one_sided(
                        rest[k],
                        join_path(prefix, rest[k].name@),
                    ).contains(x);
                assert(first_of_name(rp, k));
                assert(rp[k] == rest[k]);
            } else {
                assert(add[i - before.len()] == x);
                assert(first_of_name(rp, k0));
            }
        }
        if exists|k: int|
            #[trigger] first_of_name(rp, k) && !has_name(ls, rp[k].name@) && one_sided(
                rp[k],
                join_path(prefix, rp[k].name@),
            ).contains(x) {
            let k = choose|k: int|
                #[trigger] first_of_name(rp, k) && !has_name(ls, rp[k].name@) && one_sided(
                    rp[k],
                    join_path(prefix, rp[k].name@),
                ).contains(x);
            if k < k0 {
                assert(first_of_name(rest, k));
                assert(rest[k] == rp[k]);
                assert(before.contains(x));
                let i = choose|i: int| 0 <= i < before.len() && before[i] == x;
                assert((before + add)[i] == x);
            } else {
                let os = one_sided(e, join_path(prefix, e.name@));
                let i = choose|i: int| 0 <= i < os.len() && os[i] == x;
                assert((before + add)[before.len() + i] == x);
            }
        }
    }
}

/// Every changed path from left to right is a changed path from right to
/// left.
proof fn lemma_diff_within_swapped(ls: Seq<TreeEntry>, rs: Seq<TreeEntry>, prefix: Seq<u8>, x: Seq<u8>)
    requires
        diff_entries(ls, rs, prefix).contains(x),
    ensures
        diff_entries(rs, ls, prefix).contains(x),
    decreases ls,
{
    let d = diff_entries(ls, rs, prefix);
    let dl = diff_left(ls, rs, prefix);
    let dr = diff_right(ls, rs, prefix);
    let i = choose|i: int| 0 <= i < d.len() && d[i] == x;
    let sl = diff_left(rs, ls, prefix);
    let sr = diff_right(rs, ls, prefix);
    assert(diff_entries(rs, ls, prefix) == sl + sr);
    if i < dl.len() {
        assert(dl[i] == x);
        lemma_diff_left_members(ls, rs, prefix, x);
        let k = choose|k: int| #[trigger] first_of_name(ls, k) && left_part(ls[k], rs, prefix).contains(x);
        let e = ls[k];
        let n = e.name@;
        let path = join_path(prefix, n);
        lemma_entry_named(rs, n);
        lemma_entry_named(ls, n);
        lemma_entry_named_first(ls, k);
        match entry_named(rs, n) {
            None => {
                lemma_diff_right_members(rs, ls, prefix, x);
                assert(first_of_name(ls, k) && !has_name(rs, ls[k].name@) && one_sided(ls[k], join_path(prefix, ls[k].name@)).contains(x));
                assert(sr.contains(x));
            },
            Some(r) => {
                let j = choose|j: int| first_of_name(rs, j) && rs[j] == r;
                lemma_diff_left_members(rs, ls, prefix, x);
                assert(r.name@ == n) by {
                    lemma_entry_named_name(rs, n);
                }
                assert(left_part(rs[j], ls, prefix).contains(x)) by {
                    match (e.object, r.object) {
                        (EntryObject::Tree(lt), EntryObject::Tree(rt)) => {
                            if lt.oid@ != rt.oid@ {
                                let sub = diff_entries(lt.entries@, rt.entries@, path);
                                let m = if_mode_changed(e.file_mode, r.file_mode, path);
                                let m2 = if_mode_changed(r.file_mode, e.file_mode, path);
                                assert(m == m2);
                                let w = choose|w: int| 0 <= w < (sub + m).len() && (sub + m)[w] == x;
                                let sub2 = diff_entries(rt.entries@, lt.entries@, path);
                                if w < sub.len() {
                                    assert(sub[w] == x);
                                    assert(decreases_to!(ls => ls[k]));
                                    assert(decreases_to!(ls[k] => e.object));
                                    assert(decreases_to!(e.object => lt));
                                    assert(decreases_to!(lt => lt.entries));
                                    assert(decreases_to!(lt.entries => lt.entries@));
                                    lemma_diff_within_swapped(lt.entries@, rt.entries@, path, x);
                                    let v = choose|v: int| 0 <= v < sub2.len() && sub2[v] == x;
                                    assert((sub2 + m2)[v] == x);
                                } else {
                                    assert((sub2 + m2)[sub2.len() + (w - sub.len())] == x);
                                }
                            }
                        },
                        _ => {},
                    }
                }
                assert(sl.contains(x));
            },
        }
    } else {
        assert(dr[i - dl.len()] == x);
        lemma_diff_right_members(ls, rs, prefix, x);
        let k = choose|k: int|
            #[trigger] first_of_name(rs, k) && !has_name(ls, rs[k].name@) && one_sided(
                rs[k],
                join_path(prefix, rs[k].name@),
            ).contains(x);
        lemma_entry_named(ls, rs[k].name@);
        lemma_diff_left_members(rs, ls, prefix, x);
        assert(left_part(rs[k], ls, prefix).contains(x));
        assert(sl.contains(x));
    }
    assert(sl.contains(x) || sr.contains(x));
    if sl.contains(x) {
        let v = choose|v: int| 0 <= v < sl.len() && sl[v] == x;
        assert((sl + sr)[v] == x);
    } else {
        let v = choose|v: int| 0 <= v < sr.len() && sr[v] == x;
        assert((sl + sr)[sl.len() + v] == x);
    }
}

/// The entry that a lookup by name finds has that name.
proof fn lemma_entry_named_name(es: Seq<TreeEntry>, n: Seq<u8>)
    ensures
        entry_named(es, n) matches Some(e) ==> e.name@ == n,
    decreases es.len(),
{
    if es.len() > 0 && es[0].name@ != n {
        lemma_entry_named_name(es.drop_first(), n);
    }
}

/// Comparing two trees the other way round gives the same changed paths
/// (as a set; the order follows the left tree's entries).
pub proof fn lemma_changes_symmetric(lhs: Option<&TreeNode>, rhs: Option<&TreeNode>, current_path: Seq<u8>)
    ensures
        diff_entries(entries_of(lhs), entries_of(rhs), current_path).to_set() == diff_entries(
            entries_of(rhs),
            entries_of(lhs),
            current_path,
        ).to_set(),
{
    let a = diff_entries(entries_of(lhs), entries_of(rhs), current_path);
    let b = diff_entries(entries_of(rhs), entries_of(lhs), current_path);
    assert forall|x: Seq<u8>| a.to_set().contains(x) <==> b.to_set().contains(x) by {
        if a.contains(x) {
            lemma_diff_within_swapped(entries_of(lhs), entries_of(rhs), current_path, x);
        }
        if b.contains(x) {
            lemma_diff_within_swapped(entries_of(rhs), entries_of(lhs), current_path, x);
        }
    }
    assert(a.to_set() =~= b.to_set());
}

/// Whether two byte strings are equal.
fn bytes_eq(a: &Vec<u8>, b: &Vec<u8>) -> (r: bool)
    ensures
        r == (a@ == b@),
{
    if a.len() != b.len() {
        return false;
    }
    let mut i: usize = 0;
    while i < a.len()
        invariant
            i <= a@.len(),
            a@.len() == b@.len(),
            forall|j: int| 0 <= j < i ==> a@[j] == b@[j],
        decreases a@.len() - i,
    {
        if a[i] != b[i] {
            return false;
        }
        i = i + 1;
    }
    assert(a@ =~= b@);
    true
}

/// `name` below the directory `prefix`.
fn join_path_exec(prefix: &Vec<u8>, name: &Vec<u8>) -> (r: Vec<u8>)
    ensures
        r@ == join_path(prefix@, name@),
{
    let mut r: Vec<u8> = Vec::new();
    let mut i: usize = 0;
    while i < prefix.len()
        invariant
            i <= prefix@.len(),
            r@ == prefix@.take(i as int),
        decreases prefix@.len() - i,
    {
        r.push(prefix[i]);
        assert(r@ =~= prefix@.take(i + 1));
        i = i + 1;
    }
    assert(prefix@.take(i as int) =~= prefix@);
    if prefix.len() > 0 && prefix[prefix.len() - 1] != 47u8 {
        r.push(47u8);
    }
    let ghost base = r@;
    let mut j: usize = 0;
    while j < name.len()
        invariant
            j <= name@.len(),
            r@ == base + name@.take(j as int),
        decreases name@.len() - j,
    {
        r.push(name[j]);
        assert(r@ =~= base + name@.take(j + 1));
        j = j + 1;
    }
    assert(name@.take(j as int) =~= name@);
    r
}

/// Whether an entry named `name` is among the first `k` entries of `es`.
fn name_seen(es: &Vec<TreeEntry>, k: usize, name: &Vec<u8>) -> (r: bool)
    requires
        k <= es@.len(),
    ensures
        r == has_name(es@.take(k as int), name@),
{
    let mut j: usize = 0;
    while j < k
        invariant
            j <= k <= es@.len(),
            forall|i: int| 0 <= i < j ==> (#[trigger] es@[i]).name@ != name@,
        decreases k - j,
    {
        if bytes_eq(&es[j].name, name) {
            assert(es@.take(k as int)[j as int] == es@[j as int]);
            return true;
        }
        j = j + 1;
    }
    assert forall|i: int| 0 <= i < k implies (#[trigger] es@.take(k as int)[i]).name@ != name@ by {
        assert(es@.take(k as int)[i] == es@[i]);
    }
    false
}

/// The index of the first entry named `name`, if any.
fn find_entry(es: &Vec<TreeEntry>, name: &Vec<u8>) -> (r: Option<usize>)
    ensures
        match r {
            Some(j) => j < es@.len() && entry_named(es@, name@) == Some(es@[j as int]),
            None => entry_named(es@, name@) is None,
        },
{
    let mut j: usize = 0;
    assert(es@.skip(0) =~= es@);
    while j < es.len()
        invariant
            j <= es@.len(),
            entry_named(es@, name@) == entry_named(es@.skip(j as int), name@),
        decreases es@.len() - j,
    {
        assert(es@.skip(j as int)[0] == es@[j as int]);
        assert(es@.skip(j as int).drop_first() =~= es@.skip(j + 1));
        if bytes_eq(&es[j].name, name) {
            return Some(j);
        }
        j = j + 1;
    }
    None
}

/// Add the path of every file below the entries `es` of a directory at
/// `prefix` (see `files_below`).
fn push_files_below(es: &Vec<TreeEntry>, prefix: &Vec<u8>, acc: &mut Vec<Vec<u8>>)
    ensures
        paths_view(final(acc)@) == paths_view(old(acc)@) + files_below(es@, prefix@),
    decreases es@,
{
    let ghost start = paths_view(acc@);
    let mut i: usize = 0;
    assert(es@.take(0) =~= Seq::<TreeEntry>::empty());
    assert(start + files_below(es@.take(0), prefix@) =~= start);
    while i < es.len()
        invariant
            i <= es@.len(),
            paths_view(acc@) == start + files_below(es@.take(i as int), prefix@),
        decreases es@.len() - i,
    {
        let ghost acc0 = paths_view(acc@);
        let e = &es[i];
        assert(es@.take(i + 1).drop_last() =~= es@.take(i as int));
        assert(es@.take(i + 1).last() == *e);
        if !name_seen(es, i, &e.name) {
            let path = join_path_exec(prefix, &e.name);
            match &e.object {
                EntryObject::NotATree(_) => {
                    acc.push(path);
                    assert(paths_view(acc@) =~= acc0.push(path@));
                },
                EntryObject::Tree(t) => {
                    proof {
                        assert(decreases_to!(es@ => es@[i as int]));
                        assert(decreases_to!(es@[i as int] => es@[i as int].object));
                        assert(decreases_to!(es@[i as int].object => *t));
                        assert(decreases_to!(*t => t.entries));
                        assert(decreases_to!(t.entries => t.entries@));
                    }
                    push_files_below(&t.entries, &path, acc);
                },
            }
        }
        i = i + 1;
    }
    assert(es@.take(i as int) =~= es@);
}

/// Add the changed paths below two directories with entries `ls` and `rs`
/// at `prefix` (see `diff_entries`).
fn push_diff_entries(ls: &Vec<TreeEntry>, rs: &Vec<TreeEntry>, prefix: &Vec<u8>, acc: &mut Vec<Vec<u8>>)
    ensures
        paths_view(final(acc)@) == paths_view(old(acc)@) + diff_entries(ls@, rs@, prefix@),
    decreases ls@,
{
    let ghost start = paths_view(acc@);
    let mut i: usize = 0;
    assert(ls@.take(0) =~= Seq::<TreeEntry>::empty());
    assert(start + diff_left(ls@.take(0), rs@, prefix@) =~= start);
    while i < ls.len()
        invariant
            i <= ls@.len(),
            paths_view(acc@) == start + diff_left(ls@.take(i as int), rs@, prefix@),
        decreases ls@.len() - i,
    {
        let ghost acc0 = paths_view(acc@);
        let e = &ls[i];
        assert(ls@.take(i + 1).drop_last() =~= ls@.take(i as int));
        assert(ls@.take(i + 1).last() == *e);
        if !name_seen(ls, i, &e.name) {
            let path = join_path_exec(prefix, &e.name);
            match find_entry(rs, &e.name) {
                None => {
                    match &e.object {
                        EntryObject::NotATree(_) => {
                            acc.push(path);
                            assert(paths_view(acc@) =~= acc0.push(path@));
                        },
                        EntryObject::Tree(t) => {
                            push_files_below(&t.entries, &path, acc);
                        },
                    }
                },
                Some(j) => {
                    let r = &rs[j];
                    match (&e.object, &r.object) {
                        (EntryObject::NotATree(lo), EntryObject::NotATree(ro)) => {
                            if !(*lo == *ro && e.file_mode == r.file_mode) {
                                acc.push(path);
                                assert(paths_view(acc@) =~= acc0.push(path@));
                            } else {
                                assert(acc0 + Seq::<Seq<u8>>::empty() =~= acc0);
                            }
                        },
                        (EntryObject::NotATree(_), EntryObject::Tree(t)) => {
                            push_files_below(&t.entries, &path, acc);
                            let ghost acc1 = paths_view(acc@);
                            acc.push(path);
                            assert(paths_view(acc@) =~= acc1.push(path@));
                            assert(paths_view(acc@) =~= acc0 + files_below(t.entries@, path@).push(path@));
                        },
                        (EntryObject::Tree(t), EntryObject::NotATree(_)) => {
                            push_files_below(&t.entries, &path, acc);
                            let ghost acc1 = paths_view(acc@);
                            acc.push(path);
                            assert(paths_view(acc@) =~= acc1.push(path@));
                            assert(paths_view(acc@) =~= acc0 + files_below(t.entries@, path@).push(path@));
                        },
                        (EntryObject::Tree(lt), EntryObject::Tree(rt)) => {
                            if lt.oid == rt.oid {
                                if e.file_mode != r.file_mode {
                                    acc.push(path);
                                    assert(paths_view(acc@) =~= acc0.push(path@));
                                } else {
                                    assert(acc0 + Seq::<Seq<u8>>::empty() =~= acc0);
                                }
                            } else {
                                proof {
                                    assert(decreases_to!(ls@ => ls@[i as int]));
                                    assert(decreases_to!(ls@[i as int] => ls@[i as int].object));
                                    assert(decreases_to!(ls@[i as int].object => *lt));
                                    assert(decreases_to!(*lt => lt.entries));
                                    assert(decreases_to!(lt.entries => lt.entries@));
                                }
                                push_diff_entries(&lt.entries, &rt.entries, &path, acc);
                                let ghost acc1 = paths_view(acc@);
                                if e.file_mode != r.file_mode {
                                    acc.push(path);
                                    assert(paths_view(acc@) =~= acc1.push(path@));
                                } else {
                                    assert(acc1 + Seq::<Seq<u8>>::empty() =~= acc1);
                                }
                                assert(paths_view(acc@) =~= acc0 + (diff_entries(lt.entries@, rt.entries@, path@)
                                    + if_mode_changed(e.file_mode, r.file_mode, path@)));
                            }
                        },
                    }
                },
            }
        }
        i = i + 1;
    }
    assert(ls@.take(i as int) =~= ls@);
    let ghost mid = paths_view(acc@);
    let mut j: usize = 0;
    assert(rs@.take(0) =~= Seq::<TreeEntry>::empty());
    assert(mid + diff_right(ls@, rs@.take(0), prefix@) =~= mid);
    while j < rs.len()
        invariant
            j <= rs@.len(),
            mid == start + diff_left(ls@, rs@, prefix@),
            paths_view(acc@) == mid + diff_right(ls@, rs@.take(j as int), prefix@),
        decreases rs@.len() - j,
    {
        let ghost acc0 = paths_view(acc@);
        let e = &rs[j];
        assert(rs@.take(j + 1).drop_last() =~= rs@.take(j as int));
        assert(rs@.take(j + 1).last() == *e);
        let in_left = name_seen(ls, ls.len(), &e.name);
        assert(ls@.take(ls@.len() as int) =~= ls@);
        if !name_seen(rs, j, &e.name) && !in_left {
            let path = join_path_exec(prefix, &e.name);
            match &e.object {
                EntryObject::NotATree(_) => {
                    acc.push(path);
                    assert(paths_view(acc@) =~= acc0.push(path@));
                },
                EntryObject::Tree(t) => {
                    push_files_below(&t.entries, &path, acc);
                },
            }
        }
        j = j + 1;
    }
    assert(rs@.take(j as int) =~= rs@);
}

/// Add to `acc` every path under `current_path` that differs between the
/// trees `lhs` and `rhs` (a missing tree has no entries): a file whose
/// contents or mode changed, that was added or removed; every file of a
/// directory that was added or removed; a file that became a directory
/// or back, together with the files of the directory; a directory whose
/// mode alone changed. Directories whose contents changed are compared
/// entry by entry.
pub fn get_changed_paths_between_trees(
    acc: &mut Vec<Vec<u8>>,
    current_path: &Vec<u8>,
    lhs: Option<&TreeNode>,
    rhs: Option<&TreeNode>,
)
    ensures
        paths_view(final(acc)@) == paths_view(old(acc)@) + diff_entries(
            entries_of(lhs),
            entries_of(rhs),
            current_path@,
        ),
{
    let empty: Vec<TreeEntry> = Vec::new();
    let ls = match lhs {
        Some(t) => &t.entries,
        None => &empty,
    };
    let rs = match rhs {
        Some(t) => &t.entries,
        None => &empty,
    };
    assert(ls@ == entries_of(lhs));
    assert(rs@ == entries_of(rhs));
    push_diff_entries(ls, rs, current_path, acc);
}

} // verus!
