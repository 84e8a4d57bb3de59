//! Finding the commits of a rebase whose changes are already upstream:
//! which upstream commits are worth comparing by patch ID, and which
//! commits to skip.

use vstd::prelude::*;

use crate::oid::Oid;
use crate::plan::oids_view;

verus! {

/// The set of paths of a list.
pub open spec fn path_set(v: Seq<Vec<u8>>) -> Set<Seq<u8>> {
    v.map_values(|p: Vec<u8>| p@).to_set()
}

/// Whether two byte strings are equal.
fn bytes_equal(a: &Vec<u8>, b: &Vec<u8>) -> (r: bool)
    ensures
        r == (a@ == b@),
{
    if a.len() != b.len() {
        return false;
    }
    let mut i: usize = 0;
    while i < a.len()
        invariant
            i <= a@.len(),
            a@.len() == b@.len(),
            forall|j: int| 0 <= j < i ==> a@[j] == b@[j],
        decreases a@.len() - i,
    {
        if a[i] != b[i] {
            return false;
        }
        i = i + 1;
    }
    assert(a@ =~= b@);
    true
}

/// Whether `p` is among the paths `v`.
fn holds_path(v: &Vec<Vec<u8>>, p: &Vec<u8>) -> (r: bool)
    ensures
        r == path_set(v@).contains(p@),
{
    let ghost vv = v@.map_values(|q: Vec<u8>| q@);
    let mut i: usize = 0;
    while i < v.len()
        invariant
            i <= v@.len(),
            vv == v@.map_values(|q: Vec<u8>| q@),
            forall|j: int| 0 <= j < i ==> vv[j] != p@,
        decreases v@.len() - i,
    {
        if bytes_equal(&v[i], p) {
            assert(vv[i as int] == p@);
            return true;
        }
        i = i + 1;
    }
    false
}

/// Whether every path of `a` is among `b`.
fn paths_within(a: &Vec<Vec<u8>>, b: &Vec<Vec<u8>>) -> (r: bool)
    ensures
        r == path_set(a@).subset_of(path_set(b@)),
{
    let ghost av = a@.map_values(|q: Vec<u8>| q@);
    let mut i: usize = 0;
    while i < a.len()
        invariant
            i <= a@.len(),
            av == a@.map_values(|q: Vec<u8>| q@),
            forall|j: int| 0 <= j < i ==> path_set(b@).contains(#[trigger] av[j]),
        decreases a@.len() - i,
    {
        if !holds_path(b, &a[i]) {
            assert(path_set(a@).contains(av[i as int]));
            return false;
        }
        i = i + 1;
    }
    assert forall|x: Seq<u8>| path_set(a@).contains(x) implies path_set(b@).contains(x) by {
        let j = choose|j: int| 0 <= j < av.len() && av[j] == x;
    }
    true
}

/// Whether two lists hold the same paths.
fn same_paths(a: &Vec<Vec<u8>>, b: &Vec<Vec<u8>>) -> (r: bool)
    ensures
        r == (path_set(a@) == path_set(b@)),
{
    let ab = paths_within(a, b);
    let ba = paths_within(b, a);
    if ab && ba {
        assert(path_set(a@) =~= path_set(b@));
        true
    } else {
        false
    }
}

/// Whether an upstream commit is worth comparing by patch ID with the
/// commits to move: always if its touched paths are unknown; otherwise if
/// it touched the same paths as one of the commits to move.
pub open spec fn should_check_patch_id_spec(upstream: Option<Seq<Vec<u8>>>, local: Seq<Vec<Vec<u8>>>) -> bool {
    match upstream {
        None => true,
        Some(u) => exists|i: int| 0 <= i < local.len() && path_set(#[trigger] local[i]@) == path_set(u),
    }
}

/// Whether an upstream commit that touched `upstream_touched_paths` (if
/// known) is worth comparing by patch ID with commits to move that touched
/// `local_touched_paths`.
pub fn should_check_patch_id(
    upstream_touched_paths: &Option<Vec<Vec<u8>>>,
    local_touched_paths: &Vec<Vec<Vec<u8>>>,
) -> (r: bool)
    ensures
        r == should_check_patch_id_spec(
            match upstream_touched_paths {
                Some(u) => Some(u@),
                None => None,
            },
            local_touched_paths@,
        ),
{
    match upstream_touched_paths {
        None => true,
        Some(u) => {
            let mut i: usize = 0;
            while i < local_touched_paths.len()
                invariant
                    i <= local_touched_paths@.len(),
                    *upstream_touched_paths == Some(*u),
                    forall|j: int| 0 <= j < i ==> path_set(#[trigger] local_touched_paths@[j]@) != path_set(u@),
                decreases local_touched_paths@.len() - i,
            {
                if same_paths(&local_touched_paths[i], u) {
                    assert(path_set(local_touched_paths@[i as int]@) == path_set(u@));
                    assert(should_check_patch_id_spec(Some(u@), local_touched_paths@));
                    return true;
                }
                i = i + 1;
            }
            false
        },
    }
}

/// The commits to move whose patch ID is among the upstream patch IDs, in
/// order; a commit without a patch ID (a merge) is never among them.
pub open spec fn applied_upstream_spec(moving: Seq<(Oid, Option<Oid>)>, upstream: Seq<Seq<u8>>) -> Seq<Seq<u8>>
    decreases moving.len(),
{
    if moving.len() == 0 {
        Seq::empty()
    } else {
        let before = applied_upstream_spec(moving.drop_last(), upstream);
        match moving.last().1 {
            Some(p) => if upstream.contains(p@) {
                before.push(moving.last().0@)
            } else {
                before
            },
            None => before,
        }
    }
}

/// Whether `oid` is among `v`.
fn holds_oid(v: &[Oid], oid: &Oid) -> (r: bool)
    ensures
        r == oids_view(v@).contains(oid@),
{
    let mut i: usize = 0;
    while i < v.len()
        invariant
            i <= v@.len(),
            forall|j: int| 0 <= j < i ==> (#[trigger] v@[j])@ != oid@,
        decreases v@.len() - i,
    {
        if v[i] == *oid {
            assert(oids_view(v@)[i as int] == oid@);
            return true;
        }
        i = i + 1;
    }
    assert forall|j: int| 0 <= j < oids_view(v@).len() implies oids_view(v@)[j] != oid@ by {
        assert(oids_view(v@)[j] == v@[j]@);
    }
    false
}

/// The commits to move (each with its patch ID, if it has one) whose
/// changes are already upstream, as the upstream patch IDs show.
pub fn commits_applied_upstream(moving: &[(Oid, Option<Oid>)], upstream_patch_ids: &[Oid]) -> (r: Vec<Oid>)
    ensures
        oids_view(r@) == applied_upstream_spec(moving@, oids_view(upstream_patch_ids@)),
{
    let ghost up = oids_view(upstream_patch_ids@);
    let mut r: Vec<Oid> = Vec::new();
    let mut i: usize = 0;
    assert(moving@.take(0) =~= Seq::<(Oid, Option<Oid>)>::empty());
    assert(oids_view(r@) =~= Seq::<Seq<u8>>::empty());
    while i < moving.len()
        invariant
            i <= moving@.len(),
            up == oids_view(upstream_patch_ids@),
            oids_view(r@) == applied_upstream_spec(moving@.take(i as int), up),
        decreases moving@.len() - i,
    {
        assert(moving@.take(i + 1).drop_last() =~= moving@.take(i as int));
        assert(moving@.take(i + 1).last() == moving@[i as int]);
        let (commit, patch) = moving[i];
        match patch {
            Some(p) => {
                if holds_oid(upstream_patch_ids, &p) {
                    let ghost r0 = oids_view(r@);
                    r.push(commit);
                    assert(oids_view(r@) =~= r0.push(commit@));
                }
            },
            None => {},
        }
        i = i + 1;
    }
    assert(moving@.take(i as int) =~= moving@);
    r
}

} // verus!
