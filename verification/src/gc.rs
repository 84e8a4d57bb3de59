//! Keeping the commits that the user still works on from Git's garbage
//! collection: a reference under `refs/branchless/` for each of them, and
//! which of those references are no longer needed.

use vstd::prelude::*;

use crate::eventlog::{is_gc_ref, is_gc_ref_spec};
use crate::oid::{oid_hex, Oid};

verus! {

/// The name of the reference that keeps a commit reachable.
pub fn reachable_reference_name(commit_oid: Oid) -> (r: String)
    ensures
        r@ == "refs/branchless/"@ + oid_hex(commit_oid@),
{
    let mut name = "refs/branchless/".to_owned();
    name.append(commit_oid.to_hex().as_str());
    name
}

/// A reference of the repository: its name, and the commit it leads to,
/// if it leads to one.
#[derive(Debug)]
pub struct ReferenceTarget {
    pub name: String,
    pub commit_oid: Option<Oid>,
}

/// The names of the references among `refs` that only keep commits alive
/// for garbage collection, leading to commits outside `graph`, in order.
pub open spec fn dangling_spec(refs: Seq<ReferenceTarget>, graph: Seq<Seq<u8>>) -> Seq<Seq<char>>
    decreases refs.len(),
{
    if refs.len() == 0 {
        Seq::empty()
    } else {
        let prev = dangling_spec(refs.drop_last(), graph);
        let r = refs.last();
        match r.commit_oid {
            Some(oid) => if is_gc_ref_spec(r.name@) && !graph.contains(oid@) {
                prev.push(r.name@)
            } else {
                prev
            },
            None => prev,
        }
    }
}

/// The references to delete when collecting garbage: those under
/// `refs/branchless/` whose commit the smartlog (whose commits are
/// `graph`) no longer shows.
pub fn find_dangling_references(refs: &[ReferenceTarget], graph: &[Oid]) -> (r: Vec<String>)
    ensures
        r@.map_values(|s: String| s@) == dangling_spec(refs@, graph@.map_values(|o: Oid| o@)),
        r@.map_values(|s: String| s@) == refs@.filter(
            |x: ReferenceTarget| is_dangling_ref(x, graph@.map_values(|o: Oid| o@)),
        ).map_values(|x: ReferenceTarget| x.name@),
{
    let ghost gv = graph@.map_values(|o: Oid| o@);
    let mut result: Vec<String> = Vec::new();
    let mut i: usize = 0;
    while i < refs.len()
        invariant
            i <= refs@.len(),
            gv == graph@.map_values(|o: Oid| o@),
            result@.map_values(|s: String| s@) == dangling_spec(refs@.take(i as int), gv),
        decreases refs@.len() - i,
    {
        assert(refs@.take(i + 1).drop_last() =~= refs@.take(i as int));
        assert(refs@.take(i + 1).last() == refs@[i as int]);
        match refs[i].commit_oid {
            Some(oid) => {
                if is_gc_ref(refs[i].name.as_str()) {
                    let mut shown = false;
                    let mut j: usize = 0;
                    while j < graph.len()
                        invariant
                            j <= graph@.len(),
                            gv == graph@.map_values(|o: Oid| o@),
                            shown <==> exists|k: int| 0 <= k < j && gv[k] == oid@,
                        decreases graph@.len() - j,
                    {
                        assert(gv[j as int] == graph@[j as int]@);
                        if graph[j] == oid {
                            shown = true;
                        }
                        j = j + 1;
                    }
                    if !shown {
                        let ghost before = result@.map_values(|s: String| s@);
                        result.push(refs[i].name.clone());
                        assert(result@.map_values(|s: String| s@) =~= before.push(refs@[i as int].name@));
                    } else {
                        assert(gv.contains(oid@)) by {
                            let k = choose|k: int| 0 <= k < graph@.len() && gv[k] == oid@;
                            assert(gv[k] == oid@);
                        }
                    }
                }
            },
            None => {},
        }
        i = i + 1;
    }
    assert(refs@.take(refs@.len() as int) =~= refs@);
    proof {
        lemma_dangling_exact(refs@, gv);
    }
    result
}


/// Whether `r` is a reference under `refs/branchless/` that leads to a
/// commit outside `graph`.
pub open spec fn is_dangling_ref(r: ReferenceTarget, graph: Seq<Seq<u8>>) -> bool {
    r.commit_oid matches Some(oid) && is_gc_ref_spec(r.name@) && !graph.contains(oid@)
}

/// Each reference is judged on its own: the dangling references of a list
/// followed by another are those of the first, then those of the second.
pub proof fn lemma_dangling_append(a: Seq<ReferenceTarget>, b: Seq<ReferenceTarget>, graph: Seq<Seq<u8>>)
    ensures
        dangling_spec(a + b, graph) == dangling_spec(a, graph) + dangling_spec(b, graph),
    decreases b.len(),
{
    if b.len() == 0 {
        assert(a + b =~= a);
        assert(dangling_spec(a, graph) + dangling_spec(b, graph) =~= dangling_spec(a, graph));
    } else {
        lemma_dangling_append(a, b.drop_last(), graph);
        assert((a + b).drop_last() =~= a + b.drop_last());
        assert((a + b).last() == b.last());
        let x = dangling_spec(a, graph);
        let y = dangling_spec(b.drop_last(), graph);
        assert((x + y).push(b.last().name@) =~= x + y.push(b.last().name@));
    }
}

/// The references to delete are exactly the dangling ones: a name is in
/// the result if and only if a reference of that name under
/// `refs/branchless/` leads to a commit outside the graph; the result is
/// the names of those references, in the order of `refs`.
pub proof fn lemma_dangling_exact(refs: Seq<ReferenceTarget>, graph: Seq<Seq<u8>>)
    ensures
        forall|s: Seq<char>|
            #[trigger] dangling_spec(refs, graph).contains(s) <==> exists|i: int|
                0 <= i < refs.len() && is_dangling_ref(refs[i], graph) && refs[i].name@ == s,
        dangling_spec(refs, graph) == refs.filter(|r: ReferenceTarget| is_dangling_ref(r, graph)).map_values(
            |r: ReferenceTarget| r.name@,
        ),
    decreases refs.len(),
{
    let f = |r: ReferenceTarget| is_dangling_ref(r, graph);
    reveal(Seq::filter);
    if refs.len() == 0 {
        assert(refs.filter(f).map_values(|r: ReferenceTarget| r.name@) =~= Seq::<Seq<char>>::empty());
        assert forall|s: Seq<char>| !#[trigger] dangling_spec(refs, graph).contains(s) by {}
    } else {
        let pre = refs.drop_last();
        lemma_dangling_exact(pre, graph);
        let last = refs.last();
        assert(refs.filter(f) == if f(last) { pre.filter(f).push(last) } else { pre.filter(f) });
        let nm = |r: ReferenceTarget| r.name@;
        assert(pre.filter(f).push(last).map_values(nm) =~= pre.filter(f).map_values(nm).push(last.name@));
        assert forall|s: Seq<char>|
            #[trigger] dangling_spec(refs, graph).contains(s) <==> exists|i: int|
                0 <= i < refs.len() && is_dangling_ref(refs[i], graph) && refs[i].name@ == s by {
            let d = dangling_spec(pre, graph);
            if is_dangling_ref(last, graph) {
                assert(dangling_spec(refs, graph) == d.push(last.name@));
                if d.push(last.name@).contains(s) {
                    let k = choose|k: int| 0 <= k < d.len() + 1 && d.push(last.name@)[k] == s;
                    if k == d.len() {
                        assert(refs[refs.len() - 1] == last);
                    } else {
                        assert(d[k] == s);
                        assert(d.contains(s));
                        let i = choose|i: int| 0 <= i < pre.len() && is_dangling_ref(pre[i], graph) && pre[i].name@ == s;
                        assert(refs[i] == pre[i]);
                    }
                }
                if exists|i: int| 0 <= i < refs.len() && is_dangling_ref(refs[i], graph) && refs[i].name@ == s {
                    let i = choose|i: int| 0 <= i < refs.len() && is_dangling_ref(refs[i], graph) && refs[i].name@ == s;
                    if i == refs.len() - 1 {
                        assert(d.push(last.name@)[d.len() as int] == s);
                    } else {
                        assert(pre[i] == refs[i]);
                        assert(d.contains(s));
                        let k = choose|k: int| 0 <= k < d.len() && d[k] == s;
                        assert(d.push(last.name@)[k] == s);
                    }
                }
            } else {
                assert(dangling_spec(refs, graph) == d);
                if d.contains(s) {
                    let i = choose|i: int| 0 <= i < pre.len() && is_dangling_ref(pre[i], graph) && pre[i].name@ == s;
                    assert(refs[i] == pre[i]);
                }
                if exists|i: int| 0 <= i < refs.len() && is_dangling_ref(refs[i], graph) && refs[i].name@ == s {
                    let i = choose|i: int| 0 <= i < refs.len() && is_dangling_ref(refs[i], graph) && refs[i].name@ == s;
                    assert(i != refs.len() - 1);
                    assert(pre[i] == refs[i]);
                }
            }
        }
    }
}

} // verus!
