//! Rewritten commits: following a commit through the rewrites recorded in
//! the event log to its newest version.

use vstd::prelude::*;

use crate::eventlog::{
    classifications_for, commit_history, cursor_history, latest_event_spec, lemma_history_ids, lemma_history_prefix,
    EventClassification, EventCursor, EventReplayer, EventView,
};
use crate::oid::Oid;

verus! {

/// Every event position in a history as of cursor `c` comes before `c`.
pub proof fn lemma_latest_before_cursor(evs: Seq<EventView>, c: int, key: Seq<u8>)
    requires
        0 <= c <= evs.len(),
    ensures
        latest_event_spec(evs, c, key) matches Some(p) ==> 0 <= p < c,
{
    lemma_history_prefix(evs, key, c);
    lemma_history_ids(evs, key);
    let h = cursor_history(evs, c, key);
    if h.len() > 0 {
        assert(crate::eventlog::commit_history(evs, key)[h.len() - 1] == h.last());
    }
}

/// Whether all bytes of an object ID are zero.
pub open spec fn is_zero_oid(key: Seq<u8>) -> bool {
    forall|i: int| 0 <= i < key.len() ==> key[i] == 0
}

/// The newest version of the commit `key` as of cursor position `c`: if the
/// latest event that affected it rewrote it (from itself, non-zero) into
/// another commit, that commit's own newest version, or the commit itself
/// if it was not rewritten again later; the zero ID if it was rewritten
/// into nothing. `None` if the latest event did not rewrite the commit
/// away.
pub open spec fn rewrite_target_spec(evs: Seq<EventView>, c: int, key: Seq<u8>) -> Option<Seq<u8>>
    decreases c - (match latest_event_spec(evs, c, key) {
        Some(p) => p,
        None => 0,
    }),
{
    if 0 <= c <= evs.len() {
        match latest_event_spec(evs, c, key) {
            None => None,
            Some(p) => match evs[p] {
                EventView::Rewrite { old_oid, new_oid, .. } => {
                    if old_oid == key && !is_zero_oid(old_oid) && new_oid != key {
                        if is_zero_oid(new_oid) {
                            Some(new_oid)
                        } else {
                            proof {
                                lemma_latest_before_cursor(evs, c, new_oid);
                                lemma_latest_before_cursor(evs, c, key);
                            }
                            match latest_event_spec(evs, c, new_oid) {
                                Some(q) => if q > p {
                                    match rewrite_target_spec(evs, c, new_oid) {
                                        Some(t) => Some(t),
                                        None => Some(new_oid),
                                    }
                                } else {
                                    Some(new_oid)
                                },
                                None => Some(new_oid),
                            }
                        }
                    } else {
                        None
                    }
                },
                _ => None,
            },
        }
    } else {
        None
    }
}

/// For a rewritten commit, find the newest version of the commit, as
/// `rewrite_target_spec` describes. If a commit was rewritten into itself
/// through some chain of events, returns `None`.
pub fn find_rewrite_target(event_replayer: &EventReplayer, event_cursor: EventCursor, oid: Oid) -> (r: Option<Oid>)
    requires
        event_replayer.wf(),
        0 <= event_cursor.event_id <= event_replayer.recorded().len(),
    ensures
        match r {
            Some(t) => rewrite_target_spec(event_replayer.recorded(), event_cursor.event_id as int, oid@)
                == Some(t@),
            None => rewrite_target_spec(event_replayer.recorded(), event_cursor.event_id as int, oid@) is None,
        },
        r matches Some(t) ==> t@ != oid@,
        r is Some <==> rewritten_away(event_replayer.recorded(), event_cursor.event_id as int, oid@),
    decreases event_cursor.event_id - (match latest_event_spec(
        event_replayer.recorded(),
        event_cursor.event_id as int,
        oid@,
    ) {
        Some(p) => p,
        None => 0,
    }),
{
    let ghost evs = event_replayer.recorded();
    let ghost c = event_cursor.event_id as int;
    proof {
        lemma_latest_before_cursor(evs, c, oid@);
        lemma_rewrite_target_not_self(evs, c, oid@);
        lemma_rewrite_target_law(evs, c, oid@);
    }
    let p: usize = match event_replayer.cursor_latest_event_id(event_cursor, oid) {
        None => {
            return None;
        },
        Some(p) => p,
    };
    let event = &event_replayer.get_events()[p];
    match event {
        crate::eventlog::Event::RewriteEvent { old_commit_oid, new_commit_oid, .. } => {
            if *old_commit_oid == oid && !old_commit_oid.is_zero() && *new_commit_oid != oid {
                if new_commit_oid.is_zero() {
                    Some(*new_commit_oid)
                } else {
                    proof {
                        lemma_latest_before_cursor(evs, c, new_commit_oid@);
                    }
                    match event_replayer.cursor_latest_event_id(event_cursor, *new_commit_oid) {
                        Some(q) => {
                            if q > p {
                                match find_rewrite_target(event_replayer, event_cursor, *new_commit_oid) {
                                    Some(t) => Some(t),
                                    None => Some(*new_commit_oid),
                                }
                            } else {
                                Some(*new_commit_oid)
                            }
                        },
                        None => Some(*new_commit_oid),
                    }
                }
            } else {
                None
            }
        },
        _ => None,
    }
}

/// An event before the cursor that touches a commit is in its history: the
/// latest event of the commit comes no earlier.
proof fn lemma_touch_in_history(evs: Seq<EventView>, p: int, c: int, x: Seq<u8>)
    requires
        0 <= p < c <= evs.len(),
        classifications_for(evs[p], x).len() > 0,
    ensures
        latest_event_spec(evs, c, x) matches Some(q) && q >= p,
    decreases c,
{
    let tc = evs.take(c);
    assert(tc.drop_last() =~= evs.take(c - 1));
    assert(tc.last() == evs[c - 1]);
    let before = commit_history(evs.take(c - 1), x);
    let added = classifications_for(evs[c - 1], x).map_values(|k: EventClassification| (c - 1, k));
    assert(commit_history(tc, x) == before + added);
    if c - 1 == p {
        assert((before + added).last() == added.last());
    } else {
        lemma_touch_in_history(evs, p, c - 1, x);
        if added.len() > 0 {
            assert((before + added).last() == added.last());
        } else {
            assert(before + added =~= before);
        }
    }
}

/// The newest version of a commit is another commit: the search never
/// gives the commit itself (a chain of rewrites that comes back to it gives
/// `None`); it is the zero ID or a commit whose latest event comes no
/// earlier than the commit's own.
pub proof fn lemma_rewrite_target_not_self(evs: Seq<EventView>, c: int, key: Seq<u8>)
    requires
        0 <= c <= evs.len(),
    ensures
        rewrite_target_spec(evs, c, key) matches Some(t) ==> {
            &&& t != key
            &&& (is_zero_oid(t) || (latest_event_spec(evs, c, t) matches Some(qt) && latest_event_spec(
                evs,
                c,
                key,
            ) matches Some(pk) && qt >= pk))
        },
    decreases c - (match latest_event_spec(evs, c, key) {
        Some(p) => p,
        None => 0,
    }),
{
    lemma_latest_before_cursor(evs, c, key);
    if let Some(p) = latest_event_spec(evs, c, key) {
        if let EventView::Rewrite { old_oid, new_oid, .. } = evs[p] {
            if old_oid == key && !is_zero_oid(old_oid) && new_oid != key && !is_zero_oid(new_oid) {
                assert(classifications_for(evs[p], new_oid).len() > 0);
                lemma_touch_in_history(evs, p, c, new_oid);
                lemma_latest_before_cursor(evs, c, new_oid);
                let q = latest_event_spec(evs, c, new_oid)->0;
                if q > p {
                    lemma_rewrite_target_not_self(evs, c, new_oid);
                }
            }
        }
    }
}


/// Whether the latest event of `key` before cursor position `c` rewrote it
/// (a non-zero commit) into another commit, possibly the zero ID.
pub open spec fn rewritten_away(evs: Seq<EventView>, c: int, key: Seq<u8>) -> bool {
    latest_event_spec(evs, c, key) matches Some(p) && evs[p] matches EventView::Rewrite { old_oid, new_oid, .. }
        && old_oid == key && !is_zero_oid(key) && new_oid != key
}

/// What the newest version of a commit is, in terms of the commit's latest
/// event: there is one exactly when that event rewrote the commit away; a
/// commit rewritten into the zero ID (dropped) has the zero ID as its
/// newest version; a commit rewritten into another commit has that
/// commit's newest version, or that commit itself if it has none; and the
/// newest version is never rewritten away itself (it is the zero ID or
/// has no newer version).
pub proof fn lemma_rewrite_target_law(evs: Seq<EventView>, c: int, key: Seq<u8>)
    requires
        0 <= c <= evs.len(),
    ensures
        rewrite_target_spec(evs, c, key) is Some <==> rewritten_away(evs, c, key),
        latest_event_spec(evs, c, key) matches Some(p) ==> (evs[p] matches EventView::Rewrite {
            old_oid,
            new_oid,
            ..
        } ==> (old_oid == key && !is_zero_oid(key) && new_oid != key ==> {
            &&& is_zero_oid(new_oid) ==> rewrite_target_spec(evs, c, key) == Some(new_oid)
            &&& !is_zero_oid(new_oid) ==> rewrite_target_spec(evs, c, key) == match rewrite_target_spec(
                evs,
                c,
                new_oid,
            ) {
                Some(t) => Some(t),
                None => Some(new_oid),
            }
        })),
        rewrite_target_spec(evs, c, key) matches Some(t) ==> is_zero_oid(t) || rewrite_target_spec(evs, c, t) is None,
    decreases c - (match latest_event_spec(evs, c, key) {
        Some(p) => p,
        None => 0,
    }),
{
    lemma_latest_before_cursor(evs, c, key);
    if let Some(p) = latest_event_spec(evs, c, key) {
        if let EventView::Rewrite { old_oid, new_oid, .. } = evs[p] {
            if old_oid == key && !is_zero_oid(old_oid) && new_oid != key && !is_zero_oid(new_oid) {
                assert(classifications_for(evs[p], new_oid).len() > 0);
                lemma_touch_in_history(evs, p, c, new_oid);
                lemma_latest_before_cursor(evs, c, new_oid);
                let q = latest_event_spec(evs, c, new_oid)->0;
                if q > p {
                    lemma_rewrite_target_law(evs, c, new_oid);
                } else {
                    assert(q == p);
                    assert(rewrite_target_spec(evs, c, new_oid) is None);
                }
            }
        }
    }
}

} // verus!
