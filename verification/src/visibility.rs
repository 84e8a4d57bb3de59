//! How processing events changes the visibility of commits, as the event
//! replayer reports it.

use vstd::prelude::*;

use crate::eventlog::{
    classifications_for, commit_history, cursor_history, is_ignored, latest_event_spec, step, visibility_spec,
    CommitVisibility, EventClassification, EventView,
};

verus! {

/// Processing an event on top of the recorded events `evs`: either nothing
/// is recorded, or one event that classifies each commit as `e` does.
proof fn lemma_step_shape(evs: Seq<EventView>, e: EventView)
    ensures
        step(evs, e) == evs || exists|f: EventView|
            step(evs, e) == evs.push(f) && forall|key: Seq<u8>|
                #[trigger] classifications_for(f, key) == classifications_for(e, key),
        !(e is RefUpdate) ==> step(evs, e) == evs.push(e),
{
    if !is_ignored(e) {
        match crate::eventlog::fixed_event(evs, e) {
            Some(f) => {
                assert(forall|key: Seq<u8>| #[trigger] classifications_for(f, key) == classifications_for(e, key));
            },
            None => {},
        }
    }
}

/// The history of a commit after one more recorded event.
proof fn lemma_history_push(evs: Seq<EventView>, f: EventView, key: Seq<u8>)
    ensures
        commit_history(evs.push(f), key) == commit_history(evs, key) + classifications_for(f, key).map_values(
            |c: EventClassification| (evs.len() as int, c),
        ),
{
    assert(evs.push(f).drop_last() =~= evs);
}

/// Hiding a commit makes it hidden as of the newest cursor; unhiding it or
/// committing it makes it visible; rewriting a commit makes the new
/// version visible and, unless it is the same commit, the old one hidden.
pub proof fn lemma_event_sets_visibility(evs: Seq<EventView>, e: EventView)
    ensures
        ({
            let after = step(evs, e);
            let newest = after.len() as int;
            &&& e matches EventView::Hide { oid, .. } ==> visibility_spec(after, newest, oid) == Some(
                CommitVisibility::Hidden,
            )
            &&& e matches EventView::Unhide { oid, .. } ==> visibility_spec(after, newest, oid) == Some(
                CommitVisibility::Visible,
            )
            &&& e matches EventView::Commit { oid, .. } ==> visibility_spec(after, newest, oid) == Some(
                CommitVisibility::Visible,
            )
            &&& e matches EventView::Rewrite { old_oid, new_oid, .. } ==> {
                &&& visibility_spec(after, newest, new_oid) == Some(CommitVisibility::Visible)
                &&& old_oid != new_oid ==> visibility_spec(after, newest, old_oid) == Some(
                    CommitVisibility::Hidden,
                )
            }
        }),
{
    lemma_step_shape(evs, e);
    let after = step(evs, e);
    assert(after.take(after.len() as int) =~= after);
    match e {
        EventView::Hide { oid, .. } => {
            lemma_history_push(evs, e, oid);
        },
        EventView::Unhide { oid, .. } => {
            lemma_history_push(evs, e, oid);
        },
        EventView::Commit { oid, .. } => {
            lemma_history_push(evs, e, oid);
        },
        EventView::Rewrite { old_oid, new_oid, .. } => {
            lemma_history_push(evs, e, old_oid);
            lemma_history_push(evs, e, new_oid);
            if old_oid != new_oid {
                assert(classifications_for(e, old_oid) =~= seq![EventClassification::Hide]);
            }
            assert(classifications_for(e, new_oid).last() == EventClassification::Show);
        },
        EventView::RefUpdate { .. } => {},
    }
}

/// An event that does not touch a commit (a reference update, or an event
/// about other commits) leaves that commit's visibility as of the newest
/// cursor as it was; so does an update of a reference that is not worth
/// recording, which records nothing at all.
pub proof fn lemma_other_events_keep_visibility(evs: Seq<EventView>, e: EventView, key: Seq<u8>)
    requires
        classifications_for(e, key).len() == 0,
    ensures
        visibility_spec(step(evs, e), step(evs, e).len() as int, key) == visibility_spec(
            evs,
            evs.len() as int,
            key,
        ),
        is_ignored(e) ==> step(evs, e) == evs,
{
    lemma_step_shape(evs, e);
    let after = step(evs, e);
    assert(after.take(after.len() as int) =~= after);
    assert(evs.take(evs.len() as int) =~= evs);
    if after != evs {
        let f = choose|f: EventView|
            step(evs, e) == evs.push(f) && forall|k: Seq<u8>|
                #[trigger] classifications_for(f, k) == classifications_for(e, k);
        assert(classifications_for(f, key) == classifications_for(e, key));
        lemma_history_push(evs, f, key);
        assert(commit_history(after, key) =~= commit_history(evs, key));
    }
}

/// Processing an event never changes what a cursor in the past sees: the
/// visibility of every commit as of a position up to the number of
/// recorded events stays as it was.
pub proof fn lemma_past_unchanged(evs: Seq<EventView>, e: EventView, c: int, key: Seq<u8>)
    requires
        0 <= c <= evs.len(),
    ensures
        visibility_spec(step(evs, e), c, key) == visibility_spec(evs, c, key),
        cursor_history(step(evs, e), c, key) == cursor_history(evs, c, key),
{
    lemma_step_shape(evs, e);
    let after = step(evs, e);
    if after != evs {
        let f = choose|f: EventView|
            step(evs, e) == evs.push(f) && forall|k: Seq<u8>|
                #[trigger] classifications_for(f, k) == classifications_for(e, k);
        assert(after.take(c) =~= evs.take(c));
    }
}

/// An event about commits (a commit, hide, unhide or rewrite) is always
/// recorded, as it is, and becomes the latest event of each commit it
/// touches as of the newest cursor.
pub proof fn lemma_event_is_latest(evs: Seq<EventView>, e: EventView, key: Seq<u8>)
    requires
        !(e is RefUpdate),
        classifications_for(e, key).len() > 0,
    ensures
        step(evs, e) == evs.push(e),
        latest_event_spec(step(evs, e), step(evs, e).len() as int, key) == Some(evs.len() as int),
{
    lemma_step_shape(evs, e);
    let after = step(evs, e);
    assert(after.take(after.len() as int) =~= after);
    lemma_history_push(evs, e, key);
}

/// What processing an event records nothing for: an update of a reference
/// that is not worth recording, and the deletion of a reference right after
/// the same deletion (same reference, same message). So processing such a
/// deletion twice has the effect of processing it once.
pub proof fn lemma_dropped_events(evs: Seq<EventView>, e: EventView)
    ensures
        is_ignored(e) ==> step(evs, e) == evs,
        ({
            &&& !is_ignored(e)
            &&& e matches EventView::RefUpdate { ref_name, new_ref: None, message, .. }
            &&& evs.len() > 0
            &&& evs.last() matches EventView::RefUpdate { ref_name: last_name, new_ref: None, message: last_message, .. }
            &&& last_name == ref_name
            &&& last_message == message
        }) ==> step(evs, e) == evs,
        (e matches EventView::RefUpdate { new_ref: None, .. }) ==> step(step(evs, e), e) == step(evs, e),
{
}

} // verus!
