//! Undoing: the events that reverse the events recorded since a point in
//! time, and what applying each of them takes.

use vstd::prelude::*;

use crate::eventlog::{
    advance_by_tx_spec, clamp, classifications_for, clone_opt_string, commit_history, events_view, opt_view,
    visibility_spec, CommitVisibility, Event, EventClassification, EventCursor, EventReplayer, EventTransactionId,
    EventView,
};
use crate::text::{chars_eq, str_chars};

verus! {

/// Whether an event moves `HEAD`.
pub open spec fn is_head_update(e: EventView) -> bool {
    match e {
        EventView::RefUpdate { ref_name, .. } => ref_name == "HEAD"@,
        _ => false,
    }
}

/// The event that undoes `e`, stamped with the given time and transaction:
/// a commit or an unhide is undone by hiding the commit, a hide by
/// unhiding it, a rewrite by the rewrite back, and a reference update by
/// the update back (without a message).
pub open spec fn inverse_spec(e: EventView, timestamp: u64, tx: isize) -> EventView {
    match e {
        EventView::Commit { oid, .. } => EventView::Hide { timestamp, tx, oid },
        EventView::Unhide { oid, .. } => EventView::Hide { timestamp, tx, oid },
        EventView::Hide { oid, .. } => EventView::Unhide { timestamp, tx, oid },
        EventView::Rewrite { old_oid, new_oid, .. } => EventView::Rewrite {
            timestamp,
            tx,
            old_oid: new_oid,
            new_oid: old_oid,
        },
        EventView::RefUpdate { ref_name, old_ref, new_ref, .. } => EventView::RefUpdate {
            timestamp,
            tx,
            ref_name,
            old_ref: new_ref,
            new_ref: old_ref,
            message: None,
        },
    }
}

/// The event that undoes `event`.
pub fn inverse_event(event: Event, timestamp: u64, event_tx_id: EventTransactionId) -> (r: Event)
    ensures
        r@ == inverse_spec(event@, timestamp, event_tx_id.0),
{
    match event {
        Event::CommitEvent { commit_oid, .. } => Event::HideEvent { timestamp, event_tx_id, commit_oid },
        Event::UnhideEvent { commit_oid, .. } => Event::HideEvent { timestamp, event_tx_id, commit_oid },
        Event::HideEvent { commit_oid, .. } => Event::UnhideEvent { timestamp, event_tx_id, commit_oid },
        Event::RewriteEvent { old_commit_oid, new_commit_oid, .. } => Event::RewriteEvent {
            timestamp,
            event_tx_id,
            old_commit_oid: new_commit_oid,
            new_commit_oid: old_commit_oid,
        },
        Event::RefUpdateEvent { ref_name, old_ref, new_ref, .. } => Event::RefUpdateEvent {
            timestamp,
            event_tx_id,
            ref_name,
            old_ref: new_ref,
            new_ref: old_ref,
            message: None,
        },
    }
}

/// Whether an event moves `HEAD`.
pub fn is_head_update_event(e: &Event) -> (r: bool)
    ensures
        r == is_head_update(e@),
{
    match e {
        Event::RefUpdateEvent { ref_name, .. } => {
            let name = str_chars(ref_name.as_str());
            chars_eq(name.as_slice(), str_chars("HEAD").as_slice())
        },
        _ => false,
    }
}

/// The events `evs` with all `HEAD` updates but the last one dropped,
/// scanning from the end; `seen` says whether a `HEAD` update after them
/// was already kept.
pub open spec fn optimize_spec(evs: Seq<EventView>, seen: bool) -> Seq<EventView>
    decreases evs.len(),
{
    if evs.len() == 0 {
        Seq::empty()
    } else if is_head_update(evs.last()) {
        if seen {
            optimize_spec(evs.drop_last(), true)
        } else {
            optimize_spec(evs.drop_last(), true).push(evs.last())
        }
    } else {
        optimize_spec(evs.drop_last(), seen).push(evs.last())
    }
}

/// Keep only the last of the `HEAD` updates among `events`: checking out
/// the intermediate locations would be wasted work.
pub fn optimize_inverse_events(events: Vec<Event>) -> (r: Vec<Event>)
    ensures
        events_view(r@) == optimize_spec(events_view(events@), false),
{
    let ghost all = events_view(events@);
    let mut events = events;
    let mut kept_reversed: Vec<Event> = Vec::new();
    let mut seen_checkout: bool = false;
    while events.len() > 0
        invariant
            events_view(events@) == all.take(events@.len() as int),
            events@.len() <= all.len(),
            optimize_spec(all, false) == optimize_spec(events_view(events@), seen_checkout) + events_view(
                kept_reversed@,
            ).reverse(),
        decreases events@.len(),
    {
        let ghost before = events_view(events@);
        let event = events.pop().unwrap();
        assert(events_view(events@) =~= before.drop_last());
        assert(before.last() == event@);
        assert(events_view(events@) =~= all.take(events@.len() as int));
        let ghost kept_before = events_view(kept_reversed@);
        if is_head_update_event(&event) {
            if !seen_checkout {
                seen_checkout = true;
                kept_reversed.push(event);
                assert(events_view(kept_reversed@) =~= kept_before.push(event@));
                assert(kept_before.push(event@).reverse() =~= seq![event@] + kept_before.reverse());
                assert(optimize_spec(before, false) == optimize_spec(before.drop_last(), true).push(event@));
            }
        } else {
            kept_reversed.push(event);
            assert(events_view(kept_reversed@) =~= kept_before.push(event@));
            assert(kept_before.push(event@).reverse() =~= seq![event@] + kept_before.reverse());
        }
    }
    assert(events_view(events@) =~= Seq::<EventView>::empty());
    let mut result: Vec<Event> = Vec::new();
    let ghost kr = events_view(kept_reversed@);
    assert(optimize_spec(all, false) =~= kr.reverse());
    while kept_reversed.len() > 0
        invariant
            events_view(result@) + events_view(kept_reversed@).reverse() == kr.reverse(),
        decreases kept_reversed@.len(),
    {
        let ghost before = events_view(kept_reversed@);
        let event = kept_reversed.pop().unwrap();
        assert(events_view(kept_reversed@) =~= before.drop_last());
        let ghost res_before = events_view(result@);
        result.push(event);
        assert(events_view(result@) =~= res_before.push(event@));
        assert(before.reverse() =~= seq![event@] + before.drop_last().reverse());
        assert(res_before.push(event@) + before.drop_last().reverse() =~= res_before + before.reverse());
    }
    assert(events_view(kept_reversed@).reverse() =~= Seq::<EventView>::empty());
    assert(events_view(result@) =~= kr.reverse());
    result
}

/// Whether an event points `HEAD` somewhere from no location at all (as
/// when the repository was created): there is nothing to undo there.
pub open spec fn is_initial_checkout(e: EventView) -> bool {
    match e {
        EventView::RefUpdate { ref_name, old_ref: None, .. } => ref_name == "HEAD"@,
        _ => false,
    }
}

/// The inverses of the events `evs`, latest event first, stamped with the
/// given time and transaction; initial checkouts are left out.
pub open spec fn inverses_spec(evs: Seq<EventView>, timestamp: u64, tx: isize) -> Seq<EventView>
    decreases evs.len(),
{
    if evs.len() == 0 {
        Seq::empty()
    } else {
        let rest = inverses_spec(evs.drop_last(), timestamp, tx);
        if is_initial_checkout(evs.last()) {
            rest
        } else {
            seq![inverse_spec(evs.last(), timestamp, tx)] + rest
        }
    }
}

/// Whether an event points `HEAD` somewhere from no location.
fn is_initial_checkout_event(e: &Event) -> (r: bool)
    ensures
        r == is_initial_checkout(e@),
{
    match e {
        Event::RefUpdateEvent { old_ref: None, .. } => is_head_update_event(e),
        _ => false,
    }
}

/// The events that undo `events`, in the order in which to apply them:
/// the latest event is undone first.
pub fn inverse_events(events: &[Event], timestamp: u64, event_tx_id: EventTransactionId) -> (r: Vec<Event>)
    ensures
        events_view(r@) == inverses_spec(events_view(events@), timestamp, event_tx_id.0),
{
    let ghost all = events_view(events@);
    let mut result: Vec<Event> = Vec::new();
    let mut i: usize = events.len();
    assert(all.take(i as int) =~= all);
    assert(events_view(result@) =~= Seq::<EventView>::empty());
    assert(Seq::<EventView>::empty() + inverses_spec(all, timestamp, event_tx_id.0) =~= inverses_spec(all, timestamp, event_tx_id.0));
    while i > 0
        invariant
            i <= events@.len(),
            all == events_view(events@),
            inverses_spec(all, timestamp, event_tx_id.0) == events_view(result@) + inverses_spec(
                all.take(i as int),
                timestamp,
                event_tx_id.0,
            ),
        decreases i,
    {
        i = i - 1;
        let ghost before = events_view(result@);
        assert(all.take(i + 1).drop_last() =~= all.take(i as int));
        assert(all.take(i + 1).last() == events@[i as int]@);
        if !is_initial_checkout_event(&events[i]) {
            let inverse = inverse_event(events[i].clone(), timestamp, event_tx_id);
            result.push(inverse);
            assert(events_view(result@) =~= before.push(inverse@));
            assert(before.push(inverse@) + inverses_spec(all.take(i as int), timestamp, event_tx_id.0)
                =~= before + (seq![inverse@] + inverses_spec(all.take(i as int), timestamp, event_tx_id.0)));
        }
    }
    assert(all.take(0) =~= Seq::<EventView>::empty());
    assert(events_view(result@) + Seq::<EventView>::empty() =~= events_view(result@));
    result
}

/// The `HEAD` updates among `s`, in order.
pub open spec fn head_updates(s: Seq<EventView>) -> Seq<EventView>
    decreases s.len(),
{
    if s.len() == 0 {
        Seq::empty()
    } else if is_head_update(s.last()) {
        head_updates(s.drop_last()).push(s.last())
    } else {
        head_updates(s.drop_last())
    }
}

/// The events among `s` that do not move `HEAD`, in order.
pub open spec fn other_updates(s: Seq<EventView>) -> Seq<EventView>
    decreases s.len(),
{
    if s.len() == 0 {
        Seq::empty()
    } else if is_head_update(s.last()) {
        other_updates(s.drop_last())
    } else {
        other_updates(s.drop_last()).push(s.last())
    }
}

/// The events `s` with the `HEAD` updates moved to the front, each group
/// keeping its order.
pub open spec fn checkouts_first_spec(s: Seq<EventView>) -> Seq<EventView> {
    head_updates(s) + other_updates(s)
}

/// Move the checkouts in front of the other events, keeping the order
/// within each group. Were a reference that `HEAD` points to symbolically
/// updated first, the working copy would look dirty to Git.
pub fn move_checkouts_first(events: Vec<Event>) -> (r: Vec<Event>)
    ensures
        events_view(r@) == checkouts_first_spec(events_view(events@)),
{
    let ghost all = events_view(events@);
    let mut heads: Vec<Event> = Vec::new();
    let mut others: Vec<Event> = Vec::new();
    let mut i: usize = 0;
    while i < events.len()
        invariant
            i <= events@.len(),
            all == events_view(events@),
            events_view(heads@) == head_updates(all.take(i as int)),
            events_view(others@) == other_updates(all.take(i as int)),
        decreases events@.len() - i,
    {
        let e = events[i].clone();
        assert(all.take(i + 1).drop_last() =~= all.take(i as int));
        assert(all.take(i + 1).last() == e@);
        if is_head_update_event(&e) {
            let ghost before = events_view(heads@);
            heads.push(e);
            assert(events_view(heads@) =~= before.push(all[i as int]));
        } else {
            let ghost before = events_view(others@);
            others.push(e);
            assert(events_view(others@) =~= before.push(all[i as int]));
        }
        i = i + 1;
    }
    assert(all.take(events@.len() as int) =~= all);
    let ghost h = heads@;
    let ghost o = others@;
    heads.append(&mut others);
    assert(events_view(heads@) =~= events_view(h) + events_view(o));
    heads
}

/// The events that undo `events`, in the order in which to apply them:
/// inverses latest first, only the last of the checkouts kept, and
/// checkouts before everything else.
pub open spec fn undo_plan_spec(evs: Seq<EventView>, timestamp: u64, tx: isize) -> Seq<EventView> {
    checkouts_first_spec(optimize_spec(inverses_spec(evs, timestamp, tx), false))
}

/// The events that undo `events` (the events since the point in time to go
/// back to), stamped with the given time and transaction, in the order in
/// which to apply them.
pub fn undo_plan(events: &[Event], timestamp: u64, event_tx_id: EventTransactionId) -> (r: Vec<Event>)
    ensures
        events_view(r@) == undo_plan_spec(events_view(events@), timestamp, event_tx_id.0),
{
    let inverses = inverse_events(events, timestamp, event_tx_id);
    let optimized = optimize_inverse_events(inverses);
    move_checkouts_first(optimized)
}

/// What applying one undo event takes.
#[derive(Debug, PartialEq, Eq)]
pub enum UndoAction {
    /// Check out the location, detaching `HEAD`; the checkout records its
    /// own events through the hooks.
    CheckOut { target: String },
    /// The event has no effect.
    Nothing,
    /// Delete the reference, if it still exists.
    DeleteReference { ref_name: String },
    /// Create the reference, or move it, to point at the target.
    SetReference { ref_name: String, target: String },
    /// Record the event itself in the event log.
    RecordEvent,
}

/// How to apply the undo event `event`: a `HEAD` update with a target is a
/// checkout; another reference update without a target deletes the
/// reference (or does nothing, if it had no referent before either), one
/// with a target sets it; commit, hide, unhide and rewrite events are
/// recorded as they are.
pub fn undo_action(event: &Event) -> (r: UndoAction)
    ensures
        match event@ {
            EventView::RefUpdate { ref_name, old_ref, new_ref, .. } => {
                if ref_name == "HEAD"@ && new_ref is Some {
                    r matches UndoAction::CheckOut { target } && target@ == new_ref->0
                } else if new_ref is None {
                    if old_ref is None {
                        r is Nothing
                    } else {
                        r matches UndoAction::DeleteReference { ref_name: n } && n@ == ref_name
                    }
                } else {
                    r matches UndoAction::SetReference { ref_name: n, target } && n@ == ref_name
                        && target@ == new_ref->0
                }
            },
            _ => r is RecordEvent,
        },
{
    let is_head = is_head_update_event(event);
    match event {
        Event::RefUpdateEvent { ref_name, old_ref, new_ref, .. } => match new_ref {
            Some(target) => {
                if is_head {
                    UndoAction::CheckOut { target: target.clone() }
                } else {
                    UndoAction::SetReference { ref_name: ref_name.clone(), target: target.clone() }
                }
            },
            None => match old_ref {
                None => UndoAction::Nothing,
                Some(_) => UndoAction::DeleteReference { ref_name: ref_name.clone() },
            },
        },
        _ => UndoAction::RecordEvent,
    }
}

/// How the events `evs` classify the commit `key`, in order, without the
/// positions of the events.
pub open spec fn classifications(evs: Seq<EventView>, key: Seq<u8>) -> Seq<EventClassification>
    decreases evs.len(),
{
    if evs.len() == 0 {
        Seq::empty()
    } else {
        classifications(evs.drop_last(), key) + classifications_for(evs.last(), key)
    }
}

/// A commit's history holds the classifications of the events, in order.
proof fn lemma_history_classifications(evs: Seq<EventView>, key: Seq<u8>)
    ensures
        commit_history(evs, key).len() == classifications(evs, key).len(),
        forall|i: int|
            0 <= i < commit_history(evs, key).len() ==> (#[trigger] commit_history(evs, key)[i]).1
                == classifications(evs, key)[i],
    decreases evs.len(),
{
    if evs.len() > 0 {
        lemma_history_classifications(evs.drop_last(), key);
        let h0 = commit_history(evs.drop_last(), key);
        let h = commit_history(evs, key);
        let c = classifications(evs, key);
        assert forall|i: int| 0 <= i < h.len() implies (#[trigger] h[i]).1 == c[i] by {
            if i < h0.len() {
                assert(h[i] == h0[i]);
            }
        }
    }
}

/// The classifications of two sequences of events, one after the other.
proof fn lemma_classifications_append(a: Seq<EventView>, b: Seq<EventView>, key: Seq<u8>)
    ensures
        classifications(a + b, key) == classifications(a, key) + classifications(b, key),
    decreases b.len(),
{
    if b.len() == 0 {
        assert(a + b =~= a);
        assert(classifications(a, key) + Seq::empty() =~= classifications(a, key));
    } else {
        lemma_classifications_append(a, b.drop_last(), key);
        assert((a + b).drop_last() =~= a + b.drop_last());
        assert((a + b).last() == b.last());
        assert(classifications(a, key) + classifications(b.drop_last(), key) + classifications_for(
            b.last(),
            key,
        ) =~= classifications(a, key) + (classifications(b.drop_last(), key) + classifications_for(
            b.last(),
            key,
        )));
    }
}

/// Dropping `HEAD` updates changes no commit's classifications.
proof fn lemma_optimize_classifications(evs: Seq<EventView>, seen: bool, key: Seq<u8>)
    ensures
        classifications(optimize_spec(evs, seen), key) == classifications(evs, key),
    decreases evs.len(),
{
    if evs.len() > 0 {
        lemma_optimize_classifications(evs.drop_last(), true, key);
        lemma_optimize_classifications(evs.drop_last(), seen, key);
        let o = optimize_spec(evs, seen);
        if is_head_update(evs.last()) {
            assert(classifications_for(evs.last(), key) =~= Seq::<EventClassification>::empty());
            assert(classifications(evs.drop_last(), key) + Seq::empty() =~= classifications(evs.drop_last(), key));
            if !seen {
                let o0 = optimize_spec(evs.drop_last(), true);
                assert(o.drop_last() =~= o0);
                assert(classifications(o0, key) + Seq::empty() =~= classifications(o0, key));
            }
        } else {
            let o0 = optimize_spec(evs.drop_last(), seen);
            assert(o.drop_last() =~= o0);
        }
    }
}

/// The `HEAD` updates classify no commit; the other events classify the
/// commits as all of the events do.
proof fn lemma_partition_classifications(evs: Seq<EventView>, key: Seq<u8>)
    ensures
        classifications(head_updates(evs), key) == Seq::<EventClassification>::empty(),
        classifications(other_updates(evs), key) == classifications(evs, key),
    decreases evs.len(),
{
    if evs.len() > 0 {
        lemma_partition_classifications(evs.drop_last(), key);
        if is_head_update(evs.last()) {
            assert(classifications_for(evs.last(), key) =~= Seq::<EventClassification>::empty());
            assert(head_updates(evs).drop_last() =~= head_updates(evs.drop_last()));
            assert(Seq::<EventClassification>::empty() + Seq::empty() =~= Seq::<EventClassification>::empty());
            assert(classifications(evs.drop_last(), key) + Seq::empty() =~= classifications(evs.drop_last(), key));
        } else {
            assert(other_updates(evs).drop_last() =~= other_updates(evs.drop_last()));
        }
    }
}

/// The opposite classification.
pub open spec fn flip(c: EventClassification) -> EventClassification {
    match c {
        EventClassification::Show => EventClassification::Hide,
        EventClassification::Hide => EventClassification::Show,
    }
}

/// The inverses of events, latest first, classify a commit in the end the
/// opposite way from how the first of the events classified it.
proof fn lemma_inverses_classifications(evs: Seq<EventView>, timestamp: u64, tx: isize, key: Seq<u8>)
    ensures
        (classifications(inverses_spec(evs, timestamp, tx), key).len() == 0) == (classifications(
            evs,
            key,
        ).len() == 0),
        classifications(evs, key).len() > 0 ==> classifications(inverses_spec(evs, timestamp, tx), key).last()
            == flip(classifications(evs, key)[0]),
    decreases evs.len(),
{
    if evs.len() > 0 {
        let l = evs.last();
        let rest = evs.drop_last();
        lemma_inverses_classifications(rest, timestamp, tx, key);
        let inv_rest = inverses_spec(rest, timestamp, tx);
        let c_rest = classifications(rest, key);
        let c_l = classifications_for(l, key);
        if is_initial_checkout(l) {
            assert(c_l =~= Seq::<EventClassification>::empty());
            assert(c_rest + c_l =~= c_rest);
        } else {
            let i = inverse_spec(l, timestamp, tx);
            lemma_classifications_append(seq![i], inv_rest, key);
            assert(seq![i].drop_last() =~= Seq::<EventView>::empty());
            assert(seq![i].last() == i);
            assert(classifications(Seq::<EventView>::empty(), key) == Seq::<EventClassification>::empty());
            assert(Seq::<EventClassification>::empty() + classifications_for(i, key) =~= classifications_for(i, key));
            assert(classifications(seq![i], key) =~= classifications_for(i, key));
            let c_i = classifications_for(i, key);
            assert((c_i.len() == 0) == (c_l.len() == 0) && (c_l.len() > 0 ==> c_i.last() == flip(c_l[0])));
            if c_rest.len() > 0 {
                assert((c_rest + c_l)[0] == c_rest[0]);
            } else {
                assert(c_rest + c_l =~= c_l);
                assert(c_i + classifications(inv_rest, key) =~= c_i);
            }
        }
    }
}

/// Undo restores visibility. Append to the log the events that undo the
/// events since cursor position `c`: a commit that no event since `c`
/// touched keeps the visibility it had at `c`; any other commit ends up
/// hidden if the first event since `c` that touched it showed it, visible
/// if that event hid it. So a commit whose visibility that first event
/// changed is back to its visibility at `c`.
pub proof fn lemma_undo_restores_visibility(
    evs: Seq<EventView>,
    c: int,
    key: Seq<u8>,
    timestamp: u64,
    tx: isize,
)
    requires
        0 <= c <= evs.len(),
    ensures
        ({
            let since = classifications(evs.skip(c), key);
            let after = evs + undo_plan_spec(evs.skip(c), timestamp, tx);
            &&& visibility_spec(after, after.len() as int, key) == if since.len() == 0 {
                visibility_spec(evs, c, key)
            } else if since[0] == EventClassification::Show {
                Some(CommitVisibility::Hidden)
            } else {
                Some(CommitVisibility::Visible)
            }
            &&& (visibility_spec(evs, c, key) matches Some(v) && since.len() > 0 && since[0] != (
            match v {
                CommitVisibility::Visible => EventClassification::Show,
                CommitVisibility::Hidden => EventClassification::Hide,
            })) ==> visibility_spec(after, after.len() as int, key) == visibility_spec(evs, c, key)
        }),
{
    let since_evs = evs.skip(c);
    let plan = undo_plan_spec(since_evs, timestamp, tx);
    let inv = inverses_spec(since_evs, timestamp, tx);
    let opt = optimize_spec(inv, false);
    let after = evs + plan;
    lemma_inverses_classifications(since_evs, timestamp, tx, key);
    lemma_optimize_classifications(inv, false, key);
    lemma_partition_classifications(opt, key);
    lemma_classifications_append(head_updates(opt), other_updates(opt), key);
    assert(classifications(plan, key) =~= classifications(inv, key));
    lemma_classifications_append(evs, plan, key);
    assert(evs =~= evs.take(c) + since_evs);
    lemma_classifications_append(evs.take(c), since_evs, key);
    assert(after.take(after.len() as int) =~= after);
    lemma_history_classifications(after, key);
    lemma_history_classifications(evs.take(c), key);
    let ca = classifications(after, key);
    let cb = classifications(evs.take(c), key);
    let cs = classifications(since_evs, key);
    let cp = classifications(plan, key);
    if cs.len() == 0 {
        assert(cp.len() == 0);
        assert(ca =~= cb + cs);
        assert(cb + cs =~= cb);
        if cb.len() > 0 {
            assert(commit_history(after, key).last().1 == ca.last());
            assert(commit_history(evs.take(c), key).last().1 == cb.last());
        }
    } else {
        assert(cp.len() > 0);
        assert(ca.last() == cp.last());
        assert(commit_history(after, key).last().1 == ca.last());
        if cb.len() > 0 {
            assert(commit_history(evs.take(c), key).last().1 == cb.last());
        }
    }
}

proof fn lemma_optimize_heads(evs: Seq<EventView>, seen: bool)
    ensures
        other_updates(optimize_spec(evs, seen)) == other_updates(evs),
        head_updates(optimize_spec(evs, seen)) == if seen || head_updates(evs).len() == 0 {
            Seq::<EventView>::empty()
        } else {
            seq![head_updates(evs).last()]
        },
    decreases evs.len(),
{
    if evs.len() > 0 {
        lemma_optimize_heads(evs.drop_last(), true);
        lemma_optimize_heads(evs.drop_last(), seen);
        let o = optimize_spec(evs, seen);
        if is_head_update(evs.last()) {
            if !seen {
                assert(o.drop_last() =~= optimize_spec(evs.drop_last(), true));
                assert(Seq::<EventView>::empty().push(evs.last()) =~= seq![evs.last()]);
            }
        } else {
            assert(o.drop_last() =~= optimize_spec(evs.drop_last(), seen));
        }
    }
}

/// Of the `HEAD` updates, optimizing the undo events keeps only the last
/// one; every other event is kept, in order.
pub proof fn lemma_optimize_keeps_last_checkout(evs: Seq<EventView>)
    ensures
        other_updates(optimize_spec(evs, false)) == other_updates(evs),
        head_updates(optimize_spec(evs, false)) == if head_updates(evs).len() == 0 {
            Seq::<EventView>::empty()
        } else {
            seq![head_updates(evs).last()]
        },
{
    lemma_optimize_heads(evs, false);
}

proof fn lemma_partition_append(a: Seq<EventView>, b: Seq<EventView>)
    ensures
        head_updates(a + b) == head_updates(a) + head_updates(b),
        other_updates(a + b) == other_updates(a) + other_updates(b),
    decreases b.len(),
{
    if b.len() == 0 {
        assert(a + b =~= a);
        assert(head_updates(a) + Seq::empty() =~= head_updates(a));
        assert(other_updates(a) + Seq::empty() =~= other_updates(a));
    } else {
        lemma_partition_append(a, b.drop_last());
        assert((a + b).drop_last() =~= a + b.drop_last());
        assert((a + b).last() == b.last());
        if is_head_update(b.last()) {
            assert(head_updates(a) + head_updates(b.drop_last()).push(b.last()) =~= (head_updates(a)
                + head_updates(b.drop_last())).push(b.last()));
        } else {
            assert(other_updates(a) + other_updates(b.drop_last()).push(b.last()) =~= (other_updates(a)
                + other_updates(b.drop_last())).push(b.last()));
        }
    }
}

proof fn lemma_partition_parts(evs: Seq<EventView>)
    ensures
        forall|i: int| 0 <= i < head_updates(evs).len() ==> is_head_update(#[trigger] head_updates(evs)[i]),
        forall|i: int| 0 <= i < other_updates(evs).len() ==> !is_head_update(#[trigger] other_updates(evs)[i]),
        head_updates(evs).len() + other_updates(evs).len() == evs.len(),
        head_updates(head_updates(evs)) == head_updates(evs),
        other_updates(head_updates(evs)) == Seq::<EventView>::empty(),
        head_updates(other_updates(evs)) == Seq::<EventView>::empty(),
        other_updates(other_updates(evs)) == other_updates(evs),
    decreases evs.len(),
{
    if evs.len() > 0 {
        lemma_partition_parts(evs.drop_last());
        let h0 = head_updates(evs.drop_last());
        let o0 = other_updates(evs.drop_last());
        if is_head_update(evs.last()) {
            assert(head_updates(evs).drop_last() =~= h0);
        } else {
            assert(other_updates(evs).drop_last() =~= o0);
        }
    }
}

/// Moving the checkouts first loses no event and adds none: it keeps the
/// order among the `HEAD` updates and among the other events, and puts
/// every `HEAD` update before every other event.
pub proof fn lemma_checkouts_first(evs: Seq<EventView>)
    ensures
        checkouts_first_spec(evs).len() == evs.len(),
        head_updates(checkouts_first_spec(evs)) == head_updates(evs),
        other_updates(checkouts_first_spec(evs)) == other_updates(evs),
        forall|i: int, j: int|
            0 <= i < j < evs.len() && is_head_update(#[trigger] checkouts_first_spec(evs)[j])
                ==> is_head_update(#[trigger] checkouts_first_spec(evs)[i]),
{
    let h = head_updates(evs);
    let o = other_updates(evs);
    lemma_partition_parts(evs);
    lemma_partition_append(h, o);
    assert(h + Seq::<EventView>::empty() =~= h);
    assert(Seq::<EventView>::empty() + o =~= o);
    let cf = checkouts_first_spec(evs);
    assert forall|i: int, j: int|
        0 <= i < j < evs.len() && is_head_update(#[trigger] cf[j]) implies is_head_update(#[trigger] cf[i]) by {
        if j >= h.len() {
            assert(cf[j] == o[j - h.len()]);
        }
        assert(cf[i] == h[i]);
    }
}

/// Undoing an undo gives back the events undone, stamped with the new
/// time and transaction (and without a message): a hide is undone by an
/// unhide and that by a hide, a rewrite by the rewrite back, a reference
/// update by the update back. Only a commit comes back as an unhide of the
/// commit.
pub proof fn lemma_inverse_of_inverse(e: EventView, t1: u64, x1: isize, t2: u64, x2: isize)
    ensures
        inverse_spec(inverse_spec(e, t1, x1), t2, x2) == match e {
            EventView::Commit { oid, .. } => EventView::Unhide { timestamp: t2, tx: x2, oid },
            EventView::Unhide { oid, .. } => EventView::Unhide { timestamp: t2, tx: x2, oid },
            EventView::Hide { oid, .. } => EventView::Hide { timestamp: t2, tx: x2, oid },
            EventView::Rewrite { old_oid, new_oid, .. } => EventView::Rewrite {
                timestamp: t2,
                tx: x2,
                old_oid,
                new_oid,
            },
            EventView::RefUpdate { ref_name, old_ref, new_ref, .. } => EventView::RefUpdate {
                timestamp: t2,
                tx: x2,
                ref_name,
                old_ref,
                new_ref,
                message: None,
            },
        },
{
}

/// A key pressed while choosing a past state of the repository.
#[derive(Clone, Copy, Debug, PartialEq, Eq, Structural)]
pub enum SelectorKey {
    Char(char),
    Left,
    Right,
    Enter,
}

/// What the user asks for while choosing a past state.
#[derive(Clone, Copy, Debug, PartialEq, Eq, Structural)]
pub enum SelectorMessage {
    /// Show the first state.
    Init,
    /// The next (later) state.
    Next,
    /// The previous (earlier) state.
    Previous,
    /// Ask for an event ID to go to.
    GoToEvent,
    /// Go to the state after the event `event_id`.
    SetEventReplayerCursor { event_id: isize },
    /// Show the help.
    Help,
    /// Leave without choosing.
    Quit,
    /// Choose the state shown, and leave.
    SelectEventIdAndQuit,
}

/// The message of a key: `n`/`N`/right for the next state, `p`/`P`/left for
/// the previous one, `h`/`H`/`?` for help, `g`/`G` to go to an event, `q`/`Q`
/// to quit, enter to choose.
pub open spec fn key_message_spec(key: SelectorKey) -> Option<SelectorMessage> {
    match key {
        SelectorKey::Char(c) => if c == 'n' || c == 'N' {
            Some(SelectorMessage::Next)
        } else if c == 'p' || c == 'P' {
            Some(SelectorMessage::Previous)
        } else if c == 'h' || c == 'H' || c == '?' {
            Some(SelectorMessage::Help)
        } else if c == 'g' || c == 'G' {
            Some(SelectorMessage::GoToEvent)
        } else if c == 'q' || c == 'Q' {
            Some(SelectorMessage::Quit)
        } else {
            None
        },
        SelectorKey::Right => Some(SelectorMessage::Next),
        SelectorKey::Left => Some(SelectorMessage::Previous),
        SelectorKey::Enter => Some(SelectorMessage::SelectEventIdAndQuit),
    }
}

/// The message of a key, if it has one.
pub fn key_message(key: SelectorKey) -> (r: Option<SelectorMessage>)
    ensures
        r == key_message_spec(key),
{
    match key {
        SelectorKey::Char(c) => if c == 'n' || c == 'N' {
            Some(SelectorMessage::Next)
        } else if c == 'p' || c == 'P' {
            Some(SelectorMessage::Previous)
        } else if c == 'h' || c == 'H' || c == '?' {
            Some(SelectorMessage::Help)
        } else if c == 'g' || c == 'G' {
            Some(SelectorMessage::GoToEvent)
        } else if c == 'q' || c == 'Q' {
            Some(SelectorMessage::Quit)
        } else {
            None
        },
        SelectorKey::Right => Some(SelectorMessage::Next),
        SelectorKey::Left => Some(SelectorMessage::Previous),
        SelectorKey::Enter => Some(SelectorMessage::SelectEventIdAndQuit),
    }
}

/// What the screen does after a message.
#[derive(Clone, Copy, Debug, PartialEq, Eq, Structural)]
pub enum SelectorStep {
    /// Show the state at this cursor.
    Show(EventCursor),
    /// Ask for an event ID.
    AskForEventId,
    /// Show the help.
    ShowHelp,
    /// Leave without choosing.
    Quit,
    /// Leave, choosing the state at this cursor.
    Select(EventCursor),
}

/// The step after `message` while the state at `cursor` is shown: move by
/// one transaction for next and previous, to the given event (clamped to
/// the log) for a chosen event ID.
pub open spec fn selector_spec(evs: Seq<EventView>, cursor: int, message: SelectorMessage) -> SelectorStep {
    match message {
        SelectorMessage::Init => SelectorStep::Show(EventCursor { event_id: cursor as isize }),
        SelectorMessage::Next => SelectorStep::Show(
            EventCursor { event_id: advance_by_tx_spec(evs, cursor, 1) as isize },
        ),
        SelectorMessage::Previous => SelectorStep::Show(
            EventCursor { event_id: advance_by_tx_spec(evs, cursor, -1) as isize },
        ),
        SelectorMessage::SetEventReplayerCursor { event_id } => SelectorStep::Show(
            EventCursor { event_id: clamp(event_id as int, evs.len() as int) as isize },
        ),
        SelectorMessage::GoToEvent => SelectorStep::AskForEventId,
        SelectorMessage::Help => SelectorStep::ShowHelp,
        SelectorMessage::Quit => SelectorStep::Quit,
        SelectorMessage::SelectEventIdAndQuit => SelectorStep::Select(EventCursor { event_id: cursor as isize }),
    }
}

/// The step after `message` while the state at `cursor` is shown.
pub fn selector_step(replayer: &EventReplayer, cursor: EventCursor, message: SelectorMessage) -> (r: SelectorStep)
    requires
        replayer.wf(),
        0 <= cursor.event_id <= replayer.recorded().len(),
    ensures
        r == selector_spec(replayer.recorded(), cursor.event_id as int, message),
        r matches SelectorStep::Show(c) ==> 0 <= c.event_id <= replayer.recorded().len(),
{
    match message {
        SelectorMessage::Init => SelectorStep::Show(cursor),
        SelectorMessage::Next => SelectorStep::Show(replayer.advance_cursor_by_transaction(cursor, 1)),
        SelectorMessage::Previous => SelectorStep::Show(replayer.advance_cursor_by_transaction(cursor, -1)),
        SelectorMessage::SetEventReplayerCursor { event_id } => SelectorStep::Show(replayer.make_cursor(event_id)),
        SelectorMessage::GoToEvent => SelectorStep::AskForEventId,
        SelectorMessage::Help => SelectorStep::ShowHelp,
        SelectorMessage::Quit => SelectorStep::Quit,
        SelectorMessage::SelectEventIdAndQuit => SelectorStep::Select(cursor),
    }
}

} // verus!
