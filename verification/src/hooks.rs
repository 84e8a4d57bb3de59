//! The logic of Git's hooks: turning what Git reports into events.

use vstd::prelude::*;

use crate::describe::friendly_name;
use crate::eventlog::{events_view, should_ignore_ref_updates, should_ignore_spec, Event, EventTransactionId, EventView};
use crate::oid::{is_oid_text, oid_bytes_of_text, oid_hex, Oid};
use crate::repo::CategorizedReferenceName;
use crate::rewrite::is_zero_oid;
use crate::formatting::{pluralize_text, Pluralize};
use crate::text::{
    join, join_spec, lemma_sorted_unique, lines, lines_spec, sort_texts, sorted_multiset, sorted_texts, split_chars,
    split_pieces, str_chars, string_of_chars, trim, trim_spec, views,
};

verus! {

/// Why a line from the `reference-transaction` hook could not be read.
#[derive(Debug, PartialEq, Eq, Structural)]
pub enum ReferenceTransactionError {
    /// The line did not have exactly three space-separated fields.
    UnexpectedNumberOfFields,
    /// The old value was not an object ID.
    InvalidOldOid,
    /// The new value was not an object ID.
    InvalidNewOid,
}

/// The event that a `reference-transaction` line `old new ref-name`
/// records: an update of `ref-name` from the object ID `old` to the object
/// ID `new` (each kept as its forty hexadecimal digits), unless the
/// reference is not worth recording. A value that is not an object ID is
/// an error.
pub open spec fn reference_transaction_spec(line: Seq<char>, timestamp: u64, tx: isize) -> Result<
    Option<EventView>,
    ReferenceTransactionError,
> {
    let fields = split_pieces(line, seq![' ']);
    if fields.len() != 3 {
        Err(ReferenceTransactionError::UnexpectedNumberOfFields)
    } else if should_ignore_spec(fields[2]) {
        Ok(None)
    } else if !is_oid_text(fields[0]) {
        Err(ReferenceTransactionError::InvalidOldOid)
    } else if !is_oid_text(fields[1]) {
        Err(ReferenceTransactionError::InvalidNewOid)
    } else {
        Ok(
            Some(
                EventView::RefUpdate {
                    timestamp,
                    tx,
                    ref_name: fields[2],
                    old_ref: Some(oid_hex(oid_bytes_of_text(fields[0]))),
                    new_ref: Some(oid_hex(oid_bytes_of_text(fields[1]))),
                    message: None,
                },
            ),
        )
    }
}

/// Parse one line of input to the `reference-transaction` hook.
/// `timestamp` is the bit pattern of the current time, as in `Event`.
pub fn parse_reference_transaction_line(line: &str, timestamp: u64, event_tx_id: EventTransactionId) -> (r: Result<
    Option<Event>,
    ReferenceTransactionError,
>)
    ensures
        match r {
            Ok(Some(e)) => reference_transaction_spec(line@, timestamp, event_tx_id.0) == Ok::<
                Option<EventView>,
                ReferenceTransactionError,
            >(Some(e@)),
            Ok(None) => reference_transaction_spec(line@, timestamp, event_tx_id.0) == Ok::<
                Option<EventView>,
                ReferenceTransactionError,
            >(None),
            Err(e) => reference_transaction_spec(line@, timestamp, event_tx_id.0) == Err::<
                Option<EventView>,
                ReferenceTransactionError,
            >(e),
        },
{
    let chars = str_chars(line);
    let seps: Vec<char> = vec![' '];
    assert(seps@ =~= seq![' ']);
    let fields = split_chars(chars.as_slice(), seps.as_slice());
    if fields.len() != 3 {
        return Err(ReferenceTransactionError::UnexpectedNumberOfFields);
    }
    assert(views(fields@)[0] == fields@[0]@);
    assert(views(fields@)[1] == fields@[1]@);
    assert(views(fields@)[2] == fields@[2]@);
    let ref_name = string_of_chars(fields[2].as_slice());
    if should_ignore_ref_updates(ref_name.as_str()) {
        return Ok(None);
    }
    let old_text = string_of_chars(fields[0].as_slice());
    let old_oid = match Oid::from_str(old_text.as_str()) {
        Some(oid) => oid,
        None => return Err(ReferenceTransactionError::InvalidOldOid),
    };
    let new_text = string_of_chars(fields[1].as_slice());
    let new_oid = match Oid::from_str(new_text.as_str()) {
        Some(oid) => oid,
        None => return Err(ReferenceTransactionError::InvalidNewOid),
    };
    Ok(
        Some(
            Event::RefUpdateEvent {
                timestamp,
                event_tx_id,
                ref_name,
                old_ref: Some(old_oid.to_hex()),
                new_ref: Some(new_oid.to_hex()),
                message: None,
            },
        ),
    )
}

/// The events recorded from the input of the `reference-transaction`
/// hook: one for each newline-separated line that parses and names a
/// reference worth recording; lines that do not parse are passed over.
pub open spec fn reference_transaction_events_spec(lines: Seq<Seq<char>>, timestamp: u64, tx: isize) -> Seq<EventView>
    decreases lines.len(),
{
    if lines.len() == 0 {
        Seq::empty()
    } else {
        let prev = reference_transaction_events_spec(lines.drop_last(), timestamp, tx);
        match reference_transaction_spec(lines.last(), timestamp, tx) {
            Ok(Some(e)) => prev.push(e),
            _ => prev,
        }
    }
}

/// The events to record from the whole input of the `reference-transaction`
/// hook.
pub fn reference_transaction_events(input: &str, timestamp: u64, event_tx_id: EventTransactionId) -> (r: Vec<Event>)
    ensures
        events_view(r@) == reference_transaction_events_spec(
            split_pieces(input@, seq!['\n']),
            timestamp,
            event_tx_id.0,
        ),
{
    let chars = str_chars(input);
    let seps: Vec<char> = vec!['\n'];
    assert(seps@ =~= seq!['\n']);
    let lines = split_chars(chars.as_slice(), seps.as_slice());
    let ghost ls = views(lines@);
    let mut events: Vec<Event> = Vec::new();
    let mut i: usize = 0;
    while i < lines.len()
        invariant
            i <= lines@.len(),
            ls == views(lines@),
            ls == split_pieces(input@, seq!['\n']),
            events_view(events@) == reference_transaction_events_spec(ls.take(i as int), timestamp, event_tx_id.0),
        decreases lines@.len() - i,
    {
        let line = string_of_chars(lines[i].as_slice());
        assert(ls.take(i + 1).drop_last() =~= ls.take(i as int));
        assert(ls.take(i + 1).last() == line@);
        match parse_reference_transaction_line(line.as_str(), timestamp, event_tx_id) {
            Ok(Some(e)) => {
                let ghost before = events_view(events@);
                events.push(e);
                assert(events_view(events@) =~= before.push(e@));
            },
            _ => {},
        }
        i = i + 1;
    }
    assert(ls.take(lines@.len() as int) =~= ls);
    events
}

/// The names of the references that reference updates touch, each with a
/// word for its kind, sorted (repeats kept).
pub fn updated_reference_names(events: &[Event]) -> (r: Vec<String>)
    ensures
        sorted_texts(r@.map_values(|t: String| t@)),
        r@.map_values(|t: String| t@).to_multiset() == updated_names_spec(events_view(events@)).to_multiset(),
{
    let ghost evs = events_view(events@);
    let mut names: Vec<String> = Vec::new();
    let mut i: usize = 0;
    while i < events.len()
        invariant
            i <= events@.len(),
            evs == events_view(events@),
            names@.map_values(|t: String| t@) == updated_names_spec(evs.take(i as int)),
        decreases events@.len() - i,
    {
        assert(evs.take(i + 1).drop_last() =~= evs.take(i as int));
        assert(evs.take(i + 1).last() == events@[i as int]@);
        match &events[i] {
            Event::RefUpdateEvent { ref_name, .. } => {
                let name = CategorizedReferenceName::new(ref_name.as_str()).friendly_describe();
                let ghost before = names@.map_values(|t: String| t@);
                names.push(name);
                assert(names@.map_values(|t: String| t@) =~= before.push(friendly_name(ref_name@)));
            },
            _ => {},
        }
        i = i + 1;
    }
    assert(evs.take(events@.len() as int) =~= evs);
    sort_texts(names)
}

/// The names of the references that the reference updates among `evs`
/// touch, each with a word for its kind, in order.
pub open spec fn updated_names_spec(evs: Seq<EventView>) -> Seq<Seq<char>>
    decreases evs.len(),
{
    if evs.len() == 0 {
        Seq::empty()
    } else {
        let prev = updated_names_spec(evs.drop_last());
        match evs.last() {
            EventView::RefUpdate { ref_name, .. } => prev.push(friendly_name(ref_name)),
            _ => prev,
        }
    }
}

/// What the `reference-transaction` hook prints for the events it records:
/// how many updates, and the references updated, sorted; nothing if there
/// are no events.
pub open spec fn reference_transaction_message_spec(evs: Seq<EventView>) -> Option<Seq<char>> {
    if evs.len() == 0 {
        None
    } else {
        Some(
            "branchless: processing "@ + pluralize_text(evs.len() as int, "update"@, "updates"@) + ": "@ + join_spec(
                sorted_multiset(updated_names_spec(evs).to_multiset()),
                ", "@,
            ),
        )
    }
}

/// What the `reference-transaction` hook prints for `events`.
pub fn reference_transaction_message(events: &[Event]) -> (r: Option<String>)
    requires
        events@.len() <= isize::MAX,
    ensures
        match r {
            Some(t) => reference_transaction_message_spec(events_view(events@)) == Some(t@),
            None => reference_transaction_message_spec(events_view(events@)) is None,
        },
{
    if events.len() == 0 {
        return None;
    }
    let names = updated_reference_names(events);
    let ghost nv = names@.map_values(|t: String| t@);
    let ghost m = updated_names_spec(events_view(events@)).to_multiset();
    proof {
        assert(sorted_texts(nv) && nv.to_multiset() == m);
        let q = sorted_multiset(m);
        assert(sorted_texts(q) && q.to_multiset() == m);
        lemma_sorted_unique(nv, q);
    }
    let p = Pluralize { amount: events.len() as isize, singular: "update", plural: "updates" };
    let mut t = "branchless: processing ".to_owned();
    t.append(p.to_string().as_str());
    t.append(": ");
    t.append(join(&names, ", ").as_str());
    Some(t)
}

/// Why a line of a list of rewritten commits could not be read.
#[derive(Clone, Copy, Debug, PartialEq, Eq, Structural)]
pub enum RewrittenLineFault {
    /// The line has fewer than two space-separated fields.
    TooFewFields,
    /// The old commit is not an object ID.
    InvalidOldOid,
    /// The old commit is the zero object ID.
    ZeroOldOid,
    /// The new commit is not an object ID.
    InvalidNewOid,
}

/// A line of a list of rewritten commits that could not be read: the line
/// (trimmed) and what is wrong with it.
#[derive(Debug, PartialEq, Eq)]
pub struct RewrittenListError {
    pub line: String,
    pub fault: RewrittenLineFault,
}

/// The entry that a line `old new ...` of a list of rewritten commits
/// gives, after trimming white space: the old commit, which must not be
/// zero, and the new one, which is zero for a commit that was dropped.
pub open spec fn rewritten_line_spec(line: Seq<char>) -> Result<(Seq<u8>, Seq<u8>), RewrittenLineFault> {
    let fields = split_pieces(trim_spec(line), seq![' ']);
    if fields.len() < 2 {
        Err(RewrittenLineFault::TooFewFields)
    } else if !is_oid_text(fields[0]) {
        Err(RewrittenLineFault::InvalidOldOid)
    } else if is_zero_oid(oid_bytes_of_text(fields[0])) {
        Err(RewrittenLineFault::ZeroOldOid)
    } else if !is_oid_text(fields[1]) {
        Err(RewrittenLineFault::InvalidNewOid)
    } else {
        Ok((oid_bytes_of_text(fields[0]), oid_bytes_of_text(fields[1])))
    }
}

/// The entries of the lines `ls`, or the position of the first line that
/// could not be read.
pub open spec fn rewritten_list_spec(ls: Seq<Seq<char>>) -> Result<Seq<(Seq<u8>, Seq<u8>)>, int>
    decreases ls.len(),
{
    if ls.len() == 0 {
        Ok(Seq::empty())
    } else {
        match rewritten_list_spec(ls.drop_last()) {
            Err(i) => Err(i),
            Ok(es) => match rewritten_line_spec(ls.last()) {
                Ok(e) => Ok(es.push(e)),
                Err(_) => Err(ls.len() - 1),
            },
        }
    }
}

/// The views of pairs of object IDs.
pub open spec fn oid_pairs_view(v: Seq<(Oid, Oid)>) -> Seq<(Seq<u8>, Seq<u8>)> {
    v.map_values(|p: (Oid, Oid)| (p.0@, p.1@))
}

/// Read one line of a list of rewritten commits.
fn read_rewritten_line(line: &[char]) -> (r: Result<(Oid, Oid), RewrittenLineFault>)
    ensures
        match r {
            Ok(p) => rewritten_line_spec(line@) == Ok::<(Seq<u8>, Seq<u8>), RewrittenLineFault>((p.0@, p.1@)),
            Err(f) => rewritten_line_spec(line@) == Err::<(Seq<u8>, Seq<u8>), RewrittenLineFault>(f),
        },
{
    let trimmed = trim(line);
    let seps: Vec<char> = vec![' '];
    assert(seps@ =~= seq![' ']);
    let fields = split_chars(trimmed.as_slice(), seps.as_slice());
    if fields.len() < 2 {
        return Err(RewrittenLineFault::TooFewFields);
    }
    assert(views(fields@)[0] == fields@[0]@);
    assert(views(fields@)[1] == fields@[1]@);
    let old_text = string_of_chars(fields[0].as_slice());
    let new_text = string_of_chars(fields[1].as_slice());
    let old_oid = match Oid::from_str(old_text.as_str()) {
        Some(oid) => oid,
        None => {
            return Err(RewrittenLineFault::InvalidOldOid);
        },
    };
    if old_oid.is_zero() {
        return Err(RewrittenLineFault::ZeroOldOid);
    }
    let new_oid = match Oid::from_str(new_text.as_str()) {
        Some(oid) => oid,
        None => {
            return Err(RewrittenLineFault::InvalidNewOid);
        },
    };
    Ok((old_oid, new_oid))
}

/// Read a list of rewritten commits, as Git hands it to the `post-rewrite`
/// hook: one `old new` line per rewritten commit.
pub fn read_rewritten_list_entries(text: &str) -> (r: Result<Vec<(Oid, Oid)>, RewrittenListError>)
    ensures
        match r {
            Ok(v) => rewritten_list_spec(lines_spec(text@)) == Ok::<Seq<(Seq<u8>, Seq<u8>)>, int>(
                oid_pairs_view(v@),
            ),
            Err(e) => rewritten_list_spec(lines_spec(text@)) matches Err(i) && 0 <= i < lines_spec(text@).len()
                && e.line@ == trim_spec(lines_spec(text@)[i]) && rewritten_line_spec(lines_spec(text@)[i])
                == Err::<(Seq<u8>, Seq<u8>), RewrittenLineFault>(e.fault),
        },
{
    let chars = str_chars(text);
    let ls = lines(chars.as_slice());
    let ghost lv = views(ls@);
    let mut entries: Vec<(Oid, Oid)> = Vec::new();
    let mut i: usize = 0;
    assert(lv.take(0) =~= Seq::<Seq<char>>::empty());
    assert(oid_pairs_view(entries@) =~= Seq::<(Seq<u8>, Seq<u8>)>::empty());
    while i < ls.len()
        invariant
            i <= ls@.len(),
            lv == views(ls@),
            lv == lines_spec(text@),
            rewritten_list_spec(lv.take(i as int)) == Ok::<Seq<(Seq<u8>, Seq<u8>)>, int>(oid_pairs_view(entries@)),
        decreases ls@.len() - i,
    {
        assert(lv.take(i + 1).drop_last() =~= lv.take(i as int));
        assert(lv.take(i + 1).last() == ls@[i as int]@);
        match read_rewritten_line(ls[i].as_slice()) {
            Ok(p) => {
                let ghost before = oid_pairs_view(entries@);
                entries.push(p);
                assert(oid_pairs_view(entries@) =~= before.push((p.0@, p.1@)));
            },
            Err(fault) => {
                proof {
                    lemma_list_error_persists(lv, i as int);
                }
                let trimmed = trim(ls[i].as_slice());
                return Err(RewrittenListError { line: string_of_chars(trimmed.as_slice()), fault });
            },
        }
        i = i + 1;
    }
    assert(lv.take(ls@.len() as int) =~= lv);
    Ok(entries)
}

/// Once a line cannot be read, the list cannot be read, and the first line
/// that fails stays the same.
proof fn lemma_list_error_persists(ls: Seq<Seq<char>>, i: int)
    requires
        0 <= i < ls.len(),
        rewritten_list_spec(ls.take(i)) is Ok,
        rewritten_line_spec(ls[i]) is Err,
    ensures
        rewritten_list_spec(ls) == Err::<Seq<(Seq<u8>, Seq<u8>)>, int>(i),
    decreases ls.len(),
{
    if ls.len() == i + 1 {
        assert(ls.drop_last() =~= ls.take(i));
    } else {
        assert(ls.drop_last().take(i) =~= ls.take(i));
        lemma_list_error_persists(ls.drop_last(), i);
    }
}

/// The rewrite events that a list of rewritten commits records.
pub fn rewrite_events(entries: &[(Oid, Oid)], timestamp: u64, event_tx_id: EventTransactionId) -> (r: Vec<Event>)
    ensures
        r@.len() == entries@.len(),
        forall|i: int|
            0 <= i < entries@.len() ==> (#[trigger] r@[i])@ == (EventView::Rewrite {
                timestamp,
                tx: event_tx_id.0,
                old_oid: entries@[i].0@,
                new_oid: entries@[i].1@,
            }),
{
    let mut events: Vec<Event> = Vec::new();
    let mut i: usize = 0;
    while i < entries.len()
        invariant
            i <= entries@.len(),
            events@.len() == i,
            forall|j: int|
                0 <= j < i ==> (#[trigger] events@[j])@ == (EventView::Rewrite {
                    timestamp,
                    tx: event_tx_id.0,
                    old_oid: entries@[j].0@,
                    new_oid: entries@[j].1@,
                }),
        decreases entries@.len() - i,
    {
        let (old_commit_oid, new_commit_oid) = entries[i];
        events.push(Event::RewriteEvent { timestamp, event_tx_id, old_commit_oid, new_commit_oid });
        i = i + 1;
    }
    events
}

/// The text of a list of rewritten commits: one `old new` line per entry.
pub open spec fn rewritten_list_text_spec(entries: Seq<(Seq<u8>, Seq<u8>)>) -> Seq<char>
    decreases entries.len(),
{
    if entries.len() == 0 {
        Seq::empty()
    } else {
        rewritten_list_text_spec(entries.drop_last()) + oid_hex(entries.last().0) + " "@ + oid_hex(
            entries.last().1,
        ) + "\n"@
    }
}

/// The text of a list of rewritten commits, as Git reads it.
pub fn rewritten_list_text(entries: &[(Oid, Oid)]) -> (r: String)
    ensures
        r@ == rewritten_list_text_spec(oid_pairs_view(entries@)),
{
    let ghost all = oid_pairs_view(entries@);
    let mut text = String::new();
    let mut i: usize = 0;
    while i < entries.len()
        invariant
            i <= entries@.len(),
            all == oid_pairs_view(entries@),
            text@ == rewritten_list_text_spec(all.take(i as int)),
        decreases entries@.len() - i,
    {
        assert(all.take(i + 1).drop_last() =~= all.take(i as int));
        assert(all.take(i + 1).last() == (entries@[i as int].0@, entries@[i as int].1@));
        text.append(entries[i].0.to_hex().as_str());
        text.append(" ");
        text.append(entries[i].1.to_hex().as_str());
        text.append("\n");
        i = i + 1;
    }
    assert(all.take(entries@.len() as int) =~= all);
    text
}

/// The number of distinct old commits in a list of rewritten commits.
pub fn count_rewritten_commits(entries: &[(Oid, Oid)]) -> (r: usize)
    ensures
        r == entries@.map_values(|p: (Oid, Oid)| p.0@).to_set().len(),
{
    let ghost olds = entries@.map_values(|p: (Oid, Oid)| p.0@);
    let mut seen: Vec<Oid> = Vec::new();
    let mut i: usize = 0;
    while i < entries.len()
        invariant
            i <= entries@.len(),
            olds == entries@.map_values(|p: (Oid, Oid)| p.0@),
            seen@.map_values(|o: Oid| o@).no_duplicates(),
            seen@.map_values(|o: Oid| o@).to_set() == olds.take(i as int).to_set(),
            seen@.len() <= i,
        decreases entries@.len() - i,
    {
        let oid = entries[i].0;
        let ghost sv = seen@.map_values(|o: Oid| o@);
        let mut found = false;
        let mut j: usize = 0;
        while j < seen.len()
            invariant
                j <= seen@.len(),
                sv == seen@.map_values(|o: Oid| o@),
                found <==> exists|k: int| 0 <= k < j && sv[k] == oid@,
            decreases seen@.len() - j,
        {
            assert(sv[j as int] == seen@[j as int]@);
            if seen[j] == oid {
                found = true;
                assert(sv[j as int] == oid@);
            }
            j = j + 1;
        }
        assert(olds.take(i + 1) =~= olds.take(i as int).push(oid@));
        assert(olds.take(i + 1).to_set() =~= olds.take(i as int).to_set().insert(oid@)) by {
            assert forall|t: Seq<u8>| olds.take(i + 1).to_set().contains(t) implies olds.take(i as int).to_set().insert(oid@).contains(t) by {
                let k = choose|k: int| 0 <= k < olds.take(i + 1).len() && #[trigger] olds.take(i + 1)[k] == t;
                if k < i {
                    assert(olds.take(i as int)[k] == t);
                }
            }
            assert forall|t: Seq<u8>| olds.take(i as int).to_set().insert(oid@).contains(t) implies olds.take(i + 1).to_set().contains(t) by {
                if t == oid@ {
                    assert(olds.take(i + 1)[i as int] == t);
                } else {
                    let k = choose|k: int| 0 <= k < olds.take(i as int).len() && #[trigger] olds.take(i as int)[k] == t;
                    assert(olds.take(i + 1)[k] == t);
                }
            }
        }
        if !found {
            seen.push(oid);
            assert(seen@.map_values(|o: Oid| o@) =~= sv.push(oid@));
            assert(sv.push(oid@).to_set() =~= sv.to_set().insert(oid@)) by {
                assert forall|t: Seq<u8>| sv.push(oid@).to_set().contains(t) implies sv.to_set().insert(oid@).contains(t) by {
                    let k = choose|k: int| 0 <= k < sv.push(oid@).len() && #[trigger] sv.push(oid@)[k] == t;
                    if k < sv.len() {
                        assert(sv[k] == t);
                    }
                }
                assert forall|t: Seq<u8>| sv.to_set().insert(oid@).contains(t) implies sv.push(oid@).to_set().contains(t) by {
                    if t == oid@ {
                        assert(sv.push(oid@)[sv.len() as int] == t);
                    } else {
                        let k = choose|k: int| 0 <= k < sv.len() && #[trigger] sv[k] == t;
                        assert(sv.push(oid@)[k] == t);
                    }
                }
            }
        } else {
            assert(sv.to_set().contains(oid@)) by {
                let k = choose|k: int| 0 <= k < seen@.len() && sv[k] == oid@;
                assert(sv[k] == oid@);
            }
            assert(sv.to_set().insert(oid@) =~= sv.to_set());
        }
        i = i + 1;
    }
    assert(olds.take(entries@.len() as int) =~= olds);
    proof {
        seen@.map_values(|o: Oid| o@).unique_seq_to_set();
    }
    seen.len()
}

} // verus!
