//! The event log: the actions that the user took on commits and references,
//! recorded in order, and their replay into the state of the repository at
//! any point in time.
//!
//! Events are grouped into transactions (a `git rebase` rewrites many
//! commits in one transaction). An event cursor is a position between two
//! recorded events: the events before it are in effect, the ones after it
//! have not happened yet.

use vstd::prelude::*;

use crate::node_descriptors::{names_of, BranchTargets};
use crate::oid::{hex_char, hex_value, is_hex_digit, is_oid_text, oid_bytes_of_text, oid_hex, oid_nibble, Oid};
use crate::text::{
    append_chars, slice_chars,
    chars_eq, decimal_text, i64_to_string, is_prefix, parse_isize, parse_isize_spec, starts_with,
    str_chars,
};

verus! {

/// The ID of the transaction that an event belongs to.
#[derive(Clone, Copy, Debug, PartialEq, Eq, Structural)]
pub struct EventTransactionId(pub isize);

impl EventTransactionId {
    /// The decimal text of the ID.
    pub fn to_string(&self) -> (r: String)
        ensures
            r@ == decimal_text(self.0 as int),
    {
        i64_to_string(self.0 as i64)
    }

    /// Parse an ID from decimal text, as `isize::from_str` does.
    pub fn from_str(s: &str) -> (r: Option<EventTransactionId>)
        ensures
            r matches Some(id) ==> parse_isize_spec(s@) == Some(id.0 as int),
            r is None ==> parse_isize_spec(s@) is None,
    {
        let chars = str_chars(s);
        match parse_isize(chars.as_slice()) {
            Some(v) => Some(EventTransactionId(v)),
            None => None,
        }
    }
}

/// An event that occurred to one of the commits or references in the
/// repository.
///
/// The `timestamp` of each event is the IEEE 754 bit pattern of the time of
/// the event, in seconds since the Unix epoch, as a 64-bit float.
#[derive(Debug, PartialEq)]
pub enum Event {
    /// The commit was rewritten (for example by a rebase or an amend): the
    /// old version is to be hidden and the new one shown.
    RewriteEvent { timestamp: u64, event_tx_id: EventTransactionId, old_commit_oid: Oid, new_commit_oid: Oid },
    /// A reference was updated. The referents may be object IDs or other
    /// reference names; `None` stands for a reference that did not exist
    /// (before) or was deleted (after).
    RefUpdateEvent {
        timestamp: u64,
        event_tx_id: EventTransactionId,
        ref_name: String,
        old_ref: Option<String>,
        new_ref: Option<String>,
        message: Option<String>,
    },
    /// The user made a commit, which is to be shown.
    CommitEvent { timestamp: u64, event_tx_id: EventTransactionId, commit_oid: Oid },
    /// The user hid a commit.
    HideEvent { timestamp: u64, event_tx_id: EventTransactionId, commit_oid: Oid },
    /// The user un-hid a commit.
    UnhideEvent { timestamp: u64, event_tx_id: EventTransactionId, commit_oid: Oid },
}

/// The mathematical value of an `Event`: its strings as character
/// sequences and its object IDs as byte sequences.
pub enum EventView {
    Rewrite { timestamp: u64, tx: isize, old_oid: Seq<u8>, new_oid: Seq<u8> },
    RefUpdate {
        timestamp: u64,
        tx: isize,
        ref_name: Seq<char>,
        old_ref: Option<Seq<char>>,
        new_ref: Option<Seq<char>>,
        message: Option<Seq<char>>,
    },
    Commit { timestamp: u64, tx: isize, oid: Seq<u8> },
    Hide { timestamp: u64, tx: isize, oid: Seq<u8> },
    Unhide { timestamp: u64, tx: isize, oid: Seq<u8> },
}

/// The view of an optional string.
pub open spec fn opt_view(s: Option<String>) -> Option<Seq<char>> {
    match s {
        Some(s) => Some(s@),
        None => None,
    }
}

/// A copy of an optional string.
pub fn clone_opt_string(s: &Option<String>) -> (r: Option<String>)
    ensures
        opt_view(r) == opt_view(*s),
{
    match s {
        Some(s) => Some(s.clone()),
        None => None,
    }
}

impl View for Event {
    type V = EventView;

    open spec fn view(&self) -> EventView {
        match *self {
            Event::RewriteEvent { timestamp, event_tx_id, old_commit_oid, new_commit_oid } => {
                EventView::Rewrite {
                    timestamp,
                    tx: event_tx_id.0,
                    old_oid: old_commit_oid@,
                    new_oid: new_commit_oid@,
                }
            },
            Event::RefUpdateEvent { timestamp, event_tx_id, ref_name, old_ref, new_ref, message } => {
                EventView::RefUpdate {
                    timestamp,
                    tx: event_tx_id.0,
                    ref_name: ref_name@,
                    old_ref: opt_view(old_ref),
                    new_ref: opt_view(new_ref),
                    message: opt_view(message),
                }
            },
            Event::CommitEvent { timestamp, event_tx_id, commit_oid } => {
                EventView::Commit { timestamp, tx: event_tx_id.0, oid: commit_oid@ }
            },
            Event::HideEvent { timestamp, event_tx_id, commit_oid } => {
                EventView::Hide { timestamp, tx: event_tx_id.0, oid: commit_oid@ }
            },
            Event::UnhideEvent { timestamp, event_tx_id, commit_oid } => {
                EventView::Unhide { timestamp, tx: event_tx_id.0, oid: commit_oid@ }
            },
        }
    }
}

impl Clone for Event {
    fn clone(&self) -> (r: Event)
        ensures
            r@ == self@,
    {
        match self {
            Event::RewriteEvent { timestamp, event_tx_id, old_commit_oid, new_commit_oid } => {
                Event::RewriteEvent {
                    timestamp: *timestamp,
                    event_tx_id: *event_tx_id,
                    old_commit_oid: *old_commit_oid,
                    new_commit_oid: *new_commit_oid,
                }
            },
            Event::RefUpdateEvent { timestamp, event_tx_id, ref_name, old_ref, new_ref, message } => {
                Event::RefUpdateEvent {
                    timestamp: *timestamp,
                    event_tx_id: *event_tx_id,
                    ref_name: ref_name.clone(),
                    old_ref: clone_opt_string(old_ref),
                    new_ref: clone_opt_string(new_ref),
                    message: clone_opt_string(message),
                }
            },
            Event::CommitEvent { timestamp, event_tx_id, commit_oid } => Event::CommitEvent {
                timestamp: *timestamp,
                event_tx_id: *event_tx_id,
                commit_oid: *commit_oid,
            },
            Event::HideEvent { timestamp, event_tx_id, commit_oid } => Event::HideEvent {
                timestamp: *timestamp,
                event_tx_id: *event_tx_id,
                commit_oid: *commit_oid,
            },
            Event::UnhideEvent { timestamp, event_tx_id, commit_oid } => Event::UnhideEvent {
                timestamp: *timestamp,
                event_tx_id: *event_tx_id,
                commit_oid: *commit_oid,
            },
        }
    }
}

/// The transaction ID of an event.
pub open spec fn tx_of(e: EventView) -> isize {
    match e {
        EventView::Rewrite { tx, .. } => tx,
        EventView::RefUpdate { tx, .. } => tx,
        EventView::Commit { tx, .. } => tx,
        EventView::Hide { tx, .. } => tx,
        EventView::Unhide { tx, .. } => tx,
    }
}

/// The timestamp of an event.
pub open spec fn timestamp_of(e: EventView) -> u64 {
    match e {
        EventView::Rewrite { timestamp, .. } => timestamp,
        EventView::RefUpdate { timestamp, .. } => timestamp,
        EventView::Commit { timestamp, .. } => timestamp,
        EventView::Hide { timestamp, .. } => timestamp,
        EventView::Unhide { timestamp, .. } => timestamp,
    }
}

impl Event {
    /// The transaction ID of the event.
    pub fn get_event_tx_id(&self) -> (r: EventTransactionId)
        ensures
            r.0 == tx_of(self@),
    {
        match self {
            Event::RewriteEvent { event_tx_id, .. } => *event_tx_id,
            Event::RefUpdateEvent { event_tx_id, .. } => *event_tx_id,
            Event::CommitEvent { event_tx_id, .. } => *event_tx_id,
            Event::HideEvent { event_tx_id, .. } => *event_tx_id,
            Event::UnhideEvent { event_tx_id, .. } => *event_tx_id,
        }
    }

    /// The timestamp of the event, as the bit pattern of a 64-bit float
    /// holding seconds since the Unix epoch.
    pub fn get_timestamp(&self) -> (r: u64)
        ensures
            r == timestamp_of(self@),
    {
        match self {
            Event::RewriteEvent { timestamp, .. } => *timestamp,
            Event::RefUpdateEvent { timestamp, .. } => *timestamp,
            Event::CommitEvent { timestamp, .. } => *timestamp,
            Event::HideEvent { timestamp, .. } => *timestamp,
            Event::UnhideEvent { timestamp, .. } => *timestamp,
        }
    }
}


/// Whether a reference is one that keeps a commit alive against Git's
/// garbage collection: its name starts with `refs/branchless/`.
pub open spec fn is_gc_ref_spec(ref_name: Seq<char>) -> bool {
    is_prefix("refs/branchless/"@, ref_name)
}

/// Determine whether a given reference is used to keep a commit alive.
pub fn is_gc_ref(ref_name: &str) -> (r: bool)
    ensures
        r == is_gc_ref_spec(ref_name@),
{
    let name = str_chars(ref_name);
    let prefix = str_chars("refs/branchless/");
    starts_with(name.as_slice(), prefix.as_slice())
}

/// Whether updates to a reference are not worth recording: the garbage
/// collection references, and Git's scratch references `ORIG_HEAD`,
/// `CHERRY_PICK`, `REBASE_HEAD`, `CHERRY_PICK_HEAD` and `FETCH_HEAD`.
pub open spec fn should_ignore_spec(ref_name: Seq<char>) -> bool {
    is_gc_ref_spec(ref_name) || ref_name == "ORIG_HEAD"@ || ref_name == "CHERRY_PICK"@ || ref_name
        == "REBASE_HEAD"@ || ref_name == "CHERRY_PICK_HEAD"@ || ref_name == "FETCH_HEAD"@
}

/// Determines whether or not updates to the given reference should be
/// ignored.
pub fn should_ignore_ref_updates(ref_name: &str) -> (r: bool)
    ensures
        r == should_ignore_spec(ref_name@),
{
    if is_gc_ref(ref_name) {
        return true;
    }
    let name = str_chars(ref_name);
    let n = name.as_slice();
    chars_eq(n, str_chars("ORIG_HEAD").as_slice()) || chars_eq(n, str_chars("CHERRY_PICK").as_slice())
        || chars_eq(n, str_chars("REBASE_HEAD").as_slice()) || chars_eq(
        n,
        str_chars("CHERRY_PICK_HEAD").as_slice(),
    ) || chars_eq(n, str_chars("FETCH_HEAD").as_slice())
}

/// Make a transaction ID from a number, for tests.
pub fn make_dummy_transaction_id(id: isize) -> (r: EventTransactionId)
    ensures
        r.0 == id,
{
    EventTransactionId(id)
}

/// Whether an event, as the replayer sees it, shows or hides a commit.
#[derive(Clone, Copy, Debug, PartialEq, Eq, Structural)]
pub enum EventClassification {
    Show,
    Hide,
}

/// Whether or not a commit is visible, as decided by the last event that
/// affected the commit.
#[derive(Clone, Copy, Debug, PartialEq, Eq, Structural)]
pub enum CommitVisibility {
    /// The commit is visible, and should be rendered as part of the commit graph.
    Visible,
    /// The commit is hidden, and should be hidden from the commit graph (unless
    /// a descendant commit is visible).
    Hidden,
}

/// The classifications that an event contributes to the history of the
/// commit `oid`: a rewrite hides its old commit and shows its new one (in
/// that order), a commit or an unhide shows, a hide hides, and reference
/// updates touch no commit.
pub open spec fn classifications_for(e: EventView, oid: Seq<u8>) -> Seq<EventClassification> {
    match e {
        EventView::Rewrite { old_oid, new_oid, .. } => (if old_oid == oid {
            seq![EventClassification::Hide]
        } else {
            Seq::empty()
        }) + (if new_oid == oid {
            seq![EventClassification::Show]
        } else {
            Seq::empty()
        }),
        EventView::RefUpdate { .. } => Seq::empty(),
        EventView::Commit { oid: o, .. } => if o == oid {
            seq![EventClassification::Show]
        } else {
            Seq::empty()
        },
        EventView::Hide { oid: o, .. } => if o == oid {
            seq![EventClassification::Hide]
        } else {
            Seq::empty()
        },
        EventView::Unhide { oid: o, .. } => if o == oid {
            seq![EventClassification::Show]
        } else {
            Seq::empty()
        },
    }
}

/// The history of the commit `oid` in the recorded events `evs`: for each
/// event (by position) that affects it, the event's position and how it
/// classifies the commit, oldest first.
pub open spec fn commit_history(evs: Seq<EventView>, oid: Seq<u8>) -> Seq<(int, EventClassification)>
    decreases evs.len(),
{
    if evs.len() == 0 {
        Seq::empty()
    } else {
        commit_history(evs.drop_last(), oid) + classifications_for(evs.last(), oid).map_values(
            |c: EventClassification| (evs.len() - 1, c),
        )
    }
}

/// Where each reference points after the recorded events `evs`: a reference
/// update with a new referent sets it, one without removes it.
pub open spec fn ref_locations_spec(evs: Seq<EventView>) -> Map<Seq<char>, Seq<char>>
    decreases evs.len(),
{
    if evs.len() == 0 {
        Map::empty()
    } else {
        let prev = ref_locations_spec(evs.drop_last());
        match evs.last() {
            EventView::RefUpdate { ref_name, new_ref, .. } => match new_ref {
                Some(n) => prev.insert(ref_name, n),
                None => prev.remove(ref_name),
            },
            _ => prev,
        }
    }
}

/// The event as it is recorded, after working around two behaviors of Git
/// v2.31: a deletion whose old referent Git left out gets the last known
/// location of the reference as its old referent, and a deletion that
/// repeats the immediately preceding deletion of the same reference with
/// the same message is dropped.
pub open spec fn fixed_event(evs: Seq<EventView>, e: EventView) -> Option<EventView> {
    let locs = ref_locations_spec(evs);
    let e2 = match e {
        EventView::RefUpdate { timestamp, tx, ref_name, old_ref: None, new_ref: None, message } => {
            EventView::RefUpdate {
                timestamp,
                tx,
                ref_name,
                old_ref: if locs.contains_key(ref_name) {
                    Some(locs[ref_name])
                } else {
                    None
                },
                new_ref: None,
                message,
            }
        },
        _ => e,
    };
    match e2 {
        EventView::RefUpdate { ref_name, new_ref: None, message, .. } => {
            if evs.len() > 0 && (match evs.last() {
                EventView::RefUpdate {
                    ref_name: last_name,
                    new_ref: None,
                    message: last_message,
                    ..
                } => last_name == ref_name && last_message == message,
                _ => false,
            }) {
                None
            } else {
                Some(e2)
            }
        },
        _ => Some(e2),
    }
}

/// Whether an event is a reference update that is not worth recording.
pub open spec fn is_ignored(e: EventView) -> bool {
    match e {
        EventView::RefUpdate { ref_name, .. } => should_ignore_spec(ref_name),
        _ => false,
    }
}

/// The recorded events after processing `e` on top of the recorded events
/// `evs`.
pub open spec fn step(evs: Seq<EventView>, e: EventView) -> Seq<EventView> {
    if is_ignored(e) {
        evs
    } else {
        match fixed_event(evs, e) {
            Some(f) => evs.push(f),
            None => evs,
        }
    }
}

/// The recorded events after processing `input` in order, starting from no
/// events.
pub open spec fn replay(input: Seq<EventView>) -> Seq<EventView>
    decreases input.len(),
{
    if input.len() == 0 {
        Seq::empty()
    } else {
        step(replay(input.drop_last()), input.last())
    }
}


/// One entry of a commit's history: the position of the event and how it
/// classifies the commit.
#[derive(Clone, Copy, Debug)]
struct EventInfo {
    id: isize,
    event_classification: EventClassification,
}

/// The events that have affected one commit.
#[derive(Debug)]
struct HistoryEntry {
    oid: Oid,
    infos: Vec<EventInfo>,
}

/// The last known location of one reference.
#[derive(Debug)]
struct RefLocation {
    ref_name: String,
    location: String,
}

/// The views of a sequence of events.
pub open spec fn events_view(evs: Seq<Event>) -> Seq<EventView> {
    evs.map_values(|e: Event| e@)
}

spec fn info_view(infos: Seq<EventInfo>) -> Seq<(int, EventClassification)> {
    infos.map_values(|i: EventInfo| (i.id as int, i.event_classification))
}

spec fn has_entry(entries: Seq<HistoryEntry>, key: Seq<u8>) -> bool {
    exists|k: int| 0 <= k < entries.len() && entries[k].oid@ == key
}

spec fn lookup(entries: Seq<HistoryEntry>, key: Seq<u8>) -> Seq<(int, EventClassification)> {
    if has_entry(entries, key) {
        info_view(entries[choose|k: int| 0 <= k < entries.len() && entries[k].oid@ == key].infos@)
    } else {
        Seq::empty()
    }
}

spec fn distinct_oids(entries: Seq<HistoryEntry>) -> bool {
    forall|k1: int, k2: int|
        0 <= k1 < entries.len() && 0 <= k2 < entries.len() && k1 != k2 ==> entries[k1].oid@
            != entries[k2].oid@
}

spec fn index_wf(entries: Seq<HistoryEntry>, evs: Seq<EventView>) -> bool {
    &&& distinct_oids(entries)
    &&& forall|k: int| 0 <= k < entries.len() ==> (#[trigger] entries[k]).oid@.len() == 20
    &&& forall|key: Seq<u8>| lookup(entries, key) == commit_history(evs, key)
}

spec fn distinct_names(locs: Seq<RefLocation>) -> bool {
    forall|k1: int, k2: int|
        0 <= k1 < locs.len() && 0 <= k2 < locs.len() && k1 != k2 ==> locs[k1].ref_name@
            != locs[k2].ref_name@
}

spec fn locs_map(locs: Seq<RefLocation>) -> Map<Seq<char>, Seq<char>> {
    Map::new(
        |name: Seq<char>| exists|k: int| 0 <= k < locs.len() && locs[k].ref_name@ == name,
        |name: Seq<char>|
            locs[choose|k: int| 0 <= k < locs.len() && locs[k].ref_name@ == name].location@,
    )
}

proof fn lemma_lookup_at(entries: Seq<HistoryEntry>, k: int)
    requires
        distinct_oids(entries),
        0 <= k < entries.len(),
    ensures
        lookup(entries, entries[k].oid@) == info_view(entries[k].infos@),
{
    let key = entries[k].oid@;
    assert(has_entry(entries, key));
    let c = choose|j: int| 0 <= j < entries.len() && entries[j].oid@ == key;
    assert(c == k);
}

proof fn lemma_locs_at(locs: Seq<RefLocation>, k: int)
    requires
        distinct_names(locs),
        0 <= k < locs.len(),
    ensures
        locs_map(locs).contains_key(locs[k].ref_name@),
        locs_map(locs)[locs[k].ref_name@] == locs[k].location@,
{
    let name = locs[k].ref_name@;
    let c = choose|j: int| 0 <= j < locs.len() && locs[j].ref_name@ == name;
    assert(c == k);
}

/// Add one entry to the history of `oid`.
fn add_info(entries: &mut Vec<HistoryEntry>, oid: Oid, info: EventInfo)
    requires
        distinct_oids(old(entries)@),
        forall|k: int| 0 <= k < old(entries)@.len() ==> (#[trigger] old(entries)@[k]).oid@.len() == 20,
    ensures
        distinct_oids(final(entries)@),
        forall|k: int| 0 <= k < final(entries)@.len() ==> (#[trigger] final(entries)@[k]).oid@.len() == 20,
        forall|key: Seq<u8>|
            #![trigger lookup(final(entries)@, key)]
            lookup(final(entries)@, key) == if key == oid@ {
                lookup(old(entries)@, key).push((info.id as int, info.event_classification))
            } else {
                lookup(old(entries)@, key)
            },
{
    let ghost old_entries = entries@;
    let mut k: usize = 0;
    let mut found: bool = false;
    while k < entries.len() && !found
        invariant
            0 <= k <= entries@.len(),
            entries@ == old_entries,
            found ==> k < entries@.len() && entries@[k as int].oid@ == oid@,
            !found ==> forall|j: int| 0 <= j < k ==> entries@[j].oid@ != oid@,
        decreases entries@.len() - k + (if found { 0int } else { 1int }),
    {
        if entries[k].oid == oid {
            found = true;
        } else {
            k = k + 1;
        }
    }
    if found {
        assert(entries@[k as int].oid@ == oid@);
        entries[k].infos.push(info);
        assert forall|key: Seq<u8>| #![trigger lookup(entries@, key)]
            lookup(entries@, key) == if key == oid@ {
                lookup(old_entries, key).push((info.id as int, info.event_classification))
            } else {
                lookup(old_entries, key)
            } by {
            assert(distinct_oids(entries@)) by {
                assert forall|k1: int, k2: int|
                    0 <= k1 < entries@.len() && 0 <= k2 < entries@.len() && k1 != k2 implies entries@[k1].oid@
                        != entries@[k2].oid@ by {
                    assert(entries@[k1].oid == old_entries[k1].oid);
                    assert(entries@[k2].oid == old_entries[k2].oid);
                }
            }
            if key == oid@ {
                lemma_lookup_at(entries@, k as int);
                lemma_lookup_at(old_entries, k as int);
                assert(info_view(entries@[k as int].infos@) =~= info_view(
                    old_entries[k as int].infos@,
                ).push((info.id as int, info.event_classification)));
            } else if has_entry(old_entries, key) {
                let j = choose|j: int| 0 <= j < old_entries.len() && old_entries[j].oid@ == key;
                lemma_lookup_at(old_entries, j);
                assert(entries@[j].oid == old_entries[j].oid);
                lemma_lookup_at(entries@, j);
            } else {
                assert(!has_entry(entries@, key)) by {
                    if has_entry(entries@, key) {
                        let j = choose|j: int| 0 <= j < entries@.len() && entries@[j].oid@ == key;
                        assert(entries@[j].oid == old_entries[j].oid);
                    }
                }
            }
        }
        assert forall|k1: int, k2: int|
            0 <= k1 < entries@.len() && 0 <= k2 < entries@.len() && k1 != k2 implies entries@[k1].oid@
                != entries@[k2].oid@ by {
            assert(entries@[k1].oid == old_entries[k1].oid);
            assert(entries@[k2].oid == old_entries[k2].oid);
        }
        assert forall|j: int| 0 <= j < entries@.len() implies (#[trigger] entries@[j]).oid@.len() == 20 by {
            assert(entries@[j].oid == old_entries[j].oid);
        }
    } else {
        let mut infos: Vec<EventInfo> = Vec::new();
        infos.push(info);
        entries.push(HistoryEntry { oid, infos });
        let ghost n = old_entries.len() as int;
        assert(entries@[n].oid@.len() == 20) by {
            assert(entries@[n].oid.bytes@.len() == 20);
        }
        assert forall|k1: int, k2: int|
            0 <= k1 < entries@.len() && 0 <= k2 < entries@.len() && k1 != k2 implies entries@[k1].oid@
                != entries@[k2].oid@ by {
            if k1 < n && k2 < n {
                assert(entries@[k1] == old_entries[k1]);
                assert(entries@[k2] == old_entries[k2]);
            } else if k1 < n {
                assert(entries@[k1] == old_entries[k1]);
            } else {
                assert(entries@[k2] == old_entries[k2]);
            }
        }
        assert forall|key: Seq<u8>| #![trigger lookup(entries@, key)]
            lookup(entries@, key) == if key == oid@ {
                lookup(old_entries, key).push((info.id as int, info.event_classification))
            } else {
                lookup(old_entries, key)
            } by {
            if key == oid@ {
                lemma_lookup_at(entries@, n);
                assert(!has_entry(old_entries, key));
                assert(info_view(entries@[n].infos@) =~= seq![
                    (info.id as int, info.event_classification),
                ]);
                assert(lookup(old_entries, key).push((info.id as int, info.event_classification))
                    =~= seq![(info.id as int, info.event_classification)]);
            } else if has_entry(old_entries, key) {
                let j = choose|j: int| 0 <= j < old_entries.len() && old_entries[j].oid@ == key;
                lemma_lookup_at(old_entries, j);
                assert(entries@[j] == old_entries[j]);
                lemma_lookup_at(entries@, j);
            } else {
                assert(!has_entry(entries@, key)) by {
                    if has_entry(entries@, key) {
                        let j = choose|j: int| 0 <= j < entries@.len() && entries@[j].oid@ == key;
                        if j < n {
                            assert(entries@[j] == old_entries[j]);
                        }
                    }
                }
            }
        }
        assert forall|j: int| 0 <= j < entries@.len() implies (#[trigger] entries@[j]).oid@.len() == 20 by {
            if j < n {
                assert(entries@[j] == old_entries[j]);
            }
        }
    }
}


/// The position of the location of `name`, if there is one.
fn find_location(locs: &Vec<RefLocation>, name: &String) -> (r: Option<usize>)
    requires
        distinct_names(locs@),
    ensures
        r matches Some(k) ==> k < locs@.len() && locs@[k as int].ref_name@ == name@,
        r is None ==> !locs_map(locs@).contains_key(name@),
{
    let mut k: usize = 0;
    while k < locs.len()
        invariant
            0 <= k <= locs@.len(),
            forall|j: int| 0 <= j < k ==> locs@[j].ref_name@ != name@,
        decreases locs@.len() - k,
    {
        if locs[k].ref_name == *name {
            return Some(k);
        }
        k = k + 1;
    }
    None
}

/// Record that `name` now points to `location`.
fn set_location(locs: &mut Vec<RefLocation>, name: String, location: String)
    requires
        distinct_names(old(locs)@),
    ensures
        distinct_names(final(locs)@),
        locs_map(final(locs)@) == locs_map(old(locs)@).insert(name@, location@),
{
    let ghost old_locs = locs@;
    let ghost name_v = name@;
    let ghost loc_v = location@;
    match find_location(locs, &name) {
        Some(k) => {
            locs.set(k, RefLocation { ref_name: name, location });
            assert forall|k1: int, k2: int|
                0 <= k1 < locs@.len() && 0 <= k2 < locs@.len() && k1 != k2 implies locs@[k1].ref_name@
                    != locs@[k2].ref_name@ by {
                if k1 != k && k2 != k {
                    assert(locs@[k1] == old_locs[k1]);
                    assert(locs@[k2] == old_locs[k2]);
                } else if k1 == k {
                    assert(locs@[k2] == old_locs[k2]);
                } else {
                    assert(locs@[k1] == old_locs[k1]);
                }
            }
            assert forall|n: Seq<char>|
                #![trigger locs_map(locs@).contains_key(n)]
                locs_map(locs@).contains_key(n) == locs_map(old_locs).insert(name_v, loc_v).contains_key(n)
                    && (locs_map(locs@).contains_key(n) ==> locs_map(locs@)[n] == locs_map(
                    old_locs,
                ).insert(name_v, loc_v)[n]) by {
                if n == name_v {
                    lemma_locs_at(locs@, k as int);
                } else {
                    if locs_map(old_locs).contains_key(n) {
                        let j = choose|j: int| 0 <= j < old_locs.len() && old_locs[j].ref_name@ == n;
                        lemma_locs_at(old_locs, j);
                        assert(locs@[j] == old_locs[j]);
                        lemma_locs_at(locs@, j);
                    }
                    if locs_map(locs@).contains_key(n) {
                        let j = choose|j: int| 0 <= j < locs@.len() && locs@[j].ref_name@ == n;
                        assert(locs@[j] == old_locs[j]);
                    }
                }
            }
            assert(locs_map(locs@) =~= locs_map(old_locs).insert(name_v, loc_v));
        },
        None => {
            locs.push(RefLocation { ref_name: name, location });
            let ghost n0 = old_locs.len() as int;
            assert forall|k1: int, k2: int|
                0 <= k1 < locs@.len() && 0 <= k2 < locs@.len() && k1 != k2 implies locs@[k1].ref_name@
                    != locs@[k2].ref_name@ by {
                if k1 < n0 && k2 < n0 {
                    assert(locs@[k1] == old_locs[k1]);
                    assert(locs@[k2] == old_locs[k2]);
                } else if k1 < n0 {
                    assert(locs@[k1] == old_locs[k1]);
                    if locs@[k1].ref_name@ == name_v {
                        assert(locs_map(old_locs).contains_key(name_v));
                    }
                } else {
                    assert(locs@[k2] == old_locs[k2]);
                    if locs@[k2].ref_name@ == name_v {
                        assert(locs_map(old_locs).contains_key(name_v));
                    }
                }
            }
            assert forall|n: Seq<char>|
                #![trigger locs_map(locs@).contains_key(n)]
                locs_map(locs@).contains_key(n) == locs_map(old_locs).insert(name_v, loc_v).contains_key(n)
                    && (locs_map(locs@).contains_key(n) ==> locs_map(locs@)[n] == locs_map(
                    old_locs,
                ).insert(name_v, loc_v)[n]) by {
                if n == name_v {
                    lemma_locs_at(locs@, n0);
                } else {
                    if locs_map(old_locs).contains_key(n) {
                        let j = choose|j: int| 0 <= j < old_locs.len() && old_locs[j].ref_name@ == n;
                        lemma_locs_at(old_locs, j);
                        assert(locs@[j] == old_locs[j]);
                        lemma_locs_at(locs@, j);
                    }
                    if locs_map(locs@).contains_key(n) {
                        let j = choose|j: int| 0 <= j < locs@.len() && locs@[j].ref_name@ == n;
                        assert(j < n0);
                        assert(locs@[j] == old_locs[j]);
                    }
                }
            }
            assert(locs_map(locs@) =~= locs_map(old_locs).insert(name_v, loc_v));
        },
    }
}

/// Forget the location of `name`.
fn remove_location(locs: &mut Vec<RefLocation>, name: &String)
    requires
        distinct_names(old(locs)@),
    ensures
        distinct_names(final(locs)@),
        locs_map(final(locs)@) == locs_map(old(locs)@).remove(name@),
{
    let ghost old_locs = locs@;
    match find_location(locs, name) {
        Some(k) => {
            locs.remove(k);
            assert forall|k1: int, k2: int|
                0 <= k1 < locs@.len() && 0 <= k2 < locs@.len() && k1 != k2 implies locs@[k1].ref_name@
                    != locs@[k2].ref_name@ by {
                let o1 = if k1 < k { k1 } else { k1 + 1 };
                let o2 = if k2 < k { k2 } else { k2 + 1 };
                assert(locs@[k1] == old_locs[o1]);
                assert(locs@[k2] == old_locs[o2]);
            }
            assert forall|n: Seq<char>|
                #![trigger locs_map(locs@).contains_key(n)]
                locs_map(locs@).contains_key(n) == locs_map(old_locs).remove(name@).contains_key(n)
                    && (locs_map(locs@).contains_key(n) ==> locs_map(locs@)[n] == locs_map(
                    old_locs,
                ).remove(name@)[n]) by {
                if locs_map(locs@).contains_key(n) {
                    let j = choose|j: int| 0 <= j < locs@.len() && locs@[j].ref_name@ == n;
                    let o = if j < k { j } else { j + 1 };
                    assert(locs@[j] == old_locs[o]);
                    lemma_locs_at(locs@, j);
                    lemma_locs_at(old_locs, o);
                    assert(n != name@);
                }
                if n != name@ && locs_map(old_locs).contains_key(n) {
                    let j = choose|j: int| 0 <= j < old_locs.len() && old_locs[j].ref_name@ == n;
                    assert(j != k);
                    let m = if j < k { j } else { j - 1 };
                    assert(locs@[m] == old_locs[j]);
                    assert(locs_map(locs@).contains_key(n));
                }
            }
            assert(locs_map(locs@) =~= locs_map(old_locs).remove(name@));
        },
        None => {
            assert(locs_map(locs@) =~= locs_map(old_locs).remove(name@));
        },
    }
}

/// The last known location of `name`, if any.
fn get_location(locs: &Vec<RefLocation>, name: &String) -> (r: Option<String>)
    requires
        distinct_names(locs@),
    ensures
        r is Some <==> locs_map(locs@).contains_key(name@),
        r matches Some(l) ==> l@ == locs_map(locs@)[name@],
{
    match find_location(locs, name) {
        Some(k) => {
            proof {
                lemma_locs_at(locs@, k as int);
            }
            Some(locs[k].location.clone())
        },
        None => None,
    }
}


proof fn lemma_history_push(evs: Seq<EventView>, f: EventView, key: Seq<u8>)
    ensures
        commit_history(evs.push(f), key) == commit_history(evs, key) + classifications_for(
            f,
            key,
        ).map_values(|c: EventClassification| (evs.len() as int, c)),
{
    assert(evs.push(f).drop_last() =~= evs);
}

proof fn lemma_locations_push(evs: Seq<EventView>, f: EventView)
    ensures
        ref_locations_spec(evs.push(f)) == match f {
            EventView::RefUpdate { ref_name, new_ref, .. } => match new_ref {
                Some(n) => ref_locations_spec(evs).insert(ref_name, n),
                None => ref_locations_spec(evs).remove(ref_name),
            },
            _ => ref_locations_spec(evs),
        },
{
    assert(evs.push(f).drop_last() =~= evs);
}

/// Processes events in order and determines the repository's visible
/// commits at any point of the recorded history.
#[derive(Debug)]
pub struct EventReplayer {
    /// Events are numbered starting from zero.
    id_counter: isize,
    /// The recorded events.
    events: Vec<Event>,
    /// The events that have affected each commit.
    commit_history: Vec<HistoryEntry>,
    /// Where each reference last pointed (an object ID or another reference
    /// name). A reference that was never seen, or was deleted, has no entry.
    ref_locations: Vec<RefLocation>,
}

impl EventReplayer {
    /// The recorded events.
    pub closed spec fn recorded(&self) -> Seq<EventView> {
        events_view(self.events@)
    }

    /// The replayer's internal invariant: the per-commit histories and the
    /// reference locations are exactly those that the recorded events
    /// determine, and the events are numbered by their position.
    pub closed spec fn wf(&self) -> bool {
        &&& self.id_counter == self.events@.len()
        &&& self.events@.len() <= isize::MAX
        &&& index_wf(self.commit_history@, self.recorded())
        &&& distinct_names(self.ref_locations@)
        &&& locs_map(self.ref_locations@) == ref_locations_spec(self.recorded())
    }

    /// A replayer that has seen no events.
    pub fn new() -> (r: EventReplayer)
        ensures
            r.wf(),
            r.recorded() == Seq::<EventView>::empty(),
    {
        let r = EventReplayer {
            id_counter: 0,
            events: Vec::new(),
            commit_history: Vec::new(),
            ref_locations: Vec::new(),
        };
        assert(r.recorded() =~= Seq::<EventView>::empty());
        assert(locs_map(r.ref_locations@) =~= Map::<Seq<char>, Seq<char>>::empty());
        assert forall|key: Seq<u8>| lookup(r.commit_history@, key) == commit_history(r.recorded(), key) by {
            assert(!has_entry(r.commit_history@, key));
        }
        r
    }

    /// The number of recorded events.
    pub fn num_events(&self) -> (r: usize)
        requires
            self.wf(),
        ensures
            r == self.recorded().len(),
    {
        self.events.len()
    }

    /// Work around the Git v2.31 behaviors described at `fixed_event`.
    fn fix_event_git_v2_31(&self, event: Event) -> (r: Option<Event>)
        requires
            self.wf(),
        ensures
            match r {
                Some(f) => fixed_event(self.recorded(), event@) == Some(f@),
                None => fixed_event(self.recorded(), event@) is None,
            },
    {
        let ghost ev = event@;
        let event = match event {
            Event::RefUpdateEvent { timestamp, event_tx_id, ref_name, old_ref: None, new_ref: None, message } => {
                let old_ref = get_location(&self.ref_locations, &ref_name);
                Event::RefUpdateEvent { timestamp, event_tx_id, ref_name, old_ref, new_ref: None, message }
            },
            other => other,
        };
        let n: usize = self.events.len();
        let is_duplicate_deletion: bool = match &event {
            Event::RefUpdateEvent { ref_name, new_ref: None, message, .. } => {
                if n == 0 {
                    false
                } else {
                    match &self.events[n - 1] {
                        Event::RefUpdateEvent {
                            ref_name: last_ref_name,
                            new_ref: None,
                            message: last_message,
                            ..
                        } => *ref_name == *last_ref_name && opt_string_eq(message, last_message),
                        _ => false,
                    }
                }
            },
            _ => false,
        };
        proof {
            if n > 0 {
                assert(self.recorded().last() == self.events@[n - 1]@);
            }
        }
        if is_duplicate_deletion {
            None
        } else {
            Some(event)
        }
    }

    /// Process the next event. Events are passed in order from oldest to
    /// newest. Reference updates that are not worth recording are dropped,
    /// and the event is fixed up as `fixed_event` describes.
    ///
    /// Every query of the replayer is a function of the recorded events, so
    /// where these stay the same (an ignored reference update; a deletion
    /// of a reference right after the same deletion) every query, the
    /// default cursor included, answers as before. After a commit, hide,
    /// unhide or rewrite event, the newest cursor sees the commits it names
    /// as the event says, and the event is the latest one of each of them.
    pub fn process_event(&mut self, event: &Event)
        requires
            old(self).wf(),
            old(self).recorded().len() < isize::MAX,
        ensures
            final(self).wf(),
            final(self).recorded() == step(old(self).recorded(), event@),
            is_ignored(event@) ==> final(self).recorded() == old(self).recorded(),
            ({
                &&& !is_ignored(event@)
                &&& event@ matches EventView::RefUpdate { ref_name, new_ref: None, message, .. }
                &&& old(self).recorded().len() > 0
                &&& old(self).recorded().last() matches EventView::RefUpdate {
                    ref_name: last_name,
                    new_ref: None,
                    message: last_message,
                    ..
                }
                &&& last_name == ref_name
                &&& last_message == message
            }) ==> final(self).recorded() == old(self).recorded(),
            ({
                let after = final(self).recorded();
                let newest = after.len() as int;
                &&& event@ matches EventView::Hide { oid, .. } ==> visibility_spec(after, newest, oid) == Some(
                    CommitVisibility::Hidden,
                )
                &&& event@ matches EventView::Unhide { oid, .. } ==> visibility_spec(after, newest, oid) == Some(
                    CommitVisibility::Visible,
                )
                &&& event@ matches EventView::Commit { oid, .. } ==> visibility_spec(after, newest, oid) == Some(
                    CommitVisibility::Visible,
                )
                &&& event@ matches EventView::Rewrite { old_oid, new_oid, .. } ==> {
                    &&& visibility_spec(after, newest, new_oid) == Some(CommitVisibility::Visible)
                    &&& old_oid != new_oid ==> visibility_spec(after, newest, old_oid) == Some(
                        CommitVisibility::Hidden,
                    )
                }
            }),
            !(event@ is RefUpdate) ==> final(self).recorded() == old(self).recorded().push(event@),
            forall|key: Seq<u8>|
                !(event@ is RefUpdate) && #[trigger] classifications_for(event@, key).len() > 0
                    ==> latest_event_spec(final(self).recorded(), final(self).recorded().len() as int, key) == Some(
                    old(self).recorded().len() as int,
                ),
    {
        proof {
            let evs = self.recorded();
            crate::visibility::lemma_event_sets_visibility(evs, event@);
            crate::visibility::lemma_dropped_events(evs, event@);
            assert forall|key: Seq<u8>|
                !(event@ is RefUpdate) && #[trigger] classifications_for(event@, key).len() > 0 implies latest_event_spec(
                step(evs, event@),
                step(evs, event@).len() as int,
                key,
            ) == Some(evs.len() as int) && step(evs, event@) == evs.push(event@) by {
                crate::visibility::lemma_event_is_latest(evs, event@, key);
            }
        }
        if let Event::RefUpdateEvent { ref_name, .. } = event {
            if should_ignore_ref_updates(ref_name.as_str()) {
                return;
            }
        }
        let fixed = match self.fix_event_git_v2_31(event.clone()) {
            None => {
                return;
            },
            Some(fixed) => fixed,
        };
        let ghost evs = self.recorded();
        let ghost fv = fixed@;
        let ghost old_entries = self.commit_history@;
        let id: isize = self.id_counter;
        match &fixed {
            Event::RewriteEvent { old_commit_oid, new_commit_oid, .. } => {
                add_info(
                    &mut self.commit_history,
                    *old_commit_oid,
                    EventInfo { id, event_classification: EventClassification::Hide },
                );
                add_info(
                    &mut self.commit_history,
                    *new_commit_oid,
                    EventInfo { id, event_classification: EventClassification::Show },
                );
            },
            Event::RefUpdateEvent { ref_name, new_ref, .. } => {
                match new_ref {
                    Some(new_ref) => {
                        set_location(&mut self.ref_locations, ref_name.clone(), new_ref.clone());
                    },
                    None => {
                        remove_location(&mut self.ref_locations, ref_name);
                    },
                }
            },
            Event::CommitEvent { commit_oid, .. } => {
                add_info(
                    &mut self.commit_history,
                    *commit_oid,
                    EventInfo { id, event_classification: EventClassification::Show },
                );
            },
            Event::HideEvent { commit_oid, .. } => {
                add_info(
                    &mut self.commit_history,
                    *commit_oid,
                    EventInfo { id, event_classification: EventClassification::Hide },
                );
            },
            Event::UnhideEvent { commit_oid, .. } => {
                add_info(
                    &mut self.commit_history,
                    *commit_oid,
                    EventInfo { id, event_classification: EventClassification::Show },
                );
            },
        }
        self.events.push(fixed);
        self.id_counter = id + 1;
        proof {
            assert(self.recorded() =~= evs.push(fv));
            lemma_locations_push(evs, fv);
            assert forall|key: Seq<u8>|
                lookup(self.commit_history@, key) == commit_history(self.recorded(), key) by {
                lemma_history_push(evs, fv, key);
                assert(lookup(old_entries, key) == commit_history(evs, key));
                let tail = classifications_for(fv, key).map_values(
                    |c: EventClassification| (evs.len() as int, c),
                );
                assert(lookup(self.commit_history@, key) =~= lookup(old_entries, key) + tail);
            }
        }
    }

    /// A replayer that has processed `events` in order.
    pub fn from_events(events: &Vec<Event>) -> (r: EventReplayer)
        requires
            events@.len() < isize::MAX,
        ensures
            r.wf(),
            r.recorded() == replay(events_view(events@)),
    {
        let mut r = EventReplayer::new();
        let mut i: usize = 0;
        while i < events.len()
            invariant
                0 <= i <= events@.len() < isize::MAX,
                r.wf(),
                r.recorded() == replay(events_view(events@.take(i as int))),
                r.recorded().len() <= i,
            decreases events@.len() - i,
        {
            proof {
                lemma_replay_len(events_view(events@.take(i as int)));
                assert(events_view(events@.take(i + 1)).drop_last() =~= events_view(events@.take(i as int)));
                assert(events_view(events@.take(i + 1)).last() == events@[i as int]@);
            }
            r.process_event(&events[i]);
            i = i + 1;
        }
        assert(events@.take(events@.len() as int) =~= events@);
        r
    }
}

/// Whether two optional strings are equal.
fn opt_string_eq(a: &Option<String>, b: &Option<String>) -> (r: bool)
    ensures
        r == (opt_view(*a) == opt_view(*b)),
{
    match (a, b) {
        (Some(a), Some(b)) => *a == *b,
        (None, None) => true,
        _ => false,
    }
}

/// Replaying never records more events than it was given.
pub proof fn lemma_replay_len(input: Seq<EventView>)
    ensures
        replay(input).len() <= input.len(),
    decreases input.len(),
{
    if input.len() > 0 {
        lemma_replay_len(input.drop_last());
    }
}


/// Events before this cursor are in effect; the ones at or after it have
/// not happened yet.
#[derive(Clone, Copy, Debug, PartialEq, Eq, Structural)]
pub struct EventCursor {
    pub event_id: isize,
}

/// The history of commit `key` as of cursor position `c`.
pub open spec fn cursor_history(evs: Seq<EventView>, c: int, key: Seq<u8>) -> Seq<(int, EventClassification)> {
    commit_history(evs.take(c), key)
}

/// Whether commit `key` is visible or hidden as of cursor position `c`:
/// decided by the last event before the cursor that affected it, `None` if
/// none did.
pub open spec fn visibility_spec(evs: Seq<EventView>, c: int, key: Seq<u8>) -> Option<CommitVisibility> {
    let h = cursor_history(evs, c, key);
    if h.len() == 0 {
        None
    } else if h.last().1 == EventClassification::Show {
        Some(CommitVisibility::Visible)
    } else {
        Some(CommitVisibility::Hidden)
    }
}

/// The position of the last event before cursor position `c` that affected
/// commit `key`.
pub open spec fn latest_event_spec(evs: Seq<EventView>, c: int, key: Seq<u8>) -> Option<int> {
    let h = cursor_history(evs, c, key);
    if h.len() == 0 {
        None
    } else {
        Some(h.last().0)
    }
}

/// Every entry of a commit's history names the position of an event.
pub proof fn lemma_history_ids(evs: Seq<EventView>, key: Seq<u8>)
    ensures
        forall|i: int|
            0 <= i < commit_history(evs, key).len() ==> 0 <= #[trigger] commit_history(evs, key)[i].0
                < evs.len(),
    decreases evs.len(),
{
    if evs.len() > 0 {
        lemma_history_ids(evs.drop_last(), key);
        let h0 = commit_history(evs.drop_last(), key);
        let h = commit_history(evs, key);
        assert forall|i: int| 0 <= i < h.len() implies 0 <= #[trigger] h[i].0 < evs.len() by {
            if i < h0.len() {
                assert(h[i] == h0[i]);
            } else {
                assert(h[i].0 == evs.len() - 1);
            }
        }
    }
}

/// The history as of a cursor is the prefix of the full history made of
/// the events before the cursor.
pub proof fn lemma_history_prefix(evs: Seq<EventView>, key: Seq<u8>, c: int)
    requires
        0 <= c <= evs.len(),
    ensures
        commit_history(evs.take(c), key).len() <= commit_history(evs, key).len(),
        commit_history(evs.take(c), key) == commit_history(evs, key).take(
            commit_history(evs.take(c), key).len() as int,
        ),
        forall|i: int|
            0 <= i < commit_history(evs.take(c), key).len() ==> #[trigger] commit_history(
                evs,
                key,
            )[i].0 < c,
        forall|i: int|
            commit_history(evs.take(c), key).len() <= i < commit_history(evs, key).len() ==> c
                <= #[trigger] commit_history(evs, key)[i].0,
    decreases evs.len(),
{
    let h = commit_history(evs, key);
    if c == evs.len() {
        assert(evs.take(c) =~= evs);
        lemma_history_ids(evs, key);
        assert(h.take(h.len() as int) =~= h);
    } else {
        let prev = evs.drop_last();
        lemma_history_prefix(prev, key, c);
        assert(evs.take(c) =~= prev.take(c));
        let hp = commit_history(prev.take(c), key);
        let h0 = commit_history(prev, key);
        lemma_history_ids(prev, key);
        assert(h.take(h0.len() as int) =~= h0);
        assert(h.take(hp.len() as int) =~= h0.take(hp.len() as int));
        assert forall|i: int| hp.len() <= i < h.len() implies c <= #[trigger] h[i].0 by {
            if i >= h0.len() {
                assert(h[i].0 == evs.len() - 1);
            } else {
                assert(h[i] == h0[i]);
            }
        }
        assert forall|i: int| 0 <= i < hp.len() implies #[trigger] h[i].0 < c by {
            assert(h[i] == h0[i]);
        }
    }
}

impl EventReplayer {
    /// The recorded events, as a sequence.
    pub fn get_events(&self) -> (r: &Vec<Event>)
        ensures
            events_view(r@) == self.recorded(),
    {
        &self.events
    }

    /// The position of the history of `oid` in the index, and how many of
    /// its entries come before `cursor`.
    fn cursor_history_len(&self, cursor: EventCursor, oid: Oid) -> (r: (Option<usize>, usize))
        requires
            self.wf(),
            0 <= cursor.event_id <= self.recorded().len(),
        ensures
            r.1 == cursor_history(self.recorded(), cursor.event_id as int, oid@).len(),
            r.0 is None ==> r.1 == 0,
            r.0 matches Some(k) ==> k < self.commit_history@.len() && r.1 <= self.commit_history@[k as int].infos@.len()
                && info_view(self.commit_history@[k as int].infos@) == commit_history(self.recorded(), oid@),
    {
        let ghost evs = self.recorded();
        proof {
            lemma_history_prefix(evs, oid@, cursor.event_id as int);
        }
        let mut k: usize = 0;
        let mut found: bool = false;
        while k < self.commit_history.len() && !found
            invariant
                0 <= k <= self.commit_history@.len(),
                found ==> k < self.commit_history@.len() && self.commit_history@[k as int].oid@ == oid@,
                !found ==> forall|j: int| 0 <= j < k ==> self.commit_history@[j].oid@ != oid@,
            decreases self.commit_history@.len() - k + (if found { 0int } else { 1int }),
        {
            if self.commit_history[k].oid == oid {
                found = true;
            } else {
                k = k + 1;
            }
        }
        if !found {
            assert(!has_entry(self.commit_history@, oid@));
            assert(lookup(self.commit_history@, oid@) == commit_history(evs, oid@));
            return (None, 0);
        }
        proof {
            lemma_lookup_at(self.commit_history@, k as int);
        }
        let infos = &self.commit_history[k].infos;
        let ghost h = commit_history(evs, oid@);
        let ghost hp = cursor_history(evs, cursor.event_id as int, oid@);
        assert(info_view(infos@) == h);
        let mut m: usize = 0;
        while m < infos.len() && infos[m].id < cursor.event_id
            invariant
                0 <= m <= infos@.len(),
                info_view(infos@) == h,
                m <= hp.len(),
                hp.len() <= h.len(),
                forall|i: int| hp.len() <= i < h.len() ==> cursor.event_id <= #[trigger] h[i].0,
            decreases infos@.len() - m,
        {
            assert(h[m as int].0 == infos@[m as int].id);
            m = m + 1;
        }
        proof {
            if m < hp.len() {
                assert(h[m as int].0 == infos@[m as int].id);
                assert(h[m as int].0 < cursor.event_id);
            }
        }
        (Some(k), m)
    }

    /// Whether a commit was visible or hidden at the cursor's point in time;
    /// `None` if no event before the cursor affected it.
    pub fn get_cursor_commit_visibility(&self, cursor: EventCursor, oid: Oid) -> (r: Option<CommitVisibility>)
        requires
            self.wf(),
            0 <= cursor.event_id <= self.recorded().len(),
        ensures
            r == visibility_spec(self.recorded(), cursor.event_id as int, oid@),
    {
        let ghost evs = self.recorded();
        let (k, m) = self.cursor_history_len(cursor, oid);
        match k {
            None => None,
            Some(k) => {
                if m == 0 {
                    None
                } else {
                    proof {
                        lemma_history_prefix(evs, oid@, cursor.event_id as int);
                        let h = commit_history(evs, oid@);
                        assert(cursor_history(evs, cursor.event_id as int, oid@).last() == h[m - 1]);
                    }
                    let info = self.commit_history[k].infos[m - 1];
                    match info.event_classification {
                        EventClassification::Show => Some(CommitVisibility::Visible),
                        EventClassification::Hide => Some(CommitVisibility::Hidden),
                    }
                }
            },
        }
    }

    /// The latest event before the cursor that affected a commit, with its
    /// position; `None` if there is none.
    pub(crate) fn cursor_latest_event_id(&self, cursor: EventCursor, oid: Oid) -> (r: Option<usize>)
        requires
            self.wf(),
            0 <= cursor.event_id <= self.recorded().len(),
        ensures
            r matches Some(i) ==> latest_event_spec(self.recorded(), cursor.event_id as int, oid@) == Some(i as int)
                && i < self.recorded().len(),
            r is None ==> latest_event_spec(self.recorded(), cursor.event_id as int, oid@) is None,
    {
        let ghost evs = self.recorded();
        let (k, m) = self.cursor_history_len(cursor, oid);
        match k {
            None => None,
            Some(k) => {
                if m == 0 {
                    None
                } else {
                    proof {
                        lemma_history_prefix(evs, oid@, cursor.event_id as int);
                        lemma_history_ids(evs, oid@);
                        let h = commit_history(evs, oid@);
                        assert(cursor_history(evs, cursor.event_id as int, oid@).last() == h[m - 1]);
                        assert(h[m - 1].0 == self.commit_history@[k as int].infos@[m - 1].id);
                    }
                    let info = self.commit_history[k].infos[m - 1];
                    Some(info.id as usize)
                }
            },
        }
    }

    /// The latest event before the cursor that affected a commit; `None` if
    /// no event before the cursor affected it.
    pub fn get_cursor_commit_latest_event(&self, cursor: EventCursor, oid: Oid) -> (r: Option<&Event>)
        requires
            self.wf(),
            0 <= cursor.event_id <= self.recorded().len(),
        ensures
            r is None <==> latest_event_spec(self.recorded(), cursor.event_id as int, oid@) is None,
            r matches Some(e) ==> e@ == self.recorded()[latest_event_spec(
                self.recorded(),
                cursor.event_id as int,
                oid@,
            )->0],
    {
        match self.cursor_latest_event_id(cursor, oid) {
            None => None,
            Some(i) => Some(&self.events[i]),
        }
    }

    /// The commits that some event before the cursor affected.
    pub fn get_cursor_active_oids(&self, cursor: EventCursor) -> (r: Vec<Oid>)
        requires
            self.wf(),
            0 <= cursor.event_id <= self.recorded().len(),
        ensures
            forall|i: int, j: int| 0 <= i < j < r@.len() ==> r@[i]@ != r@[j]@,
            forall|key: Seq<u8>|
                #![trigger oids_contain(r@, key)]
                oids_contain(r@, key) <==> cursor_history(self.recorded(), cursor.event_id as int, key).len() > 0,
    {
        let ghost evs = self.recorded();
        let ghost c = cursor.event_id as int;
        let ghost entries = self.commit_history@;
        let mut result: Vec<Oid> = Vec::new();
        let mut k: usize = 0;
        while k < self.commit_history.len()
            invariant
                0 <= k <= entries.len(),
                entries == self.commit_history@,
                self.wf(),
                evs == self.recorded(),
                c == cursor.event_id,
                0 <= c <= evs.len(),
                forall|i: int, j: int|
                    #![trigger result@[i], entries[j]]
                    0 <= i < result@.len() && k <= j < entries.len() ==> result@[i]@ != entries[j].oid@,
                forall|i: int, j: int| 0 <= i < j < result@.len() ==> result@[i]@ != result@[j]@,
                forall|i: int| 0 <= i < result@.len() ==> cursor_history(evs, c, (#[trigger] result@[i])@).len() > 0,
                forall|j: int|
                    0 <= j < k && cursor_history(evs, c, (#[trigger] entries[j]).oid@).len() > 0 ==> oids_contain(
                        result@,
                        entries[j].oid@,
                    ),
            decreases entries.len() - k,
        {
            let entry = &self.commit_history[k];
            proof {
                lemma_lookup_at(entries, k as int);
                lemma_history_prefix(evs, entry.oid@, c);
            }
            let ghost h = commit_history(evs, entry.oid@);
            let ghost hp = cursor_history(evs, c, entry.oid@);
            let active: bool = entry.infos.len() > 0 && entry.infos[0].id < cursor.event_id;
            proof {
                if entry.infos@.len() > 0 {
                    assert(h[0].0 == entry.infos@[0].id);
                }
                if !active && hp.len() > 0 {
                    assert(h[0].0 < c);
                }
            }
            if active {
                let ghost before = result@;
                result.push(entry.oid);
                proof {
                    assert(result@[result@.len() - 1] == entries[k as int].oid);
                    assert forall|i: int, j: int|
                        #![trigger result@[i], entries[j]]
                        0 <= i < result@.len() && k + 1 <= j < entries.len() implies result@[i]@ != entries[j].oid@ by {
                        if i < before.len() {
                            assert(result@[i] == before[i]);
                        }
                    }
                    assert forall|i: int, j: int| 0 <= i < j < result@.len() implies result@[i]@ != result@[j]@ by {
                        if j == result@.len() - 1 {
                            assert(result@[i] == before[i]);
                            assert(before[i]@ != entries[k as int].oid@);
                        } else {
                            assert(result@[i] == before[i]);
                            assert(result@[j] == before[j]);
                        }
                    }
                    assert forall|i: int| 0 <= i < result@.len() implies cursor_history(evs, c, (#[trigger] result@[i])@).len() > 0 by {
                        if i < before.len() {
                            assert(result@[i] == before[i]);
                        }
                    }
                    assert forall|j: int|
                        0 <= j < k + 1 && cursor_history(evs, c, (#[trigger] entries[j]).oid@).len() > 0 implies oids_contain(
                            result@,
                            entries[j].oid@,
                        ) by {
                        if j == k {
                            assert(result@[result@.len() - 1]@ == entries[j].oid@);
                        } else {
                            let i = choose|i: int| 0 <= i < before.len() && before[i]@ == entries[j].oid@;
                            assert(result@[i] == before[i]);
                        }
                    }
                }
            }
            k = k + 1;
        }
        proof {
            assert forall|key: Seq<u8>|
                #![trigger oids_contain(result@, key)]
                oids_contain(result@, key) <==> cursor_history(evs, c, key).len() > 0 by {
                if oids_contain(result@, key) {
                    let i = choose|i: int| 0 <= i < result@.len() && result@[i]@ == key;
                    assert(cursor_history(evs, c, result@[i]@).len() > 0);
                }
                if cursor_history(evs, c, key).len() > 0 {
                    lemma_history_prefix(evs, key, c);
                    assert(lookup(entries, key) == commit_history(evs, key));
                    assert(has_entry(entries, key));
                    let j = choose|j: int| 0 <= j < entries.len() && entries[j].oid@ == key;
                    assert(cursor_history(evs, c, entries[j].oid@).len() > 0);
                }
            }
        }
        result
    }
}

/// Whether one of `oids` is `key`.
pub open spec fn oids_contain(oids: Seq<Oid>, key: Seq<u8>) -> bool {
    exists|i: int| 0 <= i < oids.len() && oids[i]@ == key
}


/// `v` clamped to the cursor positions `0..=len`.
pub open spec fn clamp(v: int, len: int) -> int {
    if v < 0 {
        0
    } else if v > len {
        len
    } else {
        v
    }
}

/// The transaction of the event just before cursor position `c`, if any.
pub open spec fn tx_before(evs: Seq<EventView>, c: int) -> Option<isize> {
    if c <= 0 {
        None
    } else {
        Some(tx_of(evs[c - 1]))
    }
}

/// Whether cursor position `b` lies between two transactions: at either
/// end of the log, or between two events of different transactions.
pub open spec fn is_boundary(evs: Seq<EventView>, b: int) -> bool {
    0 <= b <= evs.len() && (b == 0 || b == evs.len() || tx_of(evs[b - 1]) != tx_of(evs[b]))
}

/// The first transaction boundary at or after position `c`.
pub open spec fn snap_spec(evs: Seq<EventView>, c: int) -> int
    decreases evs.len() - c,
{
    if c >= evs.len() {
        evs.len() as int
    } else if is_boundary(evs, c) {
        c
    } else {
        snap_spec(evs, c + 1)
    }
}

/// Moving the cursor from position `c` by `n` transactions (forward for
/// positive `n`, backward for negative `n`), one event at a time, counting
/// the transaction boundaries crossed.
pub open spec fn advance_by_tx_helper(evs: Seq<EventView>, c: int, n: int) -> int
    decreases (if n > 0 {
        evs.len() - c
    } else if n < 0 {
        c
    } else {
        0
    }),
{
    if n == 0 {
        snap_spec(evs, c)
    } else if n > 0 {
        if c >= evs.len() || c < 0 {
            clamp(c, evs.len() as int)
        } else {
            let n2 = if tx_before(evs, c) == tx_before(evs, c + 1) {
                n
            } else {
                n - 1
            };
            advance_by_tx_helper(evs, c + 1, n2)
        }
    } else {
        if c <= 0 || c > evs.len() {
            clamp(c, evs.len() as int)
        } else {
            let n2 = if tx_before(evs, c) == tx_before(evs, c - 1) {
                n
            } else {
                n + 1
            };
            advance_by_tx_helper(evs, c - 1, n2)
        }
    }
}

/// The cursor `n` transactions after (or, for negative `n`, before) the
/// transaction boundary at or after position `c`.
pub open spec fn advance_by_tx_spec(evs: Seq<EventView>, c: int, n: int) -> int {
    if evs.len() == 0 {
        c
    } else {
        advance_by_tx_helper(evs, snap_spec(evs, c), n)
    }
}

/// `snap_spec` gives the first boundary at or after `c`.
pub proof fn lemma_snap(evs: Seq<EventView>, c: int)
    requires
        0 <= c <= evs.len(),
    ensures
        c <= snap_spec(evs, c) <= evs.len(),
        is_boundary(evs, snap_spec(evs, c)),
        forall|q: int| c <= q < snap_spec(evs, c) ==> !is_boundary(evs, q),
    decreases evs.len() - c,
{
    if c < evs.len() && !is_boundary(evs, c) {
        lemma_snap(evs, c + 1);
    }
}

proof fn lemma_tx_before_step(evs: Seq<EventView>, p: int)
    requires
        1 <= p <= evs.len(),
    ensures
        (tx_before(evs, p) != tx_before(evs, p - 1)) == is_boundary(evs, p - 1),
{
}

/// Going back one transaction from position `p` reaches the last boundary
/// before `p` (or position zero).
pub proof fn lemma_back_one(evs: Seq<EventView>, p: int)
    requires
        0 <= p <= evs.len(),
    ensures
        p == 0 ==> advance_by_tx_helper(evs, p, -1) == 0,
        p > 0 ==> {
            let r = advance_by_tx_helper(evs, p, -1);
            &&& 0 <= r < p
            &&& is_boundary(evs, r)
            &&& forall|q: int| r < q < p ==> !is_boundary(evs, q)
        },
    decreases p,
{
    if p > 0 {
        lemma_tx_before_step(evs, p);
        if is_boundary(evs, p - 1) {
            lemma_snap(evs, p - 1);
            assert(advance_by_tx_helper(evs, p, -1) == advance_by_tx_helper(evs, p - 1, 0));
            assert(snap_spec(evs, p - 1) == p - 1);
        } else {
            lemma_back_one(evs, p - 1);
            assert(advance_by_tx_helper(evs, p, -1) == advance_by_tx_helper(evs, p - 1, -1));
        }
    }
}

/// Going forward one transaction from position `p` reaches the first
/// boundary after the boundary at or after `p` (or the end of the log).
pub proof fn lemma_forward_one(evs: Seq<EventView>, p: int)
    requires
        0 <= p <= evs.len(),
    ensures
        snap_spec(evs, p) == evs.len() ==> advance_by_tx_helper(evs, p, 1) == evs.len(),
        snap_spec(evs, p) < evs.len() ==> {
            let r = advance_by_tx_helper(evs, p, 1);
            &&& snap_spec(evs, p) < r <= evs.len()
            &&& is_boundary(evs, r)
            &&& forall|q: int| snap_spec(evs, p) < q < r ==> !is_boundary(evs, q)
        },
    decreases evs.len() - p,
{
    lemma_snap(evs, p);
    if p < evs.len() {
        if is_boundary(evs, p) {
            assert(tx_before(evs, p) != tx_before(evs, p + 1));
            assert(advance_by_tx_helper(evs, p, 1) == advance_by_tx_helper(evs, p + 1, 0));
            lemma_snap(evs, p + 1);
        } else {
            assert(tx_before(evs, p) == tx_before(evs, p + 1));
            assert(advance_by_tx_helper(evs, p, 1) == advance_by_tx_helper(evs, p + 1, 1));
            assert(snap_spec(evs, p) == snap_spec(evs, p + 1));
            lemma_forward_one(evs, p + 1);
        }
    }
}


/// Whether two optional transaction IDs are equal.
fn tx_opt_eq(a: Option<EventTransactionId>, b: Option<EventTransactionId>) -> (r: bool)
    ensures
        r == (a == b),
{
    match (a, b) {
        (Some(x), Some(y)) => x.0 == y.0,
        (None, None) => true,
        _ => false,
    }
}

/// The transaction IDs of optional events, by position.
pub open spec fn tx_opt_view(t: Option<EventTransactionId>) -> Option<isize> {
    match t {
        Some(t) => Some(t.0),
        None => None,
    }
}

impl EventReplayer {
    /// A cursor just after the last recorded event.
    pub fn make_default_cursor(&self) -> (r: EventCursor)
        requires
            self.wf(),
        ensures
            r.event_id == self.recorded().len(),
    {
        EventCursor { event_id: self.events.len() as isize }
    }

    /// A cursor just after the event with the given position, clamped to
    /// the valid positions `0..=len`.
    pub fn make_cursor(&self, event_id: isize) -> (r: EventCursor)
        requires
            self.wf(),
        ensures
            r.event_id == clamp(event_id as int, self.recorded().len() as int),
    {
        let num_events: isize = self.events.len() as isize;
        let event_id: isize = if event_id < 0 { 0 } else { event_id };
        let event_id: isize = if event_id > num_events { num_events } else { event_id };
        EventCursor { event_id }
    }

    /// Move the cursor by `num_events` events (forward or backward),
    /// clamped to the valid positions.
    pub fn advance_cursor(&self, cursor: EventCursor, num_events: isize) -> (r: EventCursor)
        requires
            self.wf(),
        ensures
            r.event_id == clamp(cursor.event_id + num_events, self.recorded().len() as int),
    {
        let num: i128 = self.events.len() as i128;
        let target: i128 = cursor.event_id as i128 + num_events as i128;
        let event_id: i128 = if target < 0 { 0 } else if target > num { num } else { target };
        EventCursor { event_id: event_id as isize }
    }

    fn get_event_tx_id_before_cursor(&self, cursor: EventCursor) -> (r: Option<EventTransactionId>)
        requires
            self.wf(),
            0 <= cursor.event_id <= self.recorded().len(),
        ensures
            tx_opt_view(r) == tx_before(self.recorded(), cursor.event_id as int),
    {
        if cursor.event_id == 0 {
            None
        } else {
            let i: usize = (cursor.event_id - 1) as usize;
            assert(self.recorded()[i as int] == self.events@[i as int]@);
            Some(self.events[i].get_event_tx_id())
        }
    }

    fn snap_to_transaction_boundary(&self, cursor: EventCursor) -> (r: EventCursor)
        requires
            self.wf(),
            0 <= cursor.event_id <= self.recorded().len(),
        ensures
            r.event_id == snap_spec(self.recorded(), cursor.event_id as int),
        decreases self.recorded().len() - cursor.event_id,
    {
        let next_cursor = self.advance_cursor(cursor, 1);
        if cursor == next_cursor {
            return cursor;
        }
        let current_tx_id = self.get_event_tx_id_before_cursor(cursor);
        let next_tx_id = self.get_event_tx_id_before_cursor(next_cursor);
        proof {
            if tx_opt_view(current_tx_id) == tx_opt_view(next_tx_id) && current_tx_id is Some {
                assert(current_tx_id->0 == next_tx_id->0);
            }
        }
        if tx_opt_eq(current_tx_id, next_tx_id) {
            self.snap_to_transaction_boundary(next_cursor)
        } else {
            cursor
        }
    }

    fn advance_cursor_by_transaction_helper(&self, cursor: EventCursor, num_transactions: isize) -> (r: EventCursor)
        requires
            self.wf(),
            0 <= cursor.event_id <= self.recorded().len(),
        ensures
            r.event_id == advance_by_tx_helper(self.recorded(), cursor.event_id as int, num_transactions as int),
        decreases (if num_transactions > 0 {
            self.recorded().len() - cursor.event_id
        } else if num_transactions < 0 {
            cursor.event_id as int
        } else {
            0
        }),
    {
        let ghost evs = self.recorded();
        if num_transactions == 0 {
            self.snap_to_transaction_boundary(cursor)
        } else if num_transactions > 0 {
            let next_cursor = self.advance_cursor(cursor, 1);
            if cursor == next_cursor {
                return next_cursor;
            }
            let current_tx_id = self.get_event_tx_id_before_cursor(cursor);
            let next_tx_id = self.get_event_tx_id_before_cursor(next_cursor);
            let same: bool = tx_opt_eq(current_tx_id, next_tx_id);
            proof {
                if tx_opt_view(current_tx_id) == tx_opt_view(next_tx_id) && current_tx_id is Some {
                    assert(current_tx_id->0 == next_tx_id->0);
                }
            }
            let n2: isize = if same { num_transactions } else { num_transactions - 1 };
            self.advance_cursor_by_transaction_helper(next_cursor, n2)
        } else {
            let prev_cursor = self.advance_cursor(cursor, -1);
            if cursor == prev_cursor {
                return prev_cursor;
            }
            let current_tx_id = self.get_event_tx_id_before_cursor(cursor);
            let prev_tx_id = self.get_event_tx_id_before_cursor(prev_cursor);
            let same: bool = tx_opt_eq(current_tx_id, prev_tx_id);
            proof {
                if tx_opt_view(current_tx_id) == tx_opt_view(prev_tx_id) && current_tx_id is Some {
                    assert(current_tx_id->0 == prev_tx_id->0);
                }
            }
            let n2: isize = if same { num_transactions } else { num_transactions + 1 };
            self.advance_cursor_by_transaction_helper(prev_cursor, n2)
        }
    }

    /// Move the cursor to the boundary `num_transactions` transactions after
    /// (or, if negative, before) the transaction boundary at or after the
    /// cursor. The result points just after the last event of a transaction.
    pub fn advance_cursor_by_transaction(&self, cursor: EventCursor, num_transactions: isize) -> (r: EventCursor)
        requires
            self.wf(),
            0 <= cursor.event_id <= self.recorded().len(),
        ensures
            r.event_id == advance_by_tx_spec(self.recorded(), cursor.event_id as int, num_transactions as int),
            0 <= r.event_id <= self.recorded().len(),
    {
        proof {
            lemma_snap(self.recorded(), cursor.event_id as int);
            lemma_advance_in_range(self.recorded(), snap_spec(self.recorded(), cursor.event_id as int), num_transactions as int);
        }
        if self.events.len() == 0 {
            cursor
        } else {
            let cursor = self.snap_to_transaction_boundary(cursor);
            self.advance_cursor_by_transaction_helper(cursor, num_transactions)
        }
    }
}

/// Moving by transactions stays within the log.
pub proof fn lemma_advance_in_range(evs: Seq<EventView>, c: int, n: int)
    requires
        0 <= c <= evs.len(),
    ensures
        0 <= advance_by_tx_helper(evs, c, n) <= evs.len(),
    decreases (if n > 0 {
        evs.len() - c
    } else if n < 0 {
        c
    } else {
        0
    }),
{
    if n == 0 {
        lemma_snap(evs, c);
    } else if n > 0 {
        if c < evs.len() {
            let n2 = if tx_before(evs, c) == tx_before(evs, c + 1) {
                n
            } else {
                n - 1
            };
            lemma_advance_in_range(evs, c + 1, n2);
        }
    } else {
        if c > 0 {
            let n2 = if tx_before(evs, c) == tx_before(evs, c - 1) {
                n
            } else {
                n + 1
            };
            lemma_advance_in_range(evs, c - 1, n2);
        }
    }
}


/// The errors of the event log's own logic.
#[derive(Debug, PartialEq, Eq)]
pub enum EventLogError {
    /// A referent that should have named an object was not an object ID.
    InvalidOid { text: String },
    /// A stored row lacked an object ID that its event type needs.
    MissingOid { oid_name: String, event_type: String },
    /// A stored reference update lacked its reference name.
    MissingRefName,
    /// A stored row had an unknown event type.
    UnknownEventType { event_type: String },
}

/// The object `HEAD` pointed to after the events `evs`: the newest `HEAD`
/// update whose new referent is an object ID, or the newest commit event,
/// whichever comes last. `HEAD` updates to referents that are not object
/// IDs are passed over.
pub open spec fn head_oid_spec(evs: Seq<EventView>) -> Option<Seq<u8>>
    decreases evs.len(),
{
    if evs.len() == 0 {
        None
    } else {
        match evs.last() {
            EventView::RefUpdate { ref_name, new_ref: Some(n), .. } => {
                if ref_name == "HEAD"@ && is_oid_text(n) {
                    Some(oid_bytes_of_text(n))
                } else {
                    head_oid_spec(evs.drop_last())
                }
            },
            EventView::Commit { oid, .. } => Some(oid),
            _ => head_oid_spec(evs.drop_last()),
        }
    }
}

/// The newest new referent of the reference `name` among the events `evs`.
pub open spec fn last_ref_target(evs: Seq<EventView>, name: Seq<char>) -> Option<Seq<char>>
    decreases evs.len(),
{
    if evs.len() == 0 {
        None
    } else {
        match evs.last() {
            EventView::RefUpdate { ref_name, new_ref: Some(n), .. } => {
                if ref_name == name {
                    Some(n)
                } else {
                    last_ref_target(evs.drop_last(), name)
                }
            },
            _ => last_ref_target(evs.drop_last(), name),
        }
    }
}

/// The view of an optional object ID.
pub open spec fn opt_oid_view(o: Option<Oid>) -> Option<Seq<u8>> {
    match o {
        Some(o) => Some(o@),
        None => None,
    }
}

impl EventReplayer {
    /// The object `HEAD` pointed to at the cursor's point in time; `None` if
    /// it was never observed.
    pub fn get_cursor_head_oid(&self, cursor: EventCursor) -> (r: Option<Oid>)
        requires
            self.wf(),
            0 <= cursor.event_id <= self.recorded().len(),
        ensures
            opt_oid_view(r) == head_oid_spec(self.recorded().take(cursor.event_id as int)),
    {
        let ghost evs = self.recorded();
        let head = str_chars("HEAD");
        let mut i: usize = cursor.event_id as usize;
        while i > 0
            invariant
                0 <= i <= cursor.event_id <= evs.len(),
                evs == self.recorded(),
                head@ == "HEAD"@,
                head_oid_spec(evs.take(cursor.event_id as int)) == head_oid_spec(evs.take(i as int)),
            decreases i,
        {
            let ghost t = evs.take(i as int);
            assert(t.drop_last() =~= evs.take(i - 1));
            assert(t.last() == self.events@[i - 1]@);
            match &self.events[i - 1] {
                Event::RefUpdateEvent { ref_name, new_ref: Some(new_ref), .. } => {
                    let name = str_chars(ref_name.as_str());
                    if chars_eq(name.as_slice(), head.as_slice()) {
                        match Oid::from_str(new_ref.as_str()) {
                            Some(oid) => {
                                return Some(oid);
                            },
                            None => {},
                        }
                    }
                },
                Event::CommitEvent { commit_oid, .. } => {
                    return Some(*commit_oid);
                },
                _ => {},
            }
            i = i - 1;
        }
        None
    }

    /// The object that the branch `branch_name` pointed to at the cursor's
    /// point in time; `Ok(None)` if it was never observed moving, an error
    /// if its newest referent is not an object ID.
    pub fn get_cursor_branch_oid(&self, cursor: EventCursor, branch_name: &str) -> (r: Result<Option<Oid>, EventLogError>)
        requires
            self.wf(),
            0 <= cursor.event_id <= self.recorded().len(),
        ensures
            ({
                let t = last_ref_target(self.recorded().take(cursor.event_id as int), "refs/heads/"@ + branch_name@);
                match r {
                    Ok(None) => t is None,
                    Ok(Some(oid)) => t matches Some(t) && is_oid_text(t) && oid@ == oid_bytes_of_text(t),
                    Err(_) => t matches Some(t) && !is_oid_text(t),
                }
            }),
    {
        let ghost evs = self.recorded();
        let mut target: Vec<char> = str_chars("refs/heads/");
        let branch = str_chars(branch_name);
        let mut j: usize = 0;
        while j < branch.len()
            invariant
                0 <= j <= branch@.len(),
                branch@ == branch_name@,
                target@ == "refs/heads/"@ + branch@.take(j as int),
            decreases branch@.len() - j,
        {
            target.push(branch[j]);
            assert(branch@.take(j + 1) =~= branch@.take(j as int).push(branch@[j as int]));
            j = j + 1;
        }
        assert(branch@.take(branch@.len() as int) =~= branch@);
        let mut i: usize = cursor.event_id as usize;
        while i > 0
            invariant
                0 <= i <= cursor.event_id <= evs.len(),
                evs == self.recorded(),
                target@ == "refs/heads/"@ + branch_name@,
                last_ref_target(evs.take(cursor.event_id as int), target@) == last_ref_target(evs.take(i as int), target@),
            decreases i,
        {
            let ghost t = evs.take(i as int);
            assert(t.drop_last() =~= evs.take(i - 1));
            assert(t.last() == self.events@[i - 1]@);
            match &self.events[i - 1] {
                Event::RefUpdateEvent { ref_name, new_ref: Some(new_ref), .. } => {
                    let name = str_chars(ref_name.as_str());
                    if chars_eq(name.as_slice(), target.as_slice()) {
                        return match Oid::from_str(new_ref.as_str()) {
                            Some(oid) => Ok(Some(oid)),
                            None => Err(EventLogError::InvalidOid { text: new_ref.clone() }),
                        };
                    }
                },
                _ => {},
            }
            i = i - 1;
        }
        Ok(None)
    }

    /// The event immediately before the cursor, with the cursor's position;
    /// `None` if no event comes before the cursor.
    pub fn get_event_before_cursor(&self, cursor: EventCursor) -> (r: Option<(isize, &Event)>)
        requires
            self.wf(),
            0 <= cursor.event_id <= self.recorded().len(),
        ensures
            cursor.event_id == 0 <==> r is None,
            r matches Some(p) ==> p.0 == cursor.event_id && p.1@ == self.recorded()[cursor.event_id - 1],
    {
        if cursor.event_id == 0 {
            None
        } else {
            let i: usize = (cursor.event_id - 1) as usize;
            Some((cursor.event_id, &self.events[i]))
        }
    }

    /// The events of the transaction immediately before the cursor, with the
    /// position of the first of them counted from one; `None` if there are
    /// no events before the cursor.
    pub fn get_tx_events_before_cursor(&self, cursor: EventCursor) -> (r: Option<(isize, &[Event])>)
        requires
            self.wf(),
            0 <= cursor.event_id <= self.recorded().len(),
        ensures
            ({
                let prev = advance_by_tx_spec(self.recorded(), cursor.event_id as int, -1);
                match r {
                    None => prev == cursor.event_id,
                    Some(p) => prev < cursor.event_id && p.0 == prev + 1 && events_view(p.1@)
                        == self.recorded().subrange(prev, cursor.event_id as int),
                }
            }),
    {
        let ghost evs = self.recorded();
        proof {
            lemma_back_before_cursor(evs, cursor.event_id as int);
        }
        let prev_tx_cursor = self.advance_cursor_by_transaction(cursor, -1);
        let prev: usize = prev_tx_cursor.event_id as usize;
        let curr: usize = cursor.event_id as usize;
        if prev == curr {
            return None;
        }
        let tx_events = vstd::slice::slice_subrange(self.events.as_slice(), prev, curr);
        assert(events_view(tx_events@) =~= evs.subrange(prev as int, curr as int));
        Some((prev_tx_cursor.event_id + 1, tx_events))
    }

    /// The events after the cursor, oldest first.
    pub fn get_events_since_cursor(&self, cursor: EventCursor) -> (r: &[Event])
        requires
            self.wf(),
            0 <= cursor.event_id <= self.recorded().len(),
        ensures
            events_view(r@) == self.recorded().subrange(cursor.event_id as int, self.recorded().len() as int),
    {
        let n: usize = self.events.len();
        let r = vstd::slice::slice_subrange(self.events.as_slice(), cursor.event_id as usize, n);
        assert(events_view(r@) =~= self.recorded().subrange(cursor.event_id as int, n as int));
        r
    }
}

/// Going back one transaction never moves the cursor forward.
pub proof fn lemma_back_before_cursor(evs: Seq<EventView>, c: int)
    requires
        0 <= c <= evs.len(),
    ensures
        0 <= advance_by_tx_spec(evs, c, -1) <= c,
{
    if evs.len() > 0 {
        lemma_snap(evs, c);
        let b = snap_spec(evs, c);
        lemma_back_one(evs, b);
        if b > 0 {
            let r = advance_by_tx_helper(evs, b, -1);
            if r > c {
                assert(c <= r < b && is_boundary(evs, r));
            }
        }
    }
}

/// Make a copy of an event whose timestamp is zero, for tests.
pub fn redact_event_timestamp(event: Event) -> (r: Event)
    ensures
        timestamp_of(r@) == 0,
        r@ == match event@ {
            EventView::Rewrite { tx, old_oid, new_oid, .. } => EventView::Rewrite { timestamp: 0, tx, old_oid, new_oid },
            EventView::RefUpdate { tx, ref_name, old_ref, new_ref, message, .. } => EventView::RefUpdate {
                timestamp: 0,
                tx,
                ref_name,
                old_ref,
                new_ref,
                message,
            },
            EventView::Commit { tx, oid, .. } => EventView::Commit { timestamp: 0, tx, oid },
            EventView::Hide { tx, oid, .. } => EventView::Hide { timestamp: 0, tx, oid },
            EventView::Unhide { tx, oid, .. } => EventView::Unhide { timestamp: 0, tx, oid },
        },
{
    match event {
        Event::RewriteEvent { timestamp: _, event_tx_id, old_commit_oid, new_commit_oid } => {
            Event::RewriteEvent { timestamp: 0, event_tx_id, old_commit_oid, new_commit_oid }
        },
        Event::RefUpdateEvent { timestamp: _, event_tx_id, ref_name, old_ref, new_ref, message } => {
            Event::RefUpdateEvent { timestamp: 0, event_tx_id, ref_name, old_ref, new_ref, message }
        },
        Event::CommitEvent { timestamp: _, event_tx_id, commit_oid } => Event::CommitEvent {
            timestamp: 0,
            event_tx_id,
            commit_oid,
        },
        Event::HideEvent { timestamp: _, event_tx_id, commit_oid } => Event::HideEvent {
            timestamp: 0,
            event_tx_id,
            commit_oid,
        },
        Event::UnhideEvent { timestamp: _, event_tx_id, commit_oid } => Event::UnhideEvent {
            timestamp: 0,
            event_tx_id,
            commit_oid,
        },
    }
}

/// The events stored inside a replayer, for tests.
pub fn get_event_replayer_events(event_replayer: &EventReplayer) -> (r: &Vec<Event>)
    ensures
        events_view(r@) == event_replayer.recorded(),
{
    &event_replayer.events
}


/// An event as it is stored in the database: one row of the `event_log`
/// table.
#[derive(Debug, PartialEq)]
pub struct Row {
    /// Bit pattern of the 64-bit float timestamp, as in `Event`.
    pub timestamp: u64,
    pub type_: String,
    pub event_tx_id: isize,
    pub ref1: Option<String>,
    pub ref2: Option<String>,
    pub ref_name: Option<String>,
    pub message: Option<String>,
}

/// The mathematical value of a `Row`.
pub struct RowView {
    pub timestamp: u64,
    pub type_: Seq<char>,
    pub event_tx_id: isize,
    pub ref1: Option<Seq<char>>,
    pub ref2: Option<Seq<char>>,
    pub ref_name: Option<Seq<char>>,
    pub message: Option<Seq<char>>,
}

impl View for Row {
    type V = RowView;

    open spec fn view(&self) -> RowView {
        RowView {
            timestamp: self.timestamp,
            type_: self.type_@,
            event_tx_id: self.event_tx_id,
            ref1: opt_view(self.ref1),
            ref2: opt_view(self.ref2),
            ref_name: opt_view(self.ref_name),
            message: opt_view(self.message),
        }
    }
}

/// The row that stores an event: its type name, and its object IDs as
/// forty hexadecimal digits.
pub open spec fn row_of_event(e: EventView) -> RowView {
    match e {
        EventView::Rewrite { timestamp, tx, old_oid, new_oid } => RowView {
            timestamp,
            type_: "rewrite"@,
            event_tx_id: tx,
            ref1: Some(oid_hex(old_oid)),
            ref2: Some(oid_hex(new_oid)),
            ref_name: None,
            message: None,
        },
        EventView::RefUpdate { timestamp, tx, ref_name, old_ref, new_ref, message } => RowView {
            timestamp,
            type_: "ref-move"@,
            event_tx_id: tx,
            ref1: old_ref,
            ref2: new_ref,
            ref_name: Some(ref_name),
            message,
        },
        EventView::Commit { timestamp, tx, oid } => RowView {
            timestamp,
            type_: "commit"@,
            event_tx_id: tx,
            ref1: Some(oid_hex(oid)),
            ref2: None,
            ref_name: None,
            message: None,
        },
        EventView::Hide { timestamp, tx, oid } => RowView {
            timestamp,
            type_: "hide"@,
            event_tx_id: tx,
            ref1: Some(oid_hex(oid)),
            ref2: None,
            ref_name: None,
            message: None,
        },
        EventView::Unhide { timestamp, tx, oid } => RowView {
            timestamp,
            type_: "unhide"@,
            event_tx_id: tx,
            ref1: Some(oid_hex(oid)),
            ref2: None,
            ref_name: None,
            message: None,
        },
    }
}

/// The kinds of `EventLogError`, as values.
pub enum RowErrorKind {
    InvalidOid,
    MissingOid,
    MissingRefName,
    UnknownEventType,
}

/// The kind of an `EventLogError`.
pub open spec fn error_kind(e: EventLogError) -> RowErrorKind {
    match e {
        EventLogError::InvalidOid { .. } => RowErrorKind::InvalidOid,
        EventLogError::MissingOid { .. } => RowErrorKind::MissingOid,
        EventLogError::MissingRefName => RowErrorKind::MissingRefName,
        EventLogError::UnknownEventType { .. } => RowErrorKind::UnknownEventType,
    }
}

/// Reading one stored object ID: missing, not an object ID, or its bytes.
pub open spec fn stored_oid(r: Option<Seq<char>>) -> Result<Seq<u8>, RowErrorKind> {
    match r {
        None => Err(RowErrorKind::MissingOid),
        Some(t) => if is_oid_text(t) {
            Ok(oid_bytes_of_text(t))
        } else {
            Err(RowErrorKind::InvalidOid)
        },
    }
}

/// The event that a row stores, or why it stores none. The row's type
/// decides which fields are read; the first field that is wrong decides
/// the error.
pub open spec fn event_of_row(r: RowView) -> Result<EventView, RowErrorKind> {
    if r.type_ == "rewrite"@ {
        match stored_oid(r.ref1) {
            Err(e) => Err(e),
            Ok(old_oid) => match stored_oid(r.ref2) {
                Err(e) => Err(e),
                Ok(new_oid) => Ok(EventView::Rewrite {
                    timestamp: r.timestamp,
                    tx: r.event_tx_id,
                    old_oid,
                    new_oid,
                }),
            },
        }
    } else if r.type_ == "ref-move"@ {
        match r.ref_name {
            Some(ref_name) => Ok(EventView::RefUpdate {
                timestamp: r.timestamp,
                tx: r.event_tx_id,
                ref_name,
                old_ref: r.ref1,
                new_ref: r.ref2,
                message: r.message,
            }),
            None => Err(RowErrorKind::MissingRefName),
        }
    } else if r.type_ == "commit"@ || r.type_ == "hide"@ || r.type_ == "unhide"@ {
        match stored_oid(r.ref1) {
            Ok(oid) => Ok(if r.type_ == "commit"@ {
                EventView::Commit { timestamp: r.timestamp, tx: r.event_tx_id, oid }
            } else if r.type_ == "hide"@ {
                EventView::Hide { timestamp: r.timestamp, tx: r.event_tx_id, oid }
            } else {
                EventView::Unhide { timestamp: r.timestamp, tx: r.event_tx_id, oid }
            }),
            Err(e) => Err(e),
        }
    } else {
        Err(RowErrorKind::UnknownEventType)
    }
}

fn owned_text(s: &str) -> (r: String)
    ensures
        r@ == s@,
{
    s.to_owned()
}

impl Row {
    /// The row that stores `event`.
    pub fn from(event: Event) -> (r: Row)
        ensures
            r@ == row_of_event(event@),
    {
        match event {
            Event::RewriteEvent { timestamp, event_tx_id, old_commit_oid, new_commit_oid } => Row {
                timestamp,
                type_: owned_text("rewrite"),
                event_tx_id: event_tx_id.0,
                ref1: Some(old_commit_oid.to_hex()),
                ref2: Some(new_commit_oid.to_hex()),
                ref_name: None,
                message: None,
            },
            Event::RefUpdateEvent { timestamp, event_tx_id, ref_name, old_ref, new_ref, message } => Row {
                timestamp,
                type_: owned_text("ref-move"),
                event_tx_id: event_tx_id.0,
                ref1: old_ref,
                ref2: new_ref,
                ref_name: Some(ref_name),
                message,
            },
            Event::CommitEvent { timestamp, event_tx_id, commit_oid } => Row {
                timestamp,
                type_: owned_text("commit"),
                event_tx_id: event_tx_id.0,
                ref1: Some(commit_oid.to_hex()),
                ref2: None,
                ref_name: None,
                message: None,
            },
            Event::HideEvent { timestamp, event_tx_id, commit_oid } => Row {
                timestamp,
                type_: owned_text("hide"),
                event_tx_id: event_tx_id.0,
                ref1: Some(commit_oid.to_hex()),
                ref2: None,
                ref_name: None,
                message: None,
            },
            Event::UnhideEvent { timestamp, event_tx_id, commit_oid } => Row {
                timestamp,
                type_: owned_text("unhide"),
                event_tx_id: event_tx_id.0,
                ref1: Some(commit_oid.to_hex()),
                ref2: None,
                ref_name: None,
                message: None,
            },
        }
    }
}


/// Read a stored object ID.
fn read_stored_oid(r: &Option<String>, oid_name: &str, type_: &String) -> (res: Result<Oid, EventLogError>)
    ensures
        match res {
            Ok(oid) => stored_oid(opt_view(*r)) == Ok::<Seq<u8>, RowErrorKind>(oid@),
            Err(e) => stored_oid(opt_view(*r)) == Err::<Seq<u8>, RowErrorKind>(error_kind(e)),
        },
{
    match r {
        Some(text) => match Oid::from_str(text.as_str()) {
            Some(oid) => Ok(oid),
            None => Err(EventLogError::InvalidOid { text: text.clone() }),
        },
        None => Err(EventLogError::MissingOid { oid_name: owned_text(oid_name), event_type: type_.clone() }),
    }
}

impl Event {
    /// The event that a stored row holds.
    pub fn try_from(row: Row) -> (r: Result<Event, EventLogError>)
        ensures
            match r {
                Ok(e) => event_of_row(row@) == Ok::<EventView, RowErrorKind>(e@),
                Err(err) => event_of_row(row@) == Err::<EventView, RowErrorKind>(error_kind(err)),
            },
    {
        let ghost rv = row@;
        let Row { timestamp, type_, event_tx_id, ref1, ref2, ref_name, message } = row;
        let event_tx_id = EventTransactionId(event_tx_id);
        let t = str_chars(type_.as_str());
        let t = t.as_slice();
        if chars_eq(t, str_chars("rewrite").as_slice()) {
            let old_commit_oid = match read_stored_oid(&ref1, "old commit OID", &type_) {
                Ok(oid) => oid,
                Err(e) => {
                    return Err(e);
                },
            };
            let new_commit_oid = match read_stored_oid(&ref2, "new commit OID", &type_) {
                Ok(oid) => oid,
                Err(e) => {
                    return Err(e);
                },
            };
            Ok(Event::RewriteEvent { timestamp, event_tx_id, old_commit_oid, new_commit_oid })
        } else if chars_eq(t, str_chars("ref-move").as_slice()) {
            match ref_name {
                Some(ref_name) => Ok(Event::RefUpdateEvent {
                    timestamp,
                    event_tx_id,
                    ref_name,
                    old_ref: ref1,
                    new_ref: ref2,
                    message,
                }),
                None => Err(EventLogError::MissingRefName),
            }
        } else if chars_eq(t, str_chars("commit").as_slice()) {
            match read_stored_oid(&ref1, "commit OID", &type_) {
                Ok(commit_oid) => Ok(Event::CommitEvent { timestamp, event_tx_id, commit_oid }),
                Err(e) => Err(e),
            }
        } else if chars_eq(t, str_chars("hide").as_slice()) {
            match read_stored_oid(&ref1, "commit OID", &type_) {
                Ok(commit_oid) => Ok(Event::HideEvent { timestamp, event_tx_id, commit_oid }),
                Err(e) => Err(e),
            }
        } else if chars_eq(t, str_chars("unhide").as_slice()) {
            match read_stored_oid(&ref1, "commit OID", &type_) {
                Ok(commit_oid) => Ok(Event::UnhideEvent { timestamp, event_tx_id, commit_oid }),
                Err(e) => Err(e),
            }
        } else {
            Err(EventLogError::UnknownEventType { event_type: type_ })
        }
    }
}

/// Reading back the row that stores an event gives the same event.
pub proof fn lemma_row_round_trip(e: Event)
    ensures
        event_of_row(row_of_event(e@)) == Ok::<EventView, RowErrorKind>(e@),
{
    reveal_strlit("rewrite");
    reveal_strlit("ref-move");
    reveal_strlit("commit");
    reveal_strlit("hide");
    reveal_strlit("unhide");
    assert("rewrite"@.len() == 7 && "ref-move"@.len() == 8 && "commit"@.len() == 6
        && "hide"@.len() == 4 && "unhide"@.len() == 6);
    assert("unhide"@[0] != "commit"@[0]);
    assert("commit"@ != "unhide"@);
    let r = row_of_event(e@);
    match &e {
        Event::RewriteEvent { old_commit_oid, new_commit_oid, .. } => {
            crate::oid::lemma_hex_round_trip(old_commit_oid@);
            crate::oid::lemma_hex_round_trip(new_commit_oid@);
            assert(stored_oid(r.ref1) == Ok::<Seq<u8>, RowErrorKind>(old_commit_oid@));
            assert(stored_oid(r.ref2) == Ok::<Seq<u8>, RowErrorKind>(new_commit_oid@));
            assert(event_of_row(r) == Ok::<EventView, RowErrorKind>(e@));
        },
        Event::CommitEvent { commit_oid, .. } => {
            crate::oid::lemma_hex_round_trip(commit_oid@);
            assert(event_of_row(r) == Ok::<EventView, RowErrorKind>(e@));
        },
        Event::HideEvent { commit_oid, .. } => {
            crate::oid::lemma_hex_round_trip(commit_oid@);
            assert(event_of_row(r) == Ok::<EventView, RowErrorKind>(e@));
        },
        Event::UnhideEvent { commit_oid, .. } => {
            crate::oid::lemma_hex_round_trip(commit_oid@);
            assert(event_of_row(r) == Ok::<EventView, RowErrorKind>(e@));
        },
        Event::RefUpdateEvent { .. } => {
            assert(event_of_row(r) == Ok::<EventView, RowErrorKind>(e@));
        },
    }
}

/// A transaction ID written out in decimal (as it is handed to the hooks
/// that Git runs) reads back as the same ID.
pub proof fn lemma_transaction_id_round_trip(id: EventTransactionId)
    ensures
        parse_isize_spec(decimal_text(id.0 as int)) == Some(id.0 as int),
{
    crate::text::lemma_parse_decimal_text(id.0 as int);
}

/// A stored referent as the event log reads it: the zero object ID stands
/// for no referent (the reference was created or deleted).
pub fn drop_zero_ref(stored: Option<String>) -> (r: Option<String>)
    ensures
        match stored {
            Some(s) => if s@ == Seq::new(40, |i: int| '0') {
                r is None
            } else {
                r matches Some(t) && t@ == s@
            },
            None => r is None,
        },
{
    match stored {
        Some(s) => {
            let zero_oid = Oid::zero();
            let zero = zero_oid.to_hex();
            proof {
                assert(oid_hex(zero_oid@) =~= Seq::new(40, |i: int| '0')) by {
                    assert forall|p: int| 0 <= p < 40 implies #[trigger] oid_hex(zero_oid@)[p] == '0' by {
                        assert(zero_oid@[p / 2] == 0);
                    }
                }
            }
            let sc = str_chars(s.as_str());
            let zc = str_chars(zero.as_str());
            if chars_eq(sc.as_slice(), zc.as_slice()) {
                None
            } else {
                Some(s)
            }
        },
        None => None,
    }
}

/// Where each reference points as of the events `evs`, by the text of an
/// object ID: an update to an object ID sets it, an update to nothing
/// removes it, an update to any other referent leaves it as it was.
pub open spec fn ref_oid_texts(evs: Seq<EventView>) -> Map<Seq<char>, Seq<char>>
    decreases evs.len(),
{
    if evs.len() == 0 {
        Map::empty()
    } else {
        let prev = ref_oid_texts(evs.drop_last());
        match evs.last() {
            EventView::RefUpdate { ref_name, new_ref, .. } => match new_ref {
                Some(n) => if is_oid_text(n) {
                    prev.insert(ref_name, n)
                } else {
                    prev
                },
                None => prev.remove(ref_name),
            },
            _ => prev,
        }
    }
}

/// The names (without `refs/heads/`) of the branches that `m` points at
/// commit `oid`.
pub open spec fn branch_names_in(m: Map<Seq<char>, Seq<char>>, oid: Seq<u8>) -> Set<Seq<char>> {
    Set::new(
        |b: Seq<char>|
            exists|name: Seq<char>|
                #[trigger] m.contains_key(name) && is_prefix("refs/heads/"@, name) && oid_bytes_of_text(m[name])
                    == oid && b == name.skip(11),
    )
}

/// The branch names among the locations `ls` that point at `oid`.
spec fn branch_names_from(ls: Seq<RefLocation>, oid: Seq<u8>) -> Set<Seq<char>> {
    Set::new(
        |b: Seq<char>|
            exists|k: int|
                0 <= k < ls.len() && is_prefix("refs/heads/"@, #[trigger] ls[k].ref_name@) && oid_bytes_of_text(
                    ls[k].location@,
                ) == oid && b == ls[k].ref_name@.skip(11),
    )
}

/// Whether the entries of `targets` are for different commits.
spec fn distinct_targets(targets: Seq<BranchTargets>) -> bool {
    forall|a: int, b: int| 0 <= a < b < targets.len() ==> targets[a].oid@ != targets[b].oid@
}

proof fn lemma_names_at(targets: Seq<BranchTargets>, k: int)
    requires
        distinct_targets(targets),
        0 <= k < targets.len(),
    ensures
        names_of(targets, targets[k].oid@) == targets[k].names@.map_values(|n: String| n@),
    decreases k,
{
    if k > 0 {
        assert(targets[0].oid@ != targets[k].oid@);
        assert(distinct_targets(targets.drop_first()));
        lemma_names_at(targets.drop_first(), k - 1);
    }
}

proof fn lemma_names_absent(targets: Seq<BranchTargets>, oid: Seq<u8>)
    requires
        forall|k: int| 0 <= k < targets.len() ==> targets[k].oid@ != oid,
    ensures
        names_of(targets, oid) == Seq::<Seq<char>>::empty(),
    decreases targets.len(),
{
    if targets.len() > 0 {
        lemma_names_absent(targets.drop_first(), oid);
    }
}

/// Add `name` to the names pointing at `oid`.
fn add_branch_name(targets: &mut Vec<BranchTargets>, oid: Oid, name: String)
    requires
        distinct_targets(old(targets)@),
    ensures
        distinct_targets(final(targets)@),
        forall|o: Seq<u8>|
            #[trigger] names_of(final(targets)@, o).to_set() == if o == oid@ {
                names_of(old(targets)@, o).to_set().insert(name@)
            } else {
                names_of(old(targets)@, o).to_set()
            },
{
    let ghost old_t = targets@;
    let mut k: usize = 0;
    while k < targets.len()
        invariant
            k <= targets@.len(),
            targets@ == old_t,
            forall|j: int| 0 <= j < k ==> targets@[j].oid@ != oid@,
        ensures
            k <= targets@.len(),
            targets@ == old_t,
            forall|j: int| 0 <= j < k ==> targets@[j].oid@ != oid@,
            k < targets@.len() ==> targets@[k as int].oid@ == oid@,
        decreases targets@.len() - k,
    {
        if targets[k].oid == oid {
            break;
        }
        k = k + 1;
    }
    if k < targets.len() && targets[k].oid == oid {
        let mut entry = targets.remove(k);
        let ghost old_names = entry.names@.map_values(|n: String| n@);
        entry.names.push(name);
        let ghost new_names = entry.names@.map_values(|n: String| n@);
        assert(new_names =~= old_names.push(name@));
        targets.insert(k, entry);
        assert forall|a: int, b: int| 0 <= a < b < targets@.len() implies targets@[a].oid@ != targets@[b].oid@ by {
            assert(targets@[a].oid == old_t[a].oid);
            assert(targets@[b].oid == old_t[b].oid);
        }
        assert forall|o: Seq<u8>|
            #[trigger] names_of(targets@, o).to_set() == if o == oid@ {
                names_of(old_t, o).to_set().insert(name@)
            } else {
                names_of(old_t, o).to_set()
            } by {
            if o == oid@ {
                lemma_names_at(old_t, k as int);
                lemma_names_at(targets@, k as int);
                assert(old_names.push(name@).to_set() =~= old_names.to_set().insert(name@)) by {
                    assert forall|x: Seq<char>| old_names.push(name@).to_set().contains(x) implies old_names.to_set().insert(name@).contains(x) by {
                        let q = choose|q: int| 0 <= q < old_names.push(name@).len() && #[trigger] old_names.push(name@)[q] == x;
                        if q < old_names.len() {
                            assert(old_names[q] == x);
                        }
                    }
                    assert forall|x: Seq<char>| old_names.to_set().insert(name@).contains(x) implies old_names.push(name@).to_set().contains(x) by {
                        if x == name@ {
                            assert(old_names.push(name@)[old_names.len() as int] == x);
                        } else {
                            let q = choose|q: int| 0 <= q < old_names.len() && #[trigger] old_names[q] == x;
                            assert(old_names.push(name@)[q] == x);
                        }
                    }
                }
            } else if exists|j: int| 0 <= j < old_t.len() && old_t[j].oid@ == o {
                let j = choose|j: int| 0 <= j < old_t.len() && old_t[j].oid@ == o;
                lemma_names_at(old_t, j);
                assert(targets@[j] == old_t[j]) by {
                    assert(j != k);
                }
                lemma_names_at(targets@, j);
            } else {
                lemma_names_absent(old_t, o);
                assert forall|j: int| 0 <= j < targets@.len() implies targets@[j].oid@ != o by {
                    assert(targets@[j].oid == old_t[j].oid);
                }
                lemma_names_absent(targets@, o);
            }
        }
    } else {
        let mut names: Vec<String> = Vec::new();
        names.push(name);
        let ghost nv = names@.map_values(|n: String| n@);
        assert(nv =~= seq![name@]);
        targets.push(BranchTargets { oid, names });
        assert forall|a: int, b: int| 0 <= a < b < targets@.len() implies targets@[a].oid@ != targets@[b].oid@ by {
            if b < old_t.len() {
                assert(targets@[a] == old_t[a] && targets@[b] == old_t[b]);
            } else {
                assert(targets@[a] == old_t[a]);
            }
        }
        assert forall|o: Seq<u8>|
            #[trigger] names_of(targets@, o).to_set() == if o == oid@ {
                names_of(old_t, o).to_set().insert(name@)
            } else {
                names_of(old_t, o).to_set()
            } by {
            if o == oid@ {
                lemma_names_absent(old_t, o);
                lemma_names_at(targets@, old_t.len() as int);
                assert(nv.to_set() =~= Seq::<Seq<char>>::empty().to_set().insert(name@)) by {
                    assert forall|x: Seq<char>| nv.to_set().contains(x) <==> Seq::<Seq<char>>::empty().to_set().insert(name@).contains(x) by {
                        if x == name@ {
                            assert(nv[0] == x);
                        }
                        if nv.to_set().contains(x) {
                            let q = choose|q: int| 0 <= q < nv.len() && #[trigger] nv[q] == x;
                            assert(q == 0);
                        }
                        assert(!Seq::<Seq<char>>::empty().contains(x));
                    }
                }
            } else if exists|j: int| 0 <= j < old_t.len() && old_t[j].oid@ == o {
                let j = choose|j: int| 0 <= j < old_t.len() && old_t[j].oid@ == o;
                lemma_names_at(old_t, j);
                assert(targets@[j] == old_t[j]);
                lemma_names_at(targets@, j);
            } else {
                lemma_names_absent(old_t, o);
                assert forall|j: int| 0 <= j < targets@.len() implies targets@[j].oid@ != o by {
                    if j < old_t.len() {
                        assert(targets@[j] == old_t[j]);
                    }
                }
                lemma_names_absent(targets@, o);
            }
        }
    }
}

impl EventReplayer {
    /// The names of the branches that point to each commit as of the
    /// cursor, without their `refs/heads/` prefix, and the main branch's
    /// name at the main branch's commit (the caller reads both from the
    /// repository).
    pub fn get_cursor_branch_oid_to_names(&self, cursor: EventCursor, main_branch_name: &str, main_branch_oid: Oid) -> (r:
        Vec<BranchTargets>)
        requires
            self.wf(),
            0 <= cursor.event_id <= self.recorded().len(),
        ensures
            forall|oid: Seq<u8>|
                #[trigger] names_of(r@, oid).to_set() == branch_names_in(
                    ref_oid_texts(self.recorded().take(cursor.event_id as int)),
                    oid,
                ).union(
                    if oid == main_branch_oid@ {
                        set![main_branch_name@]
                    } else {
                        Set::empty()
                    },
                ),
    {
        let ghost evs = self.recorded();
        let c = cursor.event_id as usize;
        let mut locs: Vec<RefLocation> = Vec::new();
        let mut i: usize = 0;
        assert(locs_map(locs@) =~= Map::<Seq<char>, Seq<char>>::empty());
        assert(evs.take(0) =~= Seq::<EventView>::empty());
        while i < c
            invariant
                i <= c <= self.events@.len(),
                evs == self.recorded(),
                self.wf(),
                distinct_names(locs@),
                locs_map(locs@) == ref_oid_texts(evs.take(i as int)),
            decreases c - i,
        {
            assert(evs.take(i + 1).drop_last() =~= evs.take(i as int));
            assert(evs.take(i + 1).last() == self.events@[i as int]@);
            match &self.events[i] {
                Event::RefUpdateEvent { ref_name, new_ref, .. } => match new_ref {
                    Some(n) => {
                        if Oid::from_str(n.as_str()).is_some() {
                            set_location(&mut locs, ref_name.clone(), n.clone());
                        }
                    },
                    None => {
                        remove_location(&mut locs, ref_name);
                    },
                },
                _ => {},
            }
            i = i + 1;
        }
        let ghost m = locs_map(locs@);
        let mut targets: Vec<BranchTargets> = Vec::new();
        let mut k: usize = 0;
        proof {
            assert forall|a: int, b: int| 0 <= a < b < targets@.len() implies targets@[a].oid@ != targets@[b].oid@ by {}
            assert forall|o: Seq<u8>| #[trigger] names_of(targets@, o).to_set() == branch_names_from(locs@.take(0), o) by {
                assert(names_of(targets@, o).to_set() =~= Set::<Seq<char>>::empty());
                assert(branch_names_from(locs@.take(0), o) =~= Set::<Seq<char>>::empty());
            }
        }
        while k < locs.len()
            invariant
                k <= locs@.len(),
                distinct_names(locs@),
                m == locs_map(locs@),
                m == ref_oid_texts(evs.take(c as int)),
                distinct_targets(targets@),
                forall|o: Seq<u8>| #[trigger] names_of(targets@, o).to_set() == branch_names_from(locs@.take(k as int), o),
            decreases locs@.len() - k,
        {
            let ghost before = targets@;
            let name_chars = str_chars(locs[k].ref_name.as_str());
            let prefix = str_chars("refs/heads/");
            let is_branch = starts_with(name_chars.as_slice(), prefix.as_slice());
            let parsed = Oid::from_str(locs[k].location.as_str());
            proof {
                reveal_strlit("refs/heads/");
            }
            match parsed {
                Some(oid) if is_branch => {
                    let branch = crate::text::string_of_chars(slice_chars(name_chars.as_slice(), 11, name_chars.len()).as_slice());
                    assert(branch@ == locs@[k as int].ref_name@.skip(11)) by {
                        assert(name_chars@.subrange(11, name_chars@.len() as int) =~= locs@[k as int].ref_name@.skip(11));
                    }
                    add_branch_name(&mut targets, oid, branch);
                    assert forall|o: Seq<u8>| #[trigger] names_of(targets@, o).to_set() == branch_names_from(locs@.take(k + 1), o) by {
                        let now = branch_names_from(locs@.take(k + 1), o);
                        let was = branch_names_from(locs@.take(k as int), o);
                        assert forall|b: Seq<char>| now.contains(b) <==> (was.contains(b) || (o == oid@ && b == branch@)) by {
                            if now.contains(b) {
                                let q = choose|q: int|
                                    0 <= q < locs@.take(k + 1).len() && is_prefix("refs/heads/"@, #[trigger] locs@.take(k + 1)[q].ref_name@)
                                        && oid_bytes_of_text(locs@.take(k + 1)[q].location@) == o && b == locs@.take(k + 1)[q].ref_name@.skip(11);
                                if q < k {
                                    assert(locs@.take(k as int)[q] == locs@.take(k + 1)[q]);
                                }
                            }
                            if was.contains(b) {
                                let q = choose|q: int|
                                    0 <= q < locs@.take(k as int).len() && is_prefix("refs/heads/"@, #[trigger] locs@.take(k as int)[q].ref_name@)
                                        && oid_bytes_of_text(locs@.take(k as int)[q].location@) == o && b == locs@.take(k as int)[q].ref_name@.skip(11);
                                assert(locs@.take(k + 1)[q] == locs@.take(k as int)[q]);
                            }
                            if o == oid@ && b == branch@ {
                                assert(locs@.take(k + 1)[k as int] == locs@[k as int]);
                            }
                        }
                        if o == oid@ {
                            assert(now =~= was.insert(branch@));
                        } else {
                            assert(now =~= was);
                        }
                    }
                },
                _ => {
                    assert forall|o: Seq<u8>| #[trigger] names_of(targets@, o).to_set() == branch_names_from(locs@.take(k + 1), o) by {
                        let now = branch_names_from(locs@.take(k + 1), o);
                        let was = branch_names_from(locs@.take(k as int), o);
                        assert forall|b: Seq<char>| now.contains(b) <==> was.contains(b) by {
                            if now.contains(b) {
                                let q = choose|q: int|
                                    0 <= q < locs@.take(k + 1).len() && is_prefix("refs/heads/"@, #[trigger] locs@.take(k + 1)[q].ref_name@)
                                        && oid_bytes_of_text(locs@.take(k + 1)[q].location@) == o && b == locs@.take(k + 1)[q].ref_name@.skip(11);
                                if q < k {
                                    assert(locs@.take(k as int)[q] == locs@.take(k + 1)[q]);
                                } else {
                                    assert(locs@.take(k + 1)[q] == locs@[k as int]);
                                    assert(is_oid_text(locs@[k as int].location@)) by {
                                        lemma_locs_at(locs@, k as int);
                                        lemma_ref_oid_texts_are_oids(evs.take(c as int), locs@[k as int].ref_name@);
                                    }
                                }
                            }
                            if was.contains(b) {
                                let q = choose|q: int|
                                    0 <= q < locs@.take(k as int).len() && is_prefix("refs/heads/"@, #[trigger] locs@.take(k as int)[q].ref_name@)
                                        && oid_bytes_of_text(locs@.take(k as int)[q].location@) == o && b == locs@.take(k as int)[q].ref_name@.skip(11);
                                assert(locs@.take(k + 1)[q] == locs@.take(k as int)[q]);
                            }
                        }
                        assert(now =~= was);
                    }
                },
            }
            k = k + 1;
        }
        assert(locs@.take(locs@.len() as int) =~= locs@);
        let ghost before_main = targets@;
        add_branch_name(&mut targets, main_branch_oid, main_branch_name.to_owned());
        proof {
            assert forall|o: Seq<u8>| #[trigger] branch_names_from(locs@, o) == branch_names_in(m, o) by {
                assert forall|b: Seq<char>| branch_names_from(locs@, o).contains(b) <==> branch_names_in(m, o).contains(b) by {
                    if branch_names_from(locs@, o).contains(b) {
                        let q = choose|q: int|
                            0 <= q < locs@.len() && is_prefix("refs/heads/"@, #[trigger] locs@[q].ref_name@) && oid_bytes_of_text(
                                locs@[q].location@,
                            ) == o && b == locs@[q].ref_name@.skip(11);
                        lemma_locs_at(locs@, q);
                        assert(m.contains_key(locs@[q].ref_name@));
                    }
                    if branch_names_in(m, o).contains(b) {
                        let name = choose|name: Seq<char>|
                            #[trigger] m.contains_key(name) && is_prefix("refs/heads/"@, name) && oid_bytes_of_text(m[name])
                                == o && b == name.skip(11);
                        let q = choose|q: int| 0 <= q < locs@.len() && locs@[q].ref_name@ == name;
                        lemma_locs_at(locs@, q);
                    }
                }
                assert(branch_names_from(locs@, o) =~= branch_names_in(m, o));
            }
            assert forall|o: Seq<u8>|
                #[trigger] names_of(targets@, o).to_set() == branch_names_in(m, o).union(
                    if o == main_branch_oid@ {
                        set![main_branch_name@]
                    } else {
                        Set::empty()
                    },
                ) by {
                if o == main_branch_oid@ {
                    assert(branch_names_in(m, o).insert(main_branch_name@) =~= branch_names_in(m, o).union(set![main_branch_name@]));
                } else {
                    assert(branch_names_in(m, o).union(Set::empty()) =~= branch_names_in(m, o));
                }
            }
        }
        targets
    }
}

/// The referents that the map of reference locations holds are object
/// IDs.
proof fn lemma_ref_oid_texts_are_oids(evs: Seq<EventView>, name: Seq<char>)
    requires
        ref_oid_texts(evs).contains_key(name),
    ensures
        is_oid_text(ref_oid_texts(evs)[name]),
    decreases evs.len(),
{
    if evs.len() > 0 {
        let prev = ref_oid_texts(evs.drop_last());
        match evs.last() {
            EventView::RefUpdate { ref_name, new_ref, .. } => {
                if ref_name != name {
                    lemma_ref_oid_texts_are_oids(evs.drop_last(), name);
                } else {
                    match new_ref {
                        Some(n) => if !is_oid_text(n) {
                            lemma_ref_oid_texts_are_oids(evs.drop_last(), name);
                        },
                        None => {},
                    }
                }
            },
            _ => {
                lemma_ref_oid_texts_are_oids(evs.drop_last(), name);
            },
        }
    }
}

} // verus!
