//! Descriptions of the nodes of the smartlog: the pieces of text shown
//! for each commit between the commit graph and the commit message (its
//! short hash, branches, review, age, and why it is hidden).

use vstd::prelude::*;

use crate::eventlog::{latest_event_spec, Event, EventCursor, EventReplayer, EventView};
use crate::formatting::{
    join_descriptions, opt_styled_views, present_spec, spaced_spec, styled_views, Color, Glyphs,
    StyledText,
};
use crate::metadata::{delta_secs, relative_time_text, time_delta_text, Time, TimeDeltaError};
use crate::oid::{oid_hex, Oid};
use crate::repo::{reference_kind, reference_suffix, CategorizedReferenceName, ReferenceKind};
use crate::rewrite::{find_rewrite_target, rewrite_target_spec};
use crate::text::{
    join, join_spec, slice_chars, sort_texts, sorted_distinct, sorted_texts, str_chars, string_of_chars,
    strictly_sorted,
};

verus! {

/// Something that is shown as a node of the smartlog, with what the
/// descriptors read of it.
#[derive(Debug)]
pub enum NodeObject {
    /// A commit.
    Commit {
        /// The commit's ID.
        oid: Oid,
        /// The first line of the commit message.
        summary: String,
        /// The whole commit message.
        message: String,
        /// When the commit was made, in seconds since the Unix epoch.
        time_secs: i64,
    },
    /// A commit which has been garbage collected, for which detailed
    /// information is no longer available.
    GarbageCollected {
        /// The ID of the garbage-collected commit.
        oid: Oid,
    },
}

impl NodeObject {
    /// The ID of the commit.
    pub open spec fn spec_oid(&self) -> Seq<u8> {
        match self {
            NodeObject::Commit { oid, .. } => oid@,
            NodeObject::GarbageCollected { oid } => oid@,
        }
    }

    /// The ID of the commit.
    pub fn get_oid(&self) -> (r: Oid)
        ensures
            r@ == self.spec_oid(),
    {
        match self {
            NodeObject::Commit { oid, .. } => *oid,
            NodeObject::GarbageCollected { oid } => *oid,
        }
    }
}

/// The first eight hexadecimal digits of an object ID.
pub open spec fn short_oid_spec(oid: Seq<u8>) -> Seq<char> {
    oid_hex(oid).take(8)
}

/// The first eight hexadecimal digits of an object ID, as the smartlog
/// abbreviates it.
pub fn short_oid(oid: Oid) -> (r: String)
    ensures
        r@ == short_oid_spec(oid@),
{
    let hex = oid.to_hex();
    let chars = str_chars(hex.as_str());
    let first = slice_chars(chars.as_slice(), 0, 8);
    assert(oid_hex(oid@).subrange(0, 8) =~= oid_hex(oid@).take(8));
    string_of_chars(first.as_slice())
}

/// The abbreviated commit hash, in dark yellow if colors are in use.
pub open spec fn oid_description_spec(oid: Seq<u8>, use_color: bool) -> (Seq<char>, Option<Color>) {
    (short_oid_spec(oid), if use_color {
        Some(Color::DarkYellow)
    } else {
        None
    })
}

/// Describe a commit by its abbreviated hash.
pub fn describe_oid(oid: Oid, use_color: bool) -> (r: StyledText)
    ensures
        r@ == oid_description_spec(oid@, use_color),
{
    let text = short_oid(oid);
    if use_color {
        StyledText { text, color: Some(Color::DarkYellow) }
    } else {
        StyledText { text, color: None }
    }
}

/// Why a commit is hidden as of cursor position `c`, if the latest event
/// before the cursor that touched it says so: a rewrite into another
/// commit names the newest version, a hide says that the user hid it.
pub open spec fn obsolescence_spec(evs: Seq<EventView>, c: int, oid: Seq<u8>) -> Option<(Seq<char>, Option<Color>)> {
    match latest_event_spec(evs, c, oid) {
        None => None,
        Some(p) => match evs[p] {
            EventView::Rewrite { .. } => match rewrite_target_spec(evs, c, oid) {
                Some(t) => Some(("(rewritten as "@ + short_oid_spec(t) + ")"@, Some(Color::LightBlack))),
                None => None,
            },
            EventView::Hide { .. } => Some(("(manually hidden)"@, Some(Color::LightBlack))),
            _ => None,
        },
    }
}

/// Explain why a commit is hidden as of the cursor.
pub fn describe_obsolescence(event_replayer: &EventReplayer, event_cursor: EventCursor, oid: Oid) -> (r: Option<
    StyledText,
>)
    requires
        event_replayer.wf(),
        0 <= event_cursor.event_id <= event_replayer.recorded().len(),
    ensures
        (match r {
            Some(t) => Some(t@),
            None => None,
        }) == obsolescence_spec(event_replayer.recorded(), event_cursor.event_id as int, oid@),
{
    let event = match event_replayer.get_cursor_commit_latest_event(event_cursor, oid) {
        Some(event) => event,
        None => {
            return None;
        },
    };
    match event {
        Event::RewriteEvent { .. } => match find_rewrite_target(event_replayer, event_cursor, oid) {
            Some(target) => {
                let mut text = "(rewritten as ".to_owned();
                text.append(short_oid(target).as_str());
                text.append(")");
                Some(StyledText { text, color: Some(Color::LightBlack) })
            },
            None => None,
        },
        Event::HideEvent { .. } => Some(
            StyledText { text: "(manually hidden)".to_owned(), color: Some(Color::LightBlack) },
        ),
        _ => None,
    }
}

/// The regular expression that finds the Phabricator revision in a commit
/// message: a line `Differential Revision: D123`, or with a URL in front of
/// the revision (`.../D123`).
pub const DIFF_NUMBER_PATTERN: &'static str =
    "(?mx)\n^\nDifferential[\\ ]Revision:[\\ ]\n    (.+ /)?\n    (?P<diff>D[0-9]+)\n$";

/// The text of the capture group `group` in the first match of the regular
/// expression `pattern` in `text`: `None` if the pattern does not compile,
/// does not match, or the group takes no part in the match.
pub uninterp spec fn regex_capture(pattern: Seq<char>, text: Seq<char>, group: Seq<char>) -> Option<Seq<char>>;

/// Compile `pattern` with `regex::Regex::new`, search `text` with
/// `Regex::captures` and read the group `group` with `Captures::name`.
/// The contract only names the result: what the regular expression engine
/// finds is not restated here.
#[verifier::external_body]
fn named_capture(pattern: &str, text: &str, group: &str) -> (r: Option<String>)
    ensures
        match r {
            Some(s) => regex_capture(pattern@, text@, group@) == Some(s@),
            None => regex_capture(pattern@, text@, group@) is None,
        },
{
    let re = match regex::Regex::new(pattern) {
        Ok(re) => re,
        Err(_) => return None,
    };
    let captures = re.captures(text)?;
    match captures.name(group) {
        Some(m) => Some(m.as_str().to_owned()),
        None => None,
    }
}

/// The Phabricator revision (`D123`) named in a commit message, if any.
pub fn extract_diff_number(message: &str) -> (r: Option<String>)
    ensures
        match r {
            Some(s) => regex_capture(DIFF_NUMBER_PATTERN@, message@, "diff"@) == Some(s@),
            None => regex_capture(DIFF_NUMBER_PATTERN@, message@, "diff"@) is None,
        },
{
    named_capture(DIFF_NUMBER_PATTERN, message, "diff")
}

/// The description of the revision that was found, in dark green.
pub fn describe_diff_number(diff_number: Option<String>) -> (r: Option<StyledText>)
    ensures
        match diff_number {
            Some(d) => r matches Some(t) && t@ == (d@, Some(Color::DarkGreen)),
            None => r is None,
        },
{
    match diff_number {
        Some(d) => Some(StyledText { text: d, color: Some(Color::DarkGreen) }),
        None => None,
    }
}

/// The label of a branch pointing at a commit: an arrow in front if it is
/// checked out, then the name without its prefix, with `remote ` or `ref `
/// in front for remote branches and other references.
pub open spec fn branch_label_spec(name: Seq<char>, checked_out: bool, arrow: Seq<char>) -> Seq<char> {
    let icon = if checked_out {
        arrow + " "@
    } else {
        Seq::empty()
    };
    let word = match reference_kind(name) {
        ReferenceKind::LocalBranch => Seq::empty(),
        ReferenceKind::RemoteBranch => "remote "@,
        ReferenceKind::OtherRef => "ref "@,
    };
    icon + word + reference_suffix(name)
}

/// The description of a non-empty set of labels: sorted, separated by
/// commas, in parentheses, in light green.
pub open spec fn labels_description_spec(labels: Set<Seq<char>>, text: Seq<char>) -> bool {
    exists|s: Seq<Seq<char>>|
        strictly_sorted(s) && s.to_set() == labels && text == "("@ + #[trigger] join_spec(s, ", "@) + ")"@
}

/// The description of the references `names`, each counted once: their
/// labels sorted (two references may share a label), separated by commas,
/// in parentheses.
pub open spec fn branches_description_spec(
    names: Set<Seq<char>>,
    label: spec_fn(Seq<char>) -> Seq<char>,
    text: Seq<char>,
) -> bool {
    exists|d: Seq<Seq<char>>, s: Seq<Seq<char>>|
        #![trigger d.map_values(label), join_spec(s, ", "@)]
        strictly_sorted(d) && d.to_set() == names && sorted_texts(s) && s.to_multiset() == d.map_values(
            label,
        ).to_multiset() && text == "("@ + join_spec(s, ", "@) + ")"@
}

/// Describe a set of labels: sorted, without repeats, joined by commas, in
/// parentheses and light green; `None` if there are none.
pub fn describe_labels(labels: Vec<String>) -> (r: Option<StyledText>)
    ensures
        labels@.len() == 0 <==> r is None,
        r matches Some(t) ==> t.color == Some(Color::LightGreen) && labels_description_spec(
            labels@.map_values(|l: String| l@).to_set(),
            t.text@,
        ),
{
    if labels.len() == 0 {
        return None;
    }
    let sorted = sorted_distinct(labels);
    let ghost s = sorted@.map_values(|l: String| l@);
    let mut text = "(".to_owned();
    text.append(join(&sorted, ", ").as_str());
    text.append(")");
    proof {
        assert(text@ == "("@ + join_spec(s, ", "@) + ")"@);
    }
    Some(StyledText { text, color: Some(Color::LightGreen) })
}

/// Display an abbreviated commit hash.
#[derive(Debug)]
pub struct CommitOidDescriptor {
    use_color: bool,
}

impl CommitOidDescriptor {
    /// Whether the hash is shown in color.
    pub closed spec fn spec_use_color(&self) -> bool {
        self.use_color
    }

    /// Constructor.
    pub fn new(use_color: bool) -> (r: Self)
        ensures
            r.spec_use_color() == use_color,
    {
        CommitOidDescriptor { use_color }
    }

    /// The abbreviated hash of the node's commit.
    pub fn describe_node(&self, object: &NodeObject) -> (r: Option<StyledText>)
        ensures
            r matches Some(t) && t@ == oid_description_spec(object.spec_oid(), self.spec_use_color()),
    {
        Some(describe_oid(object.get_oid(), self.use_color))
    }
}

/// Display the first line of the commit message.
#[derive(Debug)]
pub struct CommitMessageDescriptor;

impl CommitMessageDescriptor {
    /// Constructor.
    pub fn new() -> (r: Self) {
        CommitMessageDescriptor
    }

    /// The first line of the commit message, or a note that the commit
    /// was garbage collected.
    pub fn describe_node(&self, object: &NodeObject) -> (r: Option<StyledText>)
        ensures
            r matches Some(t) && t.color is None && t.text@ == match object {
                NodeObject::Commit { summary, .. } => summary@,
                NodeObject::GarbageCollected { .. } => "<garbage collected>"@,
            },
    {
        match object {
            NodeObject::Commit { summary, .. } => Some(StyledText { text: summary.clone(), color: None }),
            NodeObject::GarbageCollected { .. } => Some(
                StyledText { text: "<garbage collected>".to_owned(), color: None },
            ),
        }
    }
}

/// For obsolete commits, provide the reason that it's obsolete.
pub struct ObsolescenceExplanationDescriptor<'a> {
    event_replayer: &'a EventReplayer,
    event_cursor: EventCursor,
}

impl<'a> ObsolescenceExplanationDescriptor<'a> {
    /// The events that the descriptor reads.
    pub closed spec fn spec_events(&self) -> Seq<EventView> {
        self.event_replayer.recorded()
    }

    /// The cursor position as of which it reads them.
    pub closed spec fn spec_cursor(&self) -> int {
        self.event_cursor.event_id as int
    }

    /// Whether the descriptor reads a well-formed replayer at a valid
    /// cursor.
    pub closed spec fn wf(&self) -> bool {
        &&& self.event_replayer.wf()
        &&& 0 <= self.event_cursor.event_id <= self.event_replayer.recorded().len()
    }

    /// Constructor.
    pub fn new(event_replayer: &'a EventReplayer, event_cursor: EventCursor) -> (r: Self)
        requires
            event_replayer.wf(),
            0 <= event_cursor.event_id <= event_replayer.recorded().len(),
        ensures
            r.wf(),
            r.spec_events() == event_replayer.recorded(),
            r.spec_cursor() == event_cursor.event_id,
    {
        ObsolescenceExplanationDescriptor { event_replayer, event_cursor }
    }

    /// Why the node's commit is hidden, if the events say.
    pub fn describe_node(&self, object: &NodeObject) -> (r: Option<StyledText>)
        requires
            self.wf(),
        ensures
            (match r {
                Some(t) => Some(t@),
                None => None,
            }) == obsolescence_spec(self.spec_events(), self.spec_cursor(), object.spec_oid()),
    {
        describe_obsolescence(self.event_replayer, self.event_cursor, object.get_oid())
    }
}

/// The branches that point to a commit: a commit and the full names of the
/// references to it.
pub struct BranchTargets {
    pub oid: Oid,
    pub names: Vec<String>,
}

/// The names of the references that point to `oid`, from the first entry
/// for it; none if there is no entry.
pub open spec fn names_of(targets: Seq<BranchTargets>, oid: Seq<u8>) -> Seq<Seq<char>>
    decreases targets.len(),
{
    if targets.len() == 0 {
        Seq::empty()
    } else if targets[0].oid@ == oid {
        targets[0].names@.map_values(|n: String| n@)
    } else {
        names_of(targets.drop_first(), oid)
    }
}

/// Display branches that point to a given commit.
pub struct BranchesDescriptor {
    is_enabled: bool,
    head_reference_name: Option<String>,
    branch_oid_to_names: Vec<BranchTargets>,
}

impl BranchesDescriptor {
    /// Whether branches are shown.
    pub closed spec fn spec_is_enabled(&self) -> bool {
        self.is_enabled
    }

    /// The reference that `HEAD` points to, if any.
    pub closed spec fn spec_head(&self) -> Option<Seq<char>> {
        match self.head_reference_name {
            Some(n) => Some(n@),
            None => None,
        }
    }

    /// The references that point to each commit.
    pub closed spec fn spec_targets(&self) -> Seq<BranchTargets> {
        self.branch_oid_to_names@
    }

    /// Constructor: whether the user's configuration shows branches, the
    /// reference that `HEAD` points to, and the references that point to
    /// each commit.
    pub fn new(is_enabled: bool, head_reference_name: Option<String>, branch_oid_to_names: Vec<BranchTargets>) -> (r:
        Self)
        ensures
            r.spec_is_enabled() == is_enabled,
            r.spec_head() == match head_reference_name {
                Some(n) => Some(n@),
                None => None::<Seq<char>>,
            },
            r.spec_targets() == branch_oid_to_names@,
    {
        BranchesDescriptor { is_enabled, head_reference_name, branch_oid_to_names }
    }

    /// The references that point to the node's commit, labeled, sorted
    /// and in parentheses; `None` if branches are not shown or there are
    /// none.
    pub fn describe_node(&self, glyphs: &Glyphs, object: &NodeObject) -> (r: Option<StyledText>)
        ensures
            ({
                let names = names_of(self.spec_targets(), object.spec_oid());
                &&& (!self.spec_is_enabled() || names.len() == 0) <==> r is None
                &&& r matches Some(t) ==> t.color == Some(Color::LightGreen) && branches_description_spec(
                    names.to_set(),
                    |n: Seq<char>| branch_label_spec(n, self.spec_head() == Some(n), glyphs.cycle_arrow@),
                    t.text@,
                )
            }),
    {
        if !self.is_enabled {
            return None;
        }
        let oid = object.get_oid();
        let ghost targets = self.branch_oid_to_names@;
        let mut k: usize = 0;
        assert(targets.skip(0) =~= targets);
        while k < self.branch_oid_to_names.len() && self.branch_oid_to_names[k].oid != oid
            invariant
                k <= targets.len(),
                targets == self.branch_oid_to_names@,
                names_of(targets, oid@) == names_of(targets.skip(k as int), oid@),
            decreases targets.len() - k,
        {
            assert(targets.skip(k as int).drop_first() =~= targets.skip(k + 1));
            k = k + 1;
        }
        if k == self.branch_oid_to_names.len() {
            assert(targets.skip(k as int).len() == 0);
            return None;
        }
        let names = &self.branch_oid_to_names[k].names;
        let ghost name_views = names@.map_values(|n: String| n@);
        assert(names_of(targets, oid@) == name_views);
        if names.len() == 0 {
            return None;
        }
        let mut copies: Vec<String> = Vec::new();
        let mut i: usize = 0;
        while i < names.len()
            invariant
                i <= names@.len(),
                name_views == names@.map_values(|n: String| n@),
                copies@.map_values(|n: String| n@) == name_views.take(i as int),
            decreases names@.len() - i,
        {
            let ghost before = copies@.map_values(|n: String| n@);
            copies.push(names[i].clone());
            assert(copies@.map_values(|n: String| n@) =~= before.push(name_views[i as int]));
            assert(name_views.take(i + 1) =~= name_views.take(i as int).push(name_views[i as int]));
            i = i + 1;
        }
        assert(name_views.take(names@.len() as int) =~= name_views);
        let distinct = sorted_distinct(copies);
        let ghost d = distinct@.map_values(|n: String| n@);
        let ghost head = self.spec_head();
        let ghost arrow = glyphs.cycle_arrow@;
        let ghost label_of = |n: Seq<char>| branch_label_spec(n, head == Some(n), arrow);
        let mut labels: Vec<String> = Vec::new();
        let mut j: usize = 0;
        while j < distinct.len()
            invariant
                j <= d.len(),
                d == distinct@.map_values(|n: String| n@),
                head == self.spec_head(),
                arrow == glyphs.cycle_arrow@,
                label_of == (|n: Seq<char>| branch_label_spec(n, head == Some(n), arrow)),
                labels@.map_values(|l: String| l@) == d.take(j as int).map_values(label_of),
            decreases d.len() - j,
        {
            let name = &distinct[j];
            let checked_out = match &self.head_reference_name {
                Some(h) => {
                    let hc = str_chars(h.as_str());
                    let nc = str_chars(name.as_str());
                    crate::text::chars_eq(hc.as_slice(), nc.as_slice())
                },
                None => false,
            };
            let reference = CategorizedReferenceName::new(name.as_str());
            let mut label = if checked_out {
                let mut icon = glyphs.cycle_arrow.to_owned();
                icon.append(" ");
                icon
            } else {
                String::new()
            };
            match reference.kind() {
                ReferenceKind::LocalBranch => {},
                ReferenceKind::RemoteBranch => label.append("remote "),
                ReferenceKind::OtherRef => label.append("ref "),
            }
            label.append(reference.render_suffix().as_str());
            proof {
                assert(checked_out == (head == Some(name@)));
                assert(label@ == label_of(name@));
            }
            let ghost before = labels@.map_values(|l: String| l@);
            labels.push(label);
            assert(labels@.map_values(|l: String| l@) =~= before.push(label_of(name@)));
            assert(d.take(j + 1).map_values(label_of) =~= d.take(j as int).map_values(label_of).push(label_of(d[j as int])));
            j = j + 1;
        }
        assert(d.take(d.len() as int) =~= d);
        let sorted = sort_texts(labels);
        let ghost s = sorted@.map_values(|l: String| l@);
        let mut text = "(".to_owned();
        text.append(join(&sorted, ", ").as_str());
        text.append(")");
        proof {
            assert(text@ == "("@ + join_spec(s, ", "@) + ")"@);
            assert(d.to_set() == name_views.to_set());
        }
        Some(StyledText { text, color: Some(Color::LightGreen) })
    }
}

/// Display the associated Phabricator revision for a given commit.
#[derive(Debug)]
pub struct DifferentialRevisionDescriptor {
    is_enabled: bool,
}

impl DifferentialRevisionDescriptor {
    /// Whether revisions are shown.
    pub closed spec fn spec_is_enabled(&self) -> bool {
        self.is_enabled
    }

    /// Constructor: whether the user's configuration shows revisions.
    pub fn new(is_enabled: bool) -> (r: Self)
        ensures
            r.spec_is_enabled() == is_enabled,
    {
        DifferentialRevisionDescriptor { is_enabled }
    }

    /// The revision named in the commit message, in dark green; `None` if
    /// revisions are not shown, the commit was garbage collected, or the
    /// message names none.
    pub fn describe_node(&self, object: &NodeObject) -> (r: Option<StyledText>)
        ensures
            match object {
                NodeObject::Commit { message, .. } => if self.spec_is_enabled() {
                    match regex_capture(DIFF_NUMBER_PATTERN@, message@, "diff"@) {
                        Some(d) => r matches Some(t) && t@ == (d, Some(Color::DarkGreen)),
                        None => r is None,
                    }
                } else {
                    r is None
                },
                NodeObject::GarbageCollected { .. } => r is None,
            },
    {
        if !self.is_enabled {
            return None;
        }
        match object {
            NodeObject::Commit { message, .. } => describe_diff_number(extract_diff_number(message.as_str())),
            NodeObject::GarbageCollected { .. } => None,
        }
    }
}

/// Display how long ago the given commit was committed.
#[derive(Debug)]
pub struct RelativeTimeDescriptor {
    is_enabled: bool,
    now: Time,
}

/// Why the age of a commit could not be described.
#[derive(Debug, PartialEq, Eq)]
pub enum RelativeTimeError {
    /// The commit time is before the Unix epoch.
    NegativeCommitTime,
    /// The time between the commit and now does not fit in an `i64`.
    OutOfRange,
}

impl RelativeTimeDescriptor {
    /// Whether ages are shown.
    pub closed spec fn spec_is_enabled(&self) -> bool {
        self.is_enabled
    }

    /// The time that ages are measured to.
    pub closed spec fn spec_now(&self) -> Time {
        self.now
    }

    /// Constructor: whether the user's configuration shows ages, and the
    /// current time.
    pub fn new(is_enabled: bool, now: Time) -> (r: Self)
        ensures
            r.spec_is_enabled() == is_enabled,
            r.spec_now() == now,
    {
        RelativeTimeDescriptor { is_enabled, now }
    }

    /// Whether or not relative times should be shown, according to the
    /// user's settings.
    pub fn is_enabled(&self) -> (r: bool)
        ensures
            r == self.spec_is_enabled(),
    {
        self.is_enabled
    }

    /// Describe a relative time delta, e.g. "3d".
    pub fn describe_time_delta(now: Time, previous_time: Time) -> (r: Result<String, TimeDeltaError>)
        requires
            now.nanos < 1_000_000_000,
            previous_time.nanos < 1_000_000_000,
        ensures
            match r {
                Ok(s) => i64::MIN < delta_secs(now, previous_time) <= i64::MAX && s@ == time_delta_text(
                    delta_secs(now, previous_time),
                ),
                Err(_) => !(i64::MIN < delta_secs(now, previous_time) <= i64::MAX),
            },
    {
        relative_time_text(now, previous_time)
    }

    /// How long ago the node's commit was made, in dark green; `None` if
    /// ages are not shown or the commit was garbage collected.
    pub fn describe_node(&self, object: &NodeObject) -> (r: Result<Option<StyledText>, RelativeTimeError>)
        requires
            self.spec_now().nanos < 1_000_000_000,
        ensures
            match object {
                NodeObject::Commit { time_secs, .. } => if !self.spec_is_enabled() {
                    r matches Ok(None)
                } else if *time_secs < 0 {
                    r matches Err(RelativeTimeError::NegativeCommitTime)
                } else {
                    let d = delta_secs(self.spec_now(), (Time { secs: *time_secs, nanos: 0 }));
                    if i64::MIN < d <= i64::MAX {
                        r matches Ok(Some(t)) && t@ == (time_delta_text(d), Some(Color::DarkGreen))
                    } else {
                        r matches Err(RelativeTimeError::OutOfRange)
                    }
                },
                NodeObject::GarbageCollected { .. } => r matches Ok(None),
            },
    {
        if !self.is_enabled {
            return Ok(None);
        }
        match object {
            NodeObject::Commit { time_secs, .. } => {
                if *time_secs < 0 {
                    return Err(RelativeTimeError::NegativeCommitTime);
                }
                match relative_time_text(self.now, Time { secs: *time_secs, nanos: 0 }) {
                    Ok(text) => Ok(Some(StyledText { text, color: Some(Color::DarkGreen) })),
                    Err(_) => Err(RelativeTimeError::OutOfRange),
                }
            },
            NodeObject::GarbageCollected { .. } => Ok(None),
        }
    }
}

/// The complete description of a node: the descriptions that apply, in
/// order, with a space between each two.
pub fn render_node_descriptors(descriptions: Vec<Option<StyledText>>) -> (r: Vec<StyledText>)
    ensures
        styled_views(r@) == spaced_spec(present_spec(opt_styled_views(descriptions@))),
{
    join_descriptions(descriptions)
}

} // verus!
