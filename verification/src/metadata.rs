//! Additional metadata to display for commits in the smartlog, between the
//! commit hash and the commit message.

use vstd::prelude::*;

use crate::eventlog::{EventCursor, EventReplayer, EventView};
use crate::formatting::{join_descriptions, opt_styled_views, present_spec, spaced_spec, styled_views, Color, StyledText};
use crate::node_descriptors::{
    describe_diff_number, describe_labels, describe_obsolescence, describe_oid, extract_diff_number,
    labels_description_spec, names_of, obsolescence_spec, oid_description_spec, regex_capture,
    BranchTargets, RelativeTimeError, DIFF_NUMBER_PATTERN,
};
use crate::oid::Oid;
use crate::text::{decimal_text, i64_to_string, push_char};

verus! {

/// A point in time: whole seconds since the Unix epoch (negative before
/// it) and the nanoseconds within that second.
#[derive(Clone, Copy, Debug, PartialEq, Eq, Structural)]
pub struct Time {
    pub secs: i64,
    pub nanos: u32,
}

/// The time in nanoseconds since the Unix epoch.
pub open spec fn time_nanos(t: Time) -> int {
    t.secs * 1_000_000_000 + t.nanos
}

/// The whole seconds from `previous` to `now`, rounded towards zero:
/// positive when `previous` is earlier. This is the `as_secs` of the
/// `duration_since` between the two times, negated when `previous` is the
/// later one.
pub open spec fn delta_secs(now: Time, previous: Time) -> int {
    let n = time_nanos(now) - time_nanos(previous);
    if n > 0 {
        n / 1_000_000_000
    } else {
        -((-n) / 1_000_000_000)
    }
}

/// The text for a delta of `d` seconds: seconds below a minute (and for
/// negative deltas), then whole minutes below an hour, hours below a day,
/// days below a year of 365 days, and years.
pub open spec fn time_delta_text(d: int) -> Seq<char> {
    if d < 60 {
        decimal_text(d) + seq!['s']
    } else if d / 60 < 60 {
        decimal_text(d / 60) + seq!['m']
    } else if d / 60 / 60 < 24 {
        decimal_text(d / 60 / 60) + seq!['h']
    } else if d / 60 / 60 / 24 < 365 {
        decimal_text(d / 60 / 60 / 24) + seq!['d']
    } else {
        decimal_text(d / 60 / 60 / 24 / 365) + seq!['y']
    }
}

/// Why a time delta could not be described.
#[derive(Debug, PartialEq, Eq)]
pub enum TimeDeltaError {
    /// The number of seconds between the two times does not fit in an `i64`.
    OutOfRange,
}

/// Describe how long ago `previous_time` was, as of `now`, e.g. "3d".
pub fn relative_time_text(now: Time, previous_time: Time) -> (r: Result<String, TimeDeltaError>)
    requires
        now.nanos < 1_000_000_000,
        previous_time.nanos < 1_000_000_000,
    ensures
        match r {
            Ok(s) => i64::MIN < delta_secs(now, previous_time) <= i64::MAX && s@ == time_delta_text(
                delta_secs(now, previous_time),
            ),
            Err(_) => !(i64::MIN < delta_secs(now, previous_time) <= i64::MAX),
        },
{
    let n: i128 = (now.secs as i128 - previous_time.secs as i128) * 1_000_000_000i128 + (now.nanos as i128
        - previous_time.nanos as i128);
    assert(n == time_nanos(now) - time_nanos(previous_time));
    let secs: i128 = if n > 0 { n / 1_000_000_000i128 } else { -((-n) / 1_000_000_000i128) };
    if secs > i64::MAX as i128 || secs <= i64::MIN as i128 {
        return Err(TimeDeltaError::OutOfRange);
    }
    let mut delta: i64 = secs as i64;
    let ghost d = delta as int;
    let mut s: String;
    if delta < 60 {
        s = i64_to_string(delta);
        push_char(&mut s, 's');
        return Ok(s);
    }
    delta = delta / 60;
    if delta < 60 {
        s = i64_to_string(delta);
        push_char(&mut s, 'm');
        return Ok(s);
    }
    delta = delta / 60;
    if delta < 24 {
        s = i64_to_string(delta);
        push_char(&mut s, 'h');
        return Ok(s);
    }
    delta = delta / 24;
    if delta < 365 {
        s = i64_to_string(delta);
        push_char(&mut s, 'd');
        return Ok(s);
    }
    delta = delta / 365;
    s = i64_to_string(delta);
    push_char(&mut s, 'y');
    Ok(s)
}

/// Display an abbreviated commit hash.
#[derive(Debug)]
pub struct CommitOidProvider {
    use_color: bool,
}

impl CommitOidProvider {
    /// Whether the hash is shown in color.
    pub closed spec fn spec_use_color(&self) -> bool {
        self.use_color
    }

    /// Constructor.
    pub fn new(use_color: bool) -> (r: Self)
        ensures
            r.spec_use_color() == use_color,
    {
        CommitOidProvider { use_color }
    }

    /// The abbreviated hash of the commit.
    pub fn describe_commit(&self, oid: Oid) -> (r: Option<StyledText>)
        ensures
            r matches Some(t) && t@ == oid_description_spec(oid@, self.spec_use_color()),
    {
        Some(describe_oid(oid, self.use_color))
    }
}

/// Display the first line of the commit message.
#[derive(Debug)]
pub struct CommitMessageProvider;

impl CommitMessageProvider {
    /// Constructor.
    pub fn new() -> (r: Self) {
        CommitMessageProvider
    }

    /// The first line of the commit message, as it is.
    pub fn describe_commit(&self, summary: &str) -> (r: Option<StyledText>)
        ensures
            r matches Some(t) && t@ == (summary@, None::<Color>),
    {
        Some(StyledText { text: summary.to_owned(), color: None })
    }
}

/// For hidden commits, provide the reason that it's hidden.
pub struct HiddenExplanationProvider<'a> {
    event_replayer: &'a EventReplayer,
    event_cursor: EventCursor,
}

impl<'a> HiddenExplanationProvider<'a> {
    /// The events that the provider reads.
    pub closed spec fn spec_events(&self) -> Seq<EventView> {
        self.event_replayer.recorded()
    }

    /// The cursor position as of which it reads them.
    pub closed spec fn spec_cursor(&self) -> int {
        self.event_cursor.event_id as int
    }

    /// Whether the provider reads a well-formed replayer at a valid cursor.
    pub closed spec fn wf(&self) -> bool {
        &&& self.event_replayer.wf()
        &&& 0 <= self.event_cursor.event_id <= self.event_replayer.recorded().len()
    }

    /// Constructor.
    pub fn new(event_replayer: &'a EventReplayer, event_cursor: EventCursor) -> (r: Self)
        requires
            event_replayer.wf(),
            0 <= event_cursor.event_id <= event_replayer.recorded().len(),
        ensures
            r.wf(),
            r.spec_events() == event_replayer.recorded(),
            r.spec_cursor() == event_cursor.event_id,
    {
        HiddenExplanationProvider { event_replayer, event_cursor }
    }

    /// Why the commit is hidden, if the events say.
    pub fn describe_commit(&self, oid: Oid) -> (r: Option<StyledText>)
        requires
            self.wf(),
        ensures
            (match r {
                Some(t) => Some(t@),
                None => None,
            }) == obsolescence_spec(self.spec_events(), self.spec_cursor(), oid@),
    {
        describe_obsolescence(self.event_replayer, self.event_cursor, oid)
    }
}

/// Display branches that point to a given commit.
pub struct BranchesProvider {
    is_enabled: bool,
    branch_oid_to_names: Vec<BranchTargets>,
}

impl BranchesProvider {
    /// Whether branches are shown.
    pub closed spec fn spec_is_enabled(&self) -> bool {
        self.is_enabled
    }

    /// The branches that point to each commit.
    pub closed spec fn spec_targets(&self) -> Seq<BranchTargets> {
        self.branch_oid_to_names@
    }

    /// Constructor: whether the user's configuration shows branches, and
    /// the names of the branches that point to each commit.
    pub fn new(is_enabled: bool, branch_oid_to_names: Vec<BranchTargets>) -> (r: Self)
        ensures
            r.spec_is_enabled() == is_enabled,
            r.spec_targets() == branch_oid_to_names@,
    {
        BranchesProvider { is_enabled, branch_oid_to_names }
    }

    /// The names of the branches that point to the commit, sorted and in
    /// parentheses; `None` if branches are not shown or there are none.
    pub fn describe_commit(&self, oid: Oid) -> (r: Option<StyledText>)
        ensures
            ({
                let names = names_of(self.spec_targets(), oid@);
                &&& (!self.spec_is_enabled() || names.len() == 0) <==> r is None
                &&& r matches Some(t) ==> t.color == Some(Color::LightGreen) && labels_description_spec(
                    names.to_set(),
                    t.text@,
                )
            }),
    {
        if !self.is_enabled {
            return None;
        }
        let ghost targets = self.branch_oid_to_names@;
        let mut k: usize = 0;
        assert(targets.skip(0) =~= targets);
        while k < self.branch_oid_to_names.len() && self.branch_oid_to_names[k].oid != oid
            invariant
                k <= targets.len(),
                targets == self.branch_oid_to_names@,
                names_of(targets, oid@) == names_of(targets.skip(k as int), oid@),
            decreases targets.len() - k,
        {
            assert(targets.skip(k as int).drop_first() =~= targets.skip(k + 1));
            k = k + 1;
        }
        if k == self.branch_oid_to_names.len() {
            assert(targets.skip(k as int).len() == 0);
            return None;
        }
        let names = &self.branch_oid_to_names[k].names;
        let ghost name_views = names@.map_values(|n: String| n@);
        let mut copies: Vec<String> = Vec::new();
        let mut i: usize = 0;
        while i < names.len()
            invariant
                i <= names@.len(),
                name_views == names@.map_values(|n: String| n@),
                copies@.map_values(|n: String| n@) == name_views.take(i as int),
            decreases names@.len() - i,
        {
            let ghost before = copies@.map_values(|n: String| n@);
            copies.push(names[i].clone());
            assert(copies@.map_values(|n: String| n@) =~= before.push(name_views[i as int]));
            assert(name_views.take(i + 1) =~= name_views.take(i as int).push(name_views[i as int]));
            i = i + 1;
        }
        assert(name_views.take(names@.len() as int) =~= name_views);
        describe_labels(copies)
    }
}

/// Display the associated Phabricator revision for a given commit.
#[derive(Debug)]
pub struct DifferentialRevisionProvider {
    is_enabled: bool,
}

impl DifferentialRevisionProvider {
    /// Whether revisions are shown.
    pub closed spec fn spec_is_enabled(&self) -> bool {
        self.is_enabled
    }

    /// Constructor: whether the user's configuration shows revisions.
    pub fn new(is_enabled: bool) -> (r: Self)
        ensures
            r.spec_is_enabled() == is_enabled,
    {
        DifferentialRevisionProvider { is_enabled }
    }

    /// The revision named in the commit message, in dark green; `None` if
    /// revisions are not shown or the message names none.
    pub fn describe_commit(&self, message: &str) -> (r: Option<StyledText>)
        ensures
            if self.spec_is_enabled() {
                match regex_capture(DIFF_NUMBER_PATTERN@, message@, "diff"@) {
                    Some(d) => r matches Some(t) && t@ == (d, Some(Color::DarkGreen)),
                    None => r is None,
                }
            } else {
                r is None
            },
    {
        if !self.is_enabled {
            return None;
        }
        describe_diff_number(extract_diff_number(message))
    }
}

/// Display how long ago the given commit was committed.
#[derive(Debug)]
pub struct RelativeTimeProvider {
    is_enabled: bool,
    now: Time,
}

impl RelativeTimeProvider {
    /// Whether ages are shown.
    pub closed spec fn spec_is_enabled(&self) -> bool {
        self.is_enabled
    }

    /// The time that ages are measured to.
    pub closed spec fn spec_now(&self) -> Time {
        self.now
    }

    /// Constructor: whether the user's configuration shows ages, and the
    /// current time.
    pub fn new(is_enabled: bool, now: Time) -> (r: Self)
        ensures
            r.spec_is_enabled() == is_enabled,
            r.spec_now() == now,
    {
        RelativeTimeProvider { is_enabled, now }
    }

    /// Whether or not relative times should be shown, according to the
    /// user's settings.
    pub fn is_enabled(&self) -> (r: bool)
        ensures
            r == self.spec_is_enabled(),
    {
        self.is_enabled
    }

    /// Describe a relative time delta, e.g. "3d".
    pub fn describe_time_delta(now: Time, previous_time: Time) -> (r: Result<String, TimeDeltaError>)
        requires
            now.nanos < 1_000_000_000,
            previous_time.nanos < 1_000_000_000,
        ensures
            match r {
                Ok(s) => i64::MIN < delta_secs(now, previous_time) <= i64::MAX && s@ == time_delta_text(
                    delta_secs(now, previous_time),
                ),
                Err(_) => !(i64::MIN < delta_secs(now, previous_time) <= i64::MAX),
            },
    {
        relative_time_text(now, previous_time)
    }

    /// How long ago the commit was made (its time in seconds since the Unix
    /// epoch), in dark green; `None` if ages are not shown.
    pub fn describe_commit(&self, time_secs: i64) -> (r: Result<Option<StyledText>, RelativeTimeError>)
        requires
            self.spec_now().nanos < 1_000_000_000,
        ensures
            if !self.spec_is_enabled() {
                r matches Ok(None)
            } else if time_secs < 0 {
                r matches Err(RelativeTimeError::NegativeCommitTime)
            } else {
                let d = delta_secs(self.spec_now(), (Time { secs: time_secs, nanos: 0 }));
                if i64::MIN < d <= i64::MAX {
                    r matches Ok(Some(t)) && t@ == (time_delta_text(d), Some(Color::DarkGreen))
                } else {
                    r matches Err(RelativeTimeError::OutOfRange)
                }
            },
    {
        if !self.is_enabled {
            return Ok(None);
        }
        if time_secs < 0 {
            return Err(RelativeTimeError::NegativeCommitTime);
        }
        match relative_time_text(self.now, Time { secs: time_secs, nanos: 0 }) {
            Ok(text) => Ok(Some(StyledText { text, color: Some(Color::DarkGreen) })),
            Err(_) => Err(RelativeTimeError::OutOfRange),
        }
    }
}

/// The complete description of a commit: the descriptions that apply, in
/// order, with a space between each two.
pub fn render_commit_metadata(descriptions: Vec<Option<StyledText>>) -> (r: Vec<StyledText>)
    ensures
        styled_views(r@) == spaced_spec(present_spec(opt_styled_views(descriptions@))),
{
    join_descriptions(descriptions)
}

} // verus!
