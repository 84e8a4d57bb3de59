//! Descriptions of events for the user, as lines of text parts. A part
//! names a commit or a location where the description needs one; the
//! caller renders those with what the repository knows about the commit.

use vstd::prelude::*;

use crate::eventlog::{events_view, Event, EventTransactionId, EventView};
use crate::oid::Oid;
use crate::repo::{reference_kind, reference_suffix, CategorizedReferenceName, ReferenceKind};
use crate::rewrite::is_zero_oid;
use crate::text::{decimal_text, i64_to_string, push_char, str_chars, u64_to_string};

verus! {

/// One part of a line of description.
#[derive(Debug, PartialEq, Eq)]
pub enum DescriptionPart {
    /// Text to print as it is.
    Plain(String),
    /// A commit, to be described by its summary.
    Commit(Oid),
    /// A location that a reference pointed to (an object ID or the name of
    /// another reference), to be described like a commit.
    Location(String),
}

/// The mathematical value of a description part.
pub enum PartView {
    Plain(Seq<char>),
    Commit(Seq<u8>),
    Location(Seq<char>),
}

impl View for DescriptionPart {
    type V = PartView;

    open spec fn view(&self) -> PartView {
        match self {
            DescriptionPart::Plain(s) => PartView::Plain(s@),
            DescriptionPart::Commit(oid) => PartView::Commit(oid@),
            DescriptionPart::Location(s) => PartView::Location(s@),
        }
    }
}

/// The views of one line of parts.
pub open spec fn line_view(line: Seq<DescriptionPart>) -> Seq<PartView> {
    line.map_values(|p: DescriptionPart| p@)
}

/// The views of lines of parts.
pub open spec fn lines_view(lines: Seq<Vec<DescriptionPart>>) -> Seq<Seq<PartView>> {
    lines.map_values(|l: Vec<DescriptionPart>| line_view(l@))
}

/// The note under an event that the tool does not know how to describe.
pub open spec fn empty_event_note() -> Seq<char> {
    "This may be an unsupported use-case; see https://git.io/J0b7z"@
}

/// A reference name with a word for its kind in front.
pub open spec fn friendly_name(name: Seq<char>) -> Seq<char> {
    let word = match reference_kind(name) {
        ReferenceKind::LocalBranch => "branch "@,
        ReferenceKind::RemoteBranch => "remote branch "@,
        ReferenceKind::OtherRef => "ref "@,
    };
    word + reference_suffix(name)
}

/// The number of bytes in the UTF-8 encoding of `s`, as `str::len` counts
/// them (the length of a `str` always fits in a `usize`).
pub open spec fn byte_len(s: Seq<char>) -> nat {
    (vstd::utf8::encode_utf8(s).len() as usize) as nat
}

/// `n` spaces.
pub open spec fn spaces_spec(n: nat) -> Seq<char> {
    Seq::new(n, |i: int| ' ')
}

/// A line of one plain text.
pub open spec fn plain_line(s: Seq<char>) -> Seq<PartView> {
    seq![PartView::Plain(s)]
}

/// The lines that describe an event: one or two lines, the second one
/// empty where there is nothing more to say.
pub open spec fn describe_event_spec(e: EventView) -> Seq<Seq<PartView>> {
    match e {
        EventView::Commit { oid, .. } => seq![
            seq![PartView::Plain("Commit "@), PartView::Commit(oid)],
            Seq::empty(),
        ],
        EventView::Hide { oid, .. } => seq![
            seq![PartView::Plain("Hide commit "@), PartView::Commit(oid)],
            Seq::empty(),
        ],
        EventView::Unhide { oid, .. } => seq![
            seq![PartView::Plain("Unhide commit "@), PartView::Commit(oid)],
            Seq::empty(),
        ],
        EventView::Rewrite { old_oid, new_oid, .. } => {
            if !is_zero_oid(old_oid) && is_zero_oid(new_oid) {
                seq![seq![PartView::Plain("Hide commit "@), PartView::Commit(old_oid)], Seq::empty()]
            } else if is_zero_oid(old_oid) && !is_zero_oid(new_oid) {
                seq![seq![PartView::Plain("Unhide commit "@), PartView::Commit(new_oid)], Seq::empty()]
            } else if !is_zero_oid(old_oid) {
                seq![
                    seq![PartView::Plain("Rewrite commit "@), PartView::Commit(old_oid)],
                    seq![PartView::Plain("           as "@), PartView::Commit(new_oid)],
                ]
            } else {
                seq![plain_line("Empty rewrite event."@), plain_line(empty_event_note())]
            }
        },
        EventView::RefUpdate { ref_name, old_ref, new_ref, .. } => match (old_ref, new_ref) {
            (None, Some(n)) => if ref_name == "HEAD"@ {
                seq![seq![PartView::Plain("Check out to "@), PartView::Location(n)], Seq::empty()]
            } else {
                seq![
                    seq![
                        PartView::Plain("Create "@),
                        PartView::Plain(friendly_name(ref_name)),
                        PartView::Plain(" at "@),
                        PartView::Location(n),
                    ],
                    Seq::empty(),
                ]
            },
            (Some(o), Some(n)) => if ref_name == "HEAD"@ {
                seq![
                    seq![PartView::Plain("Check out from "@), PartView::Location(o)],
                    seq![PartView::Plain("            to "@), PartView::Location(n)],
                ]
            } else {
                seq![
                    seq![
                        PartView::Plain("Move "@),
                        PartView::Plain(friendly_name(ref_name)),
                        PartView::Plain(" from "@),
                        PartView::Location(o),
                    ],
                    seq![
                        PartView::Plain("     "@),
                        PartView::Plain(spaces_spec(byte_len(friendly_name(ref_name)))),
                        PartView::Plain("   to "@),
                        PartView::Location(n),
                    ],
                ]
            },
            (None, None) => seq![
                seq![PartView::Plain("Empty event for "@), PartView::Plain(ref_name)],
                plain_line(empty_event_note()),
            ],
            (Some(o), None) => seq![
                seq![
                    PartView::Plain("Delete "@),
                    PartView::Plain(friendly_name(ref_name)),
                    PartView::Plain(" at "@),
                    PartView::Location(o),
                ],
                Seq::empty(),
            ],
        },
    }
}

/// `n` spaces.
pub fn spaces(n: usize) -> (r: String)
    ensures
        r@ == spaces_spec(n as nat),
{
    let mut s = String::new();
    let mut i: usize = 0;
    while i < n
        invariant
            i <= n,
            s@ == spaces_spec(i as nat),
        decreases n - i,
    {
        push_char(&mut s, ' ');
        assert(spaces_spec((i + 1) as nat) =~= spaces_spec(i as nat).push(' '));
        i = i + 1;
    }
    s
}

/// A plain part holding a copy of a literal.
fn plain(s: &str) -> (r: DescriptionPart)
    ensures
        r@ == PartView::Plain(s@),
{
    DescriptionPart::Plain(s.to_owned())
}

/// A line of two parts.
fn line2(a: DescriptionPart, b: DescriptionPart) -> (r: Vec<DescriptionPart>)
    ensures
        line_view(r@) == seq![a@, b@],
{
    let mut v: Vec<DescriptionPart> = Vec::new();
    v.push(a);
    v.push(b);
    assert(line_view(v@) =~= seq![a@, b@]);
    v
}

/// A line of four parts.
fn line4(a: DescriptionPart, b: DescriptionPart, c: DescriptionPart, d: DescriptionPart) -> (r: Vec<
    DescriptionPart,
>)
    ensures
        line_view(r@) == seq![a@, b@, c@, d@],
{
    let mut v: Vec<DescriptionPart> = Vec::new();
    v.push(a);
    v.push(b);
    v.push(c);
    v.push(d);
    assert(line_view(v@) =~= seq![a@, b@, c@, d@]);
    v
}

/// Two lines.
fn two_lines(a: Vec<DescriptionPart>, b: Vec<DescriptionPart>) -> (r: Vec<Vec<DescriptionPart>>)
    ensures
        lines_view(r@) == seq![line_view(a@), line_view(b@)],
{
    let mut v: Vec<Vec<DescriptionPart>> = Vec::new();
    v.push(a);
    v.push(b);
    assert(lines_view(v@) =~= seq![line_view(a@), line_view(b@)]);
    v
}

/// A line that ends after one part.
fn line1(a: DescriptionPart) -> (r: Vec<DescriptionPart>)
    ensures
        line_view(r@) == seq![a@],
{
    let mut v: Vec<DescriptionPart> = Vec::new();
    v.push(a);
    assert(line_view(v@) =~= seq![a@]);
    v
}

/// An empty line.
fn empty_line() -> (r: Vec<DescriptionPart>)
    ensures
        line_view(r@) == Seq::<PartView>::empty(),
{
    let v: Vec<DescriptionPart> = Vec::new();
    assert(line_view(v@) =~= Seq::<PartView>::empty());
    v
}

/// The reference name with a word for its kind in front.
fn friendly(name: &String) -> (r: String)
    ensures
        r@ == friendly_name(name@),
{
    CategorizedReferenceName::new(name.as_str()).friendly_describe()
}

/// Describe an event in one or two lines.
pub fn describe_event(event: &Event) -> (r: Vec<Vec<DescriptionPart>>)
    ensures
        lines_view(r@) == describe_event_spec(event@),
{
    let note = "This may be an unsupported use-case; see https://git.io/J0b7z";
    match event {
        Event::CommitEvent { commit_oid, .. } => two_lines(
            line2(plain("Commit "), DescriptionPart::Commit(*commit_oid)),
            empty_line(),
        ),
        Event::HideEvent { commit_oid, .. } => two_lines(
            line2(plain("Hide commit "), DescriptionPart::Commit(*commit_oid)),
            empty_line(),
        ),
        Event::UnhideEvent { commit_oid, .. } => two_lines(
            line2(plain("Unhide commit "), DescriptionPart::Commit(*commit_oid)),
            empty_line(),
        ),
        Event::RewriteEvent { old_commit_oid, new_commit_oid, .. } => {
            let old_zero = old_commit_oid.is_zero();
            let new_zero = new_commit_oid.is_zero();
            if !old_zero && new_zero {
                two_lines(line2(plain("Hide commit "), DescriptionPart::Commit(*old_commit_oid)), empty_line())
            } else if old_zero && !new_zero {
                two_lines(line2(plain("Unhide commit "), DescriptionPart::Commit(*new_commit_oid)), empty_line())
            } else if !old_zero {
                two_lines(
                    line2(plain("Rewrite commit "), DescriptionPart::Commit(*old_commit_oid)),
                    line2(plain("           as "), DescriptionPart::Commit(*new_commit_oid)),
                )
            } else {
                proof {
                    reveal_strlit("This may be an unsupported use-case; see https://git.io/J0b7z");
                }
                two_lines(line1(plain("Empty rewrite event.")), line1(plain(note)))
            }
        },
        Event::RefUpdateEvent { ref_name, old_ref, new_ref, .. } => {
            let is_head = crate::undo::is_head_update_event(event);
            match (old_ref, new_ref) {
                (None, Some(n)) => if is_head {
                    two_lines(line2(plain("Check out to "), DescriptionPart::Location(n.clone())), empty_line())
                } else {
                    two_lines(
                        line4(
                            plain("Create "),
                            DescriptionPart::Plain(friendly(ref_name)),
                            plain(" at "),
                            DescriptionPart::Location(n.clone()),
                        ),
                        empty_line(),
                    )
                },
                (Some(o), Some(n)) => if is_head {
                    two_lines(
                        line2(plain("Check out from "), DescriptionPart::Location(o.clone())),
                        line2(plain("            to "), DescriptionPart::Location(n.clone())),
                    )
                } else {
                    let name = friendly(ref_name);
                    let width = name.as_str().len();
                    two_lines(
                        line4(
                            plain("Move "),
                            DescriptionPart::Plain(name),
                            plain(" from "),
                            DescriptionPart::Location(o.clone()),
                        ),
                        line4(
                            plain("     "),
                            DescriptionPart::Plain(spaces(width)),
                            plain("   to "),
                            DescriptionPart::Location(n.clone()),
                        ),
                    )
                },
                (None, None) => {
                    proof {
                        reveal_strlit("This may be an unsupported use-case; see https://git.io/J0b7z");
                    }
                    two_lines(
                        line2(plain("Empty event for "), DescriptionPart::Plain(ref_name.clone())),
                        line1(plain(note)),
                    )
                },
                (Some(o), None) => two_lines(
                    line4(
                        plain("Delete "),
                        DescriptionPart::Plain(friendly(ref_name)),
                        plain(" at "),
                        DescriptionPart::Location(o.clone()),
                    ),
                    empty_line(),
                ),
            }
        },
    }
}

/// The header of the `n`th description in a numbered list.
pub open spec fn number_header(n: int) -> Seq<char> {
    decimal_text(n) + ". "@
}

/// A described line under a header: the header in front of the first line
/// (`j == 0`), as many spaces in front of the others.
pub open spec fn prefix_line(line: Seq<PartView>, j: int, header: Seq<char>) -> Seq<PartView> {
    seq![PartView::Plain(if j == 0 { header } else { spaces_spec(header.len()) })] + line
}

/// The lines under a header.
pub open spec fn prefixed_lines(lines: Seq<Seq<PartView>>, header: Seq<char>) -> Seq<Seq<PartView>> {
    Seq::new(lines.len(), |j: int| prefix_line(lines[j], j, header))
}

/// The descriptions of the events `evs`, numbered from one.
pub open spec fn numbered_spec(evs: Seq<EventView>) -> Seq<Seq<PartView>>
    decreases evs.len(),
{
    if evs.len() == 0 {
        Seq::empty()
    } else {
        numbered_spec(evs.drop_last()) + prefixed_lines(
            describe_event_spec(evs.last()),
            number_header(evs.len() as int),
        )
    }
}

/// Describe the events, numbered from one: `1. ` in front of the first
/// line of the first event, spaces of the same width in front of its other
/// lines, and so on.
pub fn describe_events_numbered(events: &[Event]) -> (r: Vec<Vec<DescriptionPart>>)
    ensures
        lines_view(r@) == numbered_spec(events_view(events@)),
{
    let ghost evs = events_view(events@);
    let mut lines: Vec<Vec<DescriptionPart>> = Vec::new();
    let mut i: usize = 0;
    assert(evs.take(0) =~= Seq::<EventView>::empty());
    assert(lines_view(lines@) =~= Seq::<Seq<PartView>>::empty());
    while i < events.len()
        invariant
            i <= events@.len(),
            evs == events_view(events@),
            lines_view(lines@) == numbered_spec(evs.take(i as int)),
        decreases events@.len() - i,
    {
        let mut header = u64_to_string((i + 1) as u64);
        header.append(". ");
        assert(header@ == number_header(i + 1));
        let width = str_chars(header.as_str()).len();
        let mut desc = describe_event(&events[i]);
        let ghost d = lines_view(desc@);
        let ghost base = lines_view(lines@);
        let ghost expected = prefixed_lines(d, header@);
        let mut j: usize = 0;
        let n = desc.len();
        assert(d.len() == n);
        assert(expected.take(0) =~= Seq::<Seq<PartView>>::empty());
        assert(base + expected.take(0) =~= base);
        assert(d.skip(0) =~= d);
        while desc.len() > 0
            invariant
                j <= d.len(),
                d.len() == n,
                width == header@.len(),
                expected == prefixed_lines(d, header@),
                lines_view(lines@) == base + expected.take(j as int),
                lines_view(desc@) == d.skip(j as int),
            decreases desc@.len(),
        {
            let ghost desc_before = desc@;
            assert(lines_view(desc_before).len() == desc_before.len());
            assert(j < d.len());
            assert(lines_view(desc_before)[0] == d[j as int]);
            let mut line = desc.remove(0);
            assert(line_view(line@) == d[j as int]);
            assert(lines_view(desc@) =~= lines_view(desc_before).skip(1));
            assert(d.skip(j as int).skip(1) =~= d.skip(j + 1));
            let prefix = if j == 0 {
                header.clone()
            } else {
                spaces(width)
            };
            let mut l: Vec<DescriptionPart> = Vec::new();
            l.push(DescriptionPart::Plain(prefix));
            let ghost l_first = l@;
            let ghost rest = line@;
            l.append(&mut line);
            assert(line_view(l@) =~= line_view(l_first) + line_view(rest));
            assert(line_view(l@) == expected[j as int]);
            let ghost lines_before = lines_view(lines@);
            lines.push(l);
            assert(lines_view(lines@) =~= lines_before.push(line_view(l@)));
            assert(expected.take(j + 1) =~= expected.take(j as int).push(expected[j as int]));
            j = j + 1;
        }
        assert(j == d.len());
        assert(expected.take(j as int) =~= expected);
        assert(evs.take(i + 1).drop_last() =~= evs.take(i as int));
        assert(evs.take(i + 1).last() == events@[i as int]@);
        i = i + 1;
    }
    assert(evs.take(events@.len() as int) =~= evs);
    lines
}

/// The first line of the description of the repository as of a
/// transaction: the transaction, the event before the cursor, how long ago
/// it was (when the caller gives it) and how to move on.
pub open spec fn transaction_header_spec(tx: int, event_id: int, time_ago: Option<Seq<char>>) -> Seq<char> {
    let ago = match time_ago {
        Some(t) => " ("@ + t + " ago)"@,
        None => Seq::empty(),
    };
    "Repo after transaction "@ + decimal_text(tx) + " (event "@ + decimal_text(event_id) + ")"@ + ago
        + ". Press 'h' for help, 'q' to quit."@
}

/// The first line of the description of the repository as of a
/// transaction, such as `Repo after transaction 3 (event 5) (2m ago).
/// Press 'h' for help, 'q' to quit.`
pub fn transaction_header(event_tx_id: EventTransactionId, event_id: isize, time_ago: Option<&str>) -> (r:
    String)
    ensures
        r@ == transaction_header_spec(
            event_tx_id.0 as int,
            event_id as int,
            match time_ago {
                Some(t) => Some(t@),
                None => None,
            },
        ),
{
    let mut r = "Repo after transaction ".to_owned();
    r.append(event_tx_id.to_string().as_str());
    r.append(" (event ");
    r.append(i64_to_string(event_id as i64).as_str());
    r.append(")");
    match time_ago {
        Some(t) => {
            r.append(" (");
            r.append(t);
            r.append(" ago)");
        },
        None => {},
    }
    r.append(". Press 'h' for help, 'q' to quit.");
    r
}

} // verus!
