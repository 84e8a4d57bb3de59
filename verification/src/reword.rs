//! Rewording commits: the message that replaces theirs, the order in which
//! they are rewritten and what moves onto the new versions, and the report
//! of what was reworded.

use vstd::prelude::*;

use crate::execute::{find_last_rewrite, last_rewrite, opt_oid};
use crate::hooks::oid_pairs_view;
use crate::oid::{oid_hex, Oid};
use crate::text::{
    chars_eq, decimal_digits, join, join_spec, push_u64_decimal, str_chars, string_of_chars, trim, trim_spec,
};

verus! {

/// The message that `git2::message_prettify` makes of `message` with the
/// comment character `comment_char`; `None` where it fails.
pub uninterp spec fn prettified_message(message: Seq<char>, comment_char: Option<u8>) -> Option<Seq<char>>;

/// Clean up a commit message with `git2::message_prettify` (libgit2's
/// `git_message_prettify`: white space trimmed, a final newline added,
/// comment lines removed when a comment character is given). The contract
/// only names the result; the cleaning rules are not restated here.
#[verifier::external_body]
fn prettify_message(message: &str, comment_char: Option<u8>) -> (r: Option<String>)
    ensures
        match r {
            Some(s) => prettified_message(message@, comment_char) == Some(s@),
            None => prettified_message(message@, comment_char) is None,
        },
{
    git2::message_prettify(message, comment_char).ok()
}

/// The message given on the command line: the messages joined by blank
/// lines, without leading and trailing white space.
pub open spec fn given_message(messages: Seq<Seq<char>>) -> Seq<char> {
    trim_spec(join_spec(messages, "\n\n"@))
}

/// How rewording starts.
#[derive(Debug, PartialEq, Eq)]
pub enum RewordStart {
    /// Use this message, which was given on the command line.
    Message(String),
    /// No message was given: let the user edit this text first.
    Edit(String),
}

/// The text to edit when no message was given: the message of the commit
/// when there is one commit; otherwise a comment line (its comment
/// character written as a number) that says how many commits get the new
/// message.
pub open spec fn editor_text_spec(commit_messages: Seq<Seq<char>>, comment_char: Option<u8>) -> Seq<char> {
    if commit_messages.len() == 1 {
        commit_messages[0]
    } else {
        decimal_digits(comment_char.unwrap() as nat) + " Enter a commit message to apply to "@ + decimal_digits(
            commit_messages.len(),
        ) + " commits"@
    }
}

/// How rewording commits with the messages `commit_messages` starts: with
/// the message given on the command line, or, if that is empty, with the
/// text of `editor_text_spec` in an editor.
pub fn reword_start(messages: &Vec<String>, commit_messages: &[String], comment_char: Option<u8>) -> (r: RewordStart)
    requires
        commit_messages@.len() != 1 && given_message(messages@.map_values(|t: String| t@)).len() == 0
            ==> comment_char is Some,
    ensures
        ({
            let given = given_message(messages@.map_values(|t: String| t@));
            if given.len() > 0 {
                r matches RewordStart::Message(m) && m@ == given
            } else {
                r matches RewordStart::Edit(t) && t@ == editor_text_spec(
                    commit_messages@.map_values(|t: String| t@),
                    comment_char,
                )
            }
        }),
{
    let joined = join(messages, "\n\n");
    let trimmed = trim(str_chars(joined.as_str()).as_slice());
    if trimmed.len() > 0 {
        return RewordStart::Message(string_of_chars(trimmed.as_slice()));
    }
    if commit_messages.len() == 1 {
        RewordStart::Edit(commit_messages[0].clone())
    } else {
        let mut text = String::new();
        match comment_char {
            Some(c) => push_u64_decimal(&mut text, c as u64),
            None => {},
        }
        text.append(" Enter a commit message to apply to ");
        push_u64_decimal(&mut text, commit_messages.len() as u64);
        text.append(" commits");
        proof {
            assert(commit_messages@.map_values(|t: String| t@).len() == commit_messages@.len());
        }
        RewordStart::Edit(text)
    }
}

/// The outcome of building the new message.
#[derive(Debug, PartialEq, Eq)]
pub enum BuildRewordMessageResult {
    /// The new message of each commit.
    Succeeded { messages: Vec<(Oid, String)> },
    /// The user left the text in the editor as it was.
    IdenticalMessage,
    /// The cleaned-up message is empty.
    EmptyMessage,
}

/// Why a message could not be built.
#[derive(Debug, PartialEq, Eq, Structural)]
pub enum RewordMessageError {
    /// The message could not be cleaned up.
    InvalidMessage,
}

/// The views of the new messages.
pub open spec fn messages_view(v: Seq<(Oid, String)>) -> Seq<(Seq<u8>, Seq<char>)> {
    v.map_values(|p: (Oid, String)| (p.0@, p.1@))
}

/// The outcome for the cleaned-up message `pretty` (`None` where it could
/// not be cleaned up): an error without one; the empty-message outcome if
/// it holds only white space; otherwise the message for every commit.
pub open spec fn prettified_outcome(pretty: Option<Seq<char>>, commit_oids: Seq<Oid>) -> Option<
    Option<Seq<(Seq<u8>, Seq<char>)>>,
> {
    match pretty {
        None => None,
        Some(p) => if trim_spec(p).len() == 0 {
            Some(None)
        } else {
            Some(Some(commit_oids.map_values(|o: Oid| (o@, p))))
        },
    }
}

/// The new messages from the cleaned-up message `pretty` (see
/// `prettified_outcome`; `None` stands for an error, `Some(None)` for the
/// empty-message outcome).
pub fn messages_from_prettified(pretty: Option<String>, commit_oids: &[Oid]) -> (r: Result<
    BuildRewordMessageResult,
    RewordMessageError,
>)
    ensures
        match prettified_outcome(
            match pretty {
                Some(p) => Some(p@),
                None => None,
            },
            commit_oids@,
        ) {
            None => r == Err::<BuildRewordMessageResult, RewordMessageError>(RewordMessageError::InvalidMessage),
            Some(None) => r == Ok::<BuildRewordMessageResult, RewordMessageError>(
                BuildRewordMessageResult::EmptyMessage,
            ),
            Some(Some(ms)) => r matches Ok(BuildRewordMessageResult::Succeeded { messages }) && messages_view(
                messages@,
            ) == ms,
        },
{
    let pretty = match pretty {
        Some(p) => p,
        None => return Err(RewordMessageError::InvalidMessage),
    };
    let trimmed = trim(str_chars(pretty.as_str()).as_slice());
    if trimmed.len() == 0 {
        return Ok(BuildRewordMessageResult::EmptyMessage);
    }
    let mut messages: Vec<(Oid, String)> = Vec::new();
    let mut i: usize = 0;
    while i < commit_oids.len()
        invariant
            i <= commit_oids@.len(),
            messages_view(messages@) == commit_oids@.take(i as int).map_values(|o: Oid| (o@, pretty@)),
        decreases commit_oids@.len() - i,
    {
        let ghost m0 = messages@;
        let copy = pretty.clone();
        assert(copy@ == pretty@);
        messages.push((commit_oids[i], copy));
        assert(messages_view(messages@) =~= messages_view(m0).push((commit_oids@[i as int]@, pretty@)));
        assert(commit_oids@.take(i + 1).map_values(|o: Oid| (o@, pretty@)) =~= commit_oids@.take(i as int).map_values(
            |o: Oid| (o@, pretty@),
        ).push((commit_oids@[i as int]@, pretty@)));
        i = i + 1;
    }
    assert(commit_oids@.take(i as int) =~= commit_oids@);
    Ok(BuildRewordMessageResult::Succeeded { messages })
}

/// The new message of every commit, from `message` (given on the command
/// line, or the text after editing `shown_in_editor`): nothing changes if
/// the text was left as it was in the editor; otherwise the message is
/// cleaned up (`prettified_message`), and what follows is
/// `messages_from_prettified`.
pub fn build_messages(message: &str, shown_in_editor: Option<&str>, commit_oids: &[Oid], comment_char: Option<u8>) -> (r:
    Result<BuildRewordMessageResult, RewordMessageError>)
    ensures
        match shown_in_editor {
            Some(shown) if shown@ == message@ => r == Ok::<BuildRewordMessageResult, RewordMessageError>(
                BuildRewordMessageResult::IdenticalMessage,
            ),
            _ => match prettified_outcome(prettified_message(message@, comment_char), commit_oids@) {
                None => r == Err::<BuildRewordMessageResult, RewordMessageError>(RewordMessageError::InvalidMessage),
                Some(None) => r == Ok::<BuildRewordMessageResult, RewordMessageError>(
                    BuildRewordMessageResult::EmptyMessage,
                ),
                Some(Some(ms)) => r matches Ok(BuildRewordMessageResult::Succeeded { messages }) && messages_view(
                    messages@,
                ) == ms,
            },
        },
{
    let mc = str_chars(message);
    if let Some(shown) = shown_in_editor {
        let sc = str_chars(shown);
        if chars_eq(sc.as_slice(), mc.as_slice()) {
            return Ok(BuildRewordMessageResult::IdenticalMessage);
        }
    }
    messages_from_prettified(prettify_message(message, comment_char), commit_oids)
}

/// The line that reports a reworded commit.
pub fn reworded_line(old_description: &str, new_description: &str) -> (r: String)
    ensures
        r@ == "Reworded commit "@ + old_description@ + " as "@ + new_description@,
{
    let mut r = "Reworded commit ".to_owned();
    r.append(old_description);
    r.append(" as ");
    r.append(new_description);
    r
}

/// The closing line of the report, when other than one commit was
/// reworded.
pub fn reword_summary(num_commits: usize) -> (r: Option<String>)
    ensures
        num_commits == 1 ==> r is None,
        num_commits != 1 ==> (r matches Some(t) && t@ == "Reworded "@ + decimal_digits(num_commits as nat)
            + " commits with same message. If this was unintentional, run: git undo"@),
{
    if num_commits == 1 {
        return None;
    }
    let mut r = "Reworded ".to_owned();
    push_u64_decimal(&mut r, num_commits as u64);
    r.append(" commits with same message. If this was unintentional, run: git undo");
    Some(r)
}

/// The parents of a commit once the commits before it were reworded: each
/// parent replaced by its newest version in `rewritten`, if it has one.
pub open spec fn reworded_parents_spec(parents: Seq<Seq<u8>>, rewritten: Seq<(Seq<u8>, Seq<u8>)>) -> Seq<Seq<u8>> {
    parents.map_values(
        |p: Seq<u8>|
            match last_rewrite(rewritten, p) {
                Some(n) => n,
                None => p,
            },
    )
}

/// The parents of a commit once the commits in `rewritten` were reworded.
pub fn reworded_parents(parents: &Vec<Oid>, rewritten: &Vec<(Oid, Oid)>) -> (r: Vec<Oid>)
    ensures
        r@.map_values(|o: Oid| o@) == reworded_parents_spec(
            parents@.map_values(|o: Oid| o@),
            oid_pairs_view(rewritten@),
        ),
{
    let ghost pv = parents@.map_values(|o: Oid| o@);
    let ghost rw = oid_pairs_view(rewritten@);
    let mut r: Vec<Oid> = Vec::new();
    let mut i: usize = 0;
    while i < parents.len()
        invariant
            i <= parents@.len(),
            pv == parents@.map_values(|o: Oid| o@),
            rw == oid_pairs_view(rewritten@),
            r@.map_values(|o: Oid| o@) == reworded_parents_spec(pv, rw).take(i as int),
        decreases parents@.len() - i,
    {
        let p = parents[i];
        let n = match find_last_rewrite(rewritten.as_slice(), &p) {
            Some(n) => n,
            None => p,
        };
        let ghost before = r@.map_values(|o: Oid| o@);
        r.push(n);
        assert(r@.map_values(|o: Oid| o@) =~= before.push(n@));
        assert(reworded_parents_spec(pv, rw).take(i + 1) =~= reworded_parents_spec(pv, rw).take(i as int).push(
            n@,
        ));
        i = i + 1;
    }
    assert(reworded_parents_spec(pv, rw).take(parents@.len() as int) =~= reworded_parents_spec(pv, rw));
    r
}

/// Whether `oid` was reworded: some entry of `rewritten` rewrote it.
pub open spec fn was_reworded(rewritten: Seq<(Seq<u8>, Seq<u8>)>, oid: Seq<u8>) -> bool {
    exists|k: int| 0 <= k < rewritten.len() && (#[trigger] rewritten[k]).0 == oid
}

/// The moves that put the commits on top of reworded commits back on top of
/// their new versions: for each rewrite `(old, new)` in order, each child
/// of `old` (among `kids` at the same position) that was not reworded
/// itself goes onto `new`.
pub open spec fn reword_moves_spec(
    rewritten: Seq<(Seq<u8>, Seq<u8>)>,
    kids: Seq<Vec<Oid>>,
    n: int,
) -> Seq<(Seq<u8>, Seq<u8>)>
    decreases n,
{
    if n <= 0 || n > rewritten.len() {
        Seq::empty()
    } else {
        let new = rewritten[n - 1].1;
        reword_moves_spec(rewritten, kids, n - 1) + kids[n - 1]@.map_values(|o: Oid| o@).filter(
            |c: Seq<u8>| !was_reworded(rewritten, c),
        ).map_values(|c: Seq<u8>| (c, new))
    }
}

/// Whether some entry of `rewritten` rewrote `oid`.
fn reworded(rewritten: &Vec<(Oid, Oid)>, oid: Oid) -> (r: bool)
    ensures
        r == was_reworded(oid_pairs_view(rewritten@), oid@),
{
    let ghost rw = oid_pairs_view(rewritten@);
    let mut k: usize = 0;
    while k < rewritten.len()
        invariant
            k <= rewritten@.len(),
            rw == oid_pairs_view(rewritten@),
            forall|j: int| 0 <= j < k ==> rw[j].0 != oid@,
        decreases rewritten@.len() - k,
    {
        assert(rw[k as int] == (rewritten@[k as int].0@, rewritten@[k as int].1@));
        if rewritten[k].0 == oid {
            assert(rw[k as int].0 == oid@);
            return true;
        }
        k = k + 1;
    }
    false
}

/// The moves after a reword (see `reword_moves_spec`): pairs of a commit to
/// move and the commit to move it onto. `kids[i]` holds the children of the
/// commit that `rewritten[i]` rewrote.
pub fn reword_moves(rewritten: &Vec<(Oid, Oid)>, kids: &Vec<Vec<Oid>>) -> (r: Vec<(Oid, Oid)>)
    requires
        kids@.len() == rewritten@.len(),
    ensures
        oid_pairs_view(r@) == reword_moves_spec(oid_pairs_view(rewritten@), kids@, rewritten@.len() as int),
{
    let ghost rw = oid_pairs_view(rewritten@);
    let mut r: Vec<(Oid, Oid)> = Vec::new();
    let mut i: usize = 0;
    assert(oid_pairs_view(r@) =~= Seq::<(Seq<u8>, Seq<u8>)>::empty());
    while i < rewritten.len()
        invariant
            i <= rewritten@.len(),
            kids@.len() == rewritten@.len(),
            rw == oid_pairs_view(rewritten@),
            oid_pairs_view(r@) == reword_moves_spec(rw, kids@, i as int),
        decreases rewritten@.len() - i,
    {
        let new = rewritten[i].1;
        assert(rw[i as int].1 == new@);
        let cs = &kids[i];
        let ghost cv = cs@.map_values(|o: Oid| o@);
        let ghost keep = |c: Seq<u8>| !was_reworded(rw, c);
        let ghost base = oid_pairs_view(r@);
        let mut j: usize = 0;
        assert(cv.take(0).filter(keep) =~= Seq::<Seq<u8>>::empty());
        assert(base + cv.take(0).filter(keep).map_values(|c: Seq<u8>| (c, new@)) =~= base);
        while j < cs.len()
            invariant
                j <= cs@.len(),
                cv == cs@.map_values(|o: Oid| o@),
                rw == oid_pairs_view(rewritten@),
                keep == (|c: Seq<u8>| !was_reworded(rw, c)),
                oid_pairs_view(r@) == base + cv.take(j as int).filter(keep).map_values(|c: Seq<u8>| (c, new@)),
            decreases cs@.len() - j,
        {
            let c = cs[j];
            proof {
                reveal(Seq::filter);
            }
            assert(cv.take(j + 1).drop_last() =~= cv.take(j as int));
            assert(cv.take(j + 1).last() == c@);
            let ghost prev = oid_pairs_view(r@);
            if !reworded(rewritten, c) {
                r.push((c, new));
                assert(oid_pairs_view(r@) =~= prev.push((c@, new@)));
                assert(cv.take(j + 1).filter(keep) == cv.take(j as int).filter(keep).push(c@));
                assert(cv.take(j + 1).filter(keep).map_values(|c: Seq<u8>| (c, new@)) =~= cv.take(j as int).filter(
                    keep,
                ).map_values(|c: Seq<u8>| (c, new@)).push((c@, new@)));
            } else {
                assert(cv.take(j + 1).filter(keep) == cv.take(j as int).filter(keep));
            }
            j = j + 1;
        }
        assert(cv.take(cs@.len() as int) =~= cv);
        assert(kids@[i as int]@.map_values(|o: Oid| o@) == cv);
        i = i + 1;
    }
    r
}

/// Whether the commit is a root of the reworded commits (none of its
/// parents is reworded) without exactly one parent: such a commit cannot be
/// put back in place.
pub open spec fn refuses_reword(parents: Seq<Seq<u8>>, reworded: Seq<Seq<u8>>) -> bool {
    &&& forall|k: int| 0 <= k < parents.len() ==> !reworded.contains(#[trigger] parents[k])
    &&& parents.len() != 1
}

/// The refusal to reword a commit that is a root of the reworded commits
/// `reworded` and does not have exactly one parent; `None` for any other
/// commit.
pub fn reword_refusal(commit_oid: Oid, parents: &Vec<Oid>, reworded: &Vec<Oid>) -> (r: Option<String>)
    ensures
        !refuses_reword(parents@.map_values(|o: Oid| o@), reworded@.map_values(|o: Oid| o@)) ==> r is None,
        refuses_reword(parents@.map_values(|o: Oid| o@), reworded@.map_values(|o: Oid| o@)) ==> (r matches Some(t)
            && t@ == "Refusing to reword commit "@ + oid_hex(commit_oid@) + ", which has "@ + decimal_digits(
            parents@.len() as nat,
        ) + " parents.\n"@ + "Rewording is only supported for commits with 1 parent.\n"@ + "Aborting."@),
{
    let ghost pv = parents@.map_values(|o: Oid| o@);
    let ghost rv = reworded@.map_values(|o: Oid| o@);
    let mut k: usize = 0;
    while k < parents.len()
        invariant
            k <= parents@.len(),
            pv == parents@.map_values(|o: Oid| o@),
            rv == reworded@.map_values(|o: Oid| o@),
            forall|j: int| 0 <= j < k ==> !rv.contains(#[trigger] pv[j]),
        decreases parents@.len() - k,
    {
        if holds(reworded, parents[k]) {
            assert(rv.contains(pv[k as int]));
            return None;
        }
        k = k + 1;
    }
    if parents.len() == 1 {
        return None;
    }
    let mut t = "Refusing to reword commit ".to_owned();
    t.append(commit_oid.to_hex().as_str());
    t.append(", which has ");
    push_u64_decimal(&mut t, parents.len() as u64);
    t.append(" parents.\n");
    t.append("Rewording is only supported for commits with 1 parent.\n");
    t.append("Aborting.");
    Some(t)
}

/// Whether `oid` is among `v`.
fn holds(v: &Vec<Oid>, oid: Oid) -> (r: bool)
    ensures
        r == v@.map_values(|o: Oid| o@).contains(oid@),
{
    let ghost vv = v@.map_values(|o: Oid| o@);
    let mut j: usize = 0;
    while j < v.len()
        invariant
            j <= v@.len(),
            vv == v@.map_values(|o: Oid| o@),
            forall|i: int| 0 <= i < j ==> vv[i] != oid@,
        decreases v@.len() - j,
    {
        if v[j] == oid {
            assert(vv[j as int] == oid@);
            return true;
        }
        j = j + 1;
    }
    false
}

/// How many of `oids` the commit `x` descends from, by `ancestry` (pairs of
/// a commit and one of its ancestors).
pub open spec fn ancestor_count(ancestry: Seq<(Seq<u8>, Seq<u8>)>, oids: Seq<Seq<u8>>, x: Seq<u8>) -> nat
    decreases oids.len(),
{
    if oids.len() == 0 {
        0
    } else {
        ancestor_count(ancestry, oids.drop_last(), x) + if ancestry.contains((x, oids.last())) {
            1nat
        } else {
            0nat
        }
    }
}

/// The commits `s` (ordered by ancestor count) with `x` inserted after every
/// commit with no more ancestors among `oids`.
pub open spec fn insert_by_ancestors(
    ancestry: Seq<(Seq<u8>, Seq<u8>)>,
    oids: Seq<Seq<u8>>,
    s: Seq<Seq<u8>>,
    x: Seq<u8>,
) -> Seq<Seq<u8>>
    decreases s.len(),
{
    if s.len() == 0 {
        seq![x]
    } else if ancestor_count(ancestry, oids, s.last()) <= ancestor_count(ancestry, oids, x) {
        s.push(x)
    } else {
        insert_by_ancestors(ancestry, oids, s.drop_last(), x).push(s.last())
    }
}

/// The commits `s` ordered by how many of `oids` each descends from, fewest
/// first, keeping their order otherwise: parents before children.
pub open spec fn parents_first_spec(
    ancestry: Seq<(Seq<u8>, Seq<u8>)>,
    oids: Seq<Seq<u8>>,
    s: Seq<Seq<u8>>,
) -> Seq<Seq<u8>>
    decreases s.len(),
{
    if s.len() == 0 {
        Seq::empty()
    } else {
        insert_by_ancestors(ancestry, oids, parents_first_spec(ancestry, oids, s.drop_last()), s.last())
    }
}

/// How many of `oids` the commit `x` descends from.
fn count_ancestors(ancestry: &[(Oid, Oid)], oids: &Vec<Oid>, x: Oid) -> (r: usize)
    ensures
        r == ancestor_count(oid_pairs_view(ancestry@), oids@.map_values(|o: Oid| o@), x@),
{
    let ghost av = oid_pairs_view(ancestry@);
    let ghost ov = oids@.map_values(|o: Oid| o@);
    let mut n: usize = 0;
    let mut i: usize = 0;
    assert(ov.take(0) =~= Seq::<Seq<u8>>::empty());
    while i < oids.len()
        invariant
            i <= oids@.len(),
            av == oid_pairs_view(ancestry@),
            ov == oids@.map_values(|o: Oid| o@),
            n == ancestor_count(av, ov.take(i as int), x@),
            n <= i,
        decreases oids@.len() - i,
    {
        assert(ov.take(i + 1).drop_last() =~= ov.take(i as int));
        assert(ov.take(i + 1).last() == oids@[i as int]@);
        if holds_pair(ancestry, x, oids[i]) {
            n = n + 1;
        }
        i = i + 1;
    }
    assert(ov.take(oids@.len() as int) =~= ov);
    n
}

/// Whether `ancestry` holds the pair `(a, b)`.
fn holds_pair(ancestry: &[(Oid, Oid)], a: Oid, b: Oid) -> (r: bool)
    ensures
        r == oid_pairs_view(ancestry@).contains((a@, b@)),
{
    let ghost pv = oid_pairs_view(ancestry@);
    let mut i: usize = 0;
    while i < ancestry.len()
        invariant
            i <= ancestry@.len(),
            pv == oid_pairs_view(ancestry@),
            forall|k: int| 0 <= k < i ==> pv[k] != (a@, b@),
        decreases ancestry@.len() - i,
    {
        let (x, y) = ancestry[i];
        assert(pv[i as int] == (x@, y@));
        if x == a && y == b {
            return true;
        }
        i = i + 1;
    }
    false
}

/// The commits `oids` in an order that puts each after those of them it
/// descends from (see `parents_first_spec`); `ancestry` holds pairs of a
/// commit and one of its ancestors.
pub fn parents_first(oids: &Vec<Oid>, ancestry: &[(Oid, Oid)]) -> (r: Vec<Oid>)
    ensures
        r@.map_values(|o: Oid| o@) == parents_first_spec(
            oid_pairs_view(ancestry@),
            oids@.map_values(|o: Oid| o@),
            oids@.map_values(|o: Oid| o@),
        ),
{
    let ghost av = oid_pairs_view(ancestry@);
    let ghost ov = oids@.map_values(|o: Oid| o@);
    let mut sorted: Vec<Oid> = Vec::new();
    let mut counts: Vec<usize> = Vec::new();
    let mut i: usize = 0;
    assert(ov.take(0) =~= Seq::<Seq<u8>>::empty());
    assert(sorted@.map_values(|o: Oid| o@) =~= Seq::<Seq<u8>>::empty());
    while i < oids.len()
        invariant
            i <= oids@.len(),
            av == oid_pairs_view(ancestry@),
            ov == oids@.map_values(|o: Oid| o@),
            sorted@.len() == counts@.len(),
            sorted@.map_values(|o: Oid| o@) == parents_first_spec(av, ov, ov.take(i as int)),
            forall|k: int| 0 <= k < counts@.len() ==> #[trigger] counts@[k] == ancestor_count(av, ov, sorted@[k]@),
        decreases oids@.len() - i,
    {
        let x = oids[i];
        assert(ov.take(i + 1).drop_last() =~= ov.take(i as int));
        assert(ov.take(i + 1).last() == x@);
        let cx = count_ancestors(ancestry, oids, x);
        let ghost sv = sorted@.map_values(|o: Oid| o@);
        let mut j: usize = sorted.len();
        assert(sv.take(j as int) =~= sv);
        assert(sv.skip(j as int) =~= Seq::<Seq<u8>>::empty());
        while j > 0
            invariant
                j <= sorted@.len(),
                sorted@.len() == counts@.len(),
                sv == sorted@.map_values(|o: Oid| o@),
                cx == ancestor_count(av, ov, x@),
                forall|k: int| 0 <= k < counts@.len() ==> #[trigger] counts@[k] == ancestor_count(av, ov, sorted@[k]@),
                insert_by_ancestors(av, ov, sv, x@) == insert_by_ancestors(av, ov, sv.take(j as int), x@) + sv.skip(
                    j as int,
                ),
            ensures
                j <= sorted@.len(),
                insert_by_ancestors(av, ov, sv, x@) == insert_by_ancestors(av, ov, sv.take(j as int), x@) + sv.skip(
                    j as int,
                ),
                j > 0 ==> ancestor_count(av, ov, sv[j - 1]) <= cx,
            decreases j,
        {
            assert(counts@[j - 1] == ancestor_count(av, ov, sorted@[j - 1]@));
            assert(sv.take(j as int).last() == sorted@[j - 1]@);
            if counts[j - 1] <= cx {
                break;
            }
            assert(sv.take(j as int).drop_last() =~= sv.take(j - 1));
            assert(insert_by_ancestors(av, ov, sv.take(j - 1), x@).push(sv[j - 1]) + sv.skip(j as int) =~= insert_by_ancestors(
                av,
                ov,
                sv.take(j - 1),
                x@,
            ) + sv.skip(j - 1));
            j = j - 1;
        }
        proof {
            if j > 0 {
                assert(insert_by_ancestors(av, ov, sv.take(j as int), x@) == sv.take(j as int).push(x@));
            } else {
                assert(sv.take(0) =~= Seq::<Seq<u8>>::empty());
                assert(insert_by_ancestors(av, ov, sv.take(0), x@) == seq![x@]);
            }
        }
        let ghost old_sorted = sorted@;
        let ghost old_counts = counts@;
        sorted.insert(j, x);
        counts.insert(j, cx);
        assert(sorted@.map_values(|o: Oid| o@) =~= sv.take(j as int).push(x@) + sv.skip(j as int));
        assert forall|k: int| 0 <= k < counts@.len() implies #[trigger] counts@[k] == ancestor_count(
            av,
            ov,
            sorted@[k]@,
        ) by {
            if k < j {
                assert(counts@[k] == old_counts[k] && sorted@[k] == old_sorted[k]);
            } else if k > j {
                assert(counts@[k] == old_counts[k - 1] && sorted@[k] == old_sorted[k - 1]);
            }
        }
        i = i + 1;
    }
    assert(ov.take(oids@.len() as int) =~= ov);
    sorted
}

/// Whether `s` is ordered by how many of `oids` each commit descends from.
pub open spec fn by_ancestor_count(ancestry: Seq<(Seq<u8>, Seq<u8>)>, oids: Seq<Seq<u8>>, s: Seq<Seq<u8>>) -> bool {
    forall|i: int, j: int|
        0 <= i < j < s.len() ==> ancestor_count(ancestry, oids, #[trigger] s[i]) <= ancestor_count(
            ancestry,
            oids,
            #[trigger] s[j],
        )
}

/// Inserting into an ordered sequence keeps it ordered, and adds only the
/// commit inserted.
proof fn lemma_insert_by_ancestors(
    ancestry: Seq<(Seq<u8>, Seq<u8>)>,
    oids: Seq<Seq<u8>>,
    s: Seq<Seq<u8>>,
    x: Seq<u8>,
)
    requires
        by_ancestor_count(ancestry, oids, s),
    ensures
        by_ancestor_count(ancestry, oids, insert_by_ancestors(ancestry, oids, s, x)),
        forall|y: Seq<u8>| #[trigger] insert_by_ancestors(ancestry, oids, s, x).contains(y) ==> y == x || s.contains(y),
    decreases s.len(),
{
    let r = insert_by_ancestors(ancestry, oids, s, x);
    if s.len() == 0 {
        assert forall|y: Seq<u8>| #[trigger] r.contains(y) implies y == x || s.contains(y) by {
            assert(r[0] == x);
        }
    } else if ancestor_count(ancestry, oids, s.last()) <= ancestor_count(ancestry, oids, x) {
        assert forall|i: int, j: int| 0 <= i < j < r.len() implies ancestor_count(ancestry, oids, #[trigger] r[i])
            <= ancestor_count(ancestry, oids, #[trigger] r[j]) by {
            if j == s.len() {
                if i < s.len() - 1 {
                    assert(ancestor_count(ancestry, oids, s[i]) <= ancestor_count(ancestry, oids, s[s.len() - 1]));
                }
            } else {
                assert(r[i] == s[i] && r[j] == s[j]);
            }
        }
        assert forall|y: Seq<u8>| #[trigger] r.contains(y) implies y == x || s.contains(y) by {
            let k = choose|k: int| 0 <= k < r.len() && r[k] == y;
            if k < s.len() {
                assert(s[k] == y);
            }
        }
    } else {
        let t = s.drop_last();
        assert(by_ancestor_count(ancestry, oids, t)) by {
            assert forall|i: int, j: int| 0 <= i < j < t.len() implies ancestor_count(ancestry, oids, #[trigger] t[i])
                <= ancestor_count(ancestry, oids, #[trigger] t[j]) by {
                assert(t[i] == s[i] && t[j] == s[j]);
            }
        }
        lemma_insert_by_ancestors(ancestry, oids, t, x);
        let q = insert_by_ancestors(ancestry, oids, t, x);
        assert(r == q.push(s.last()));
        assert forall|k: int| 0 <= k < q.len() implies ancestor_count(ancestry, oids, #[trigger] q[k])
            <= ancestor_count(ancestry, oids, s.last()) by {
            assert(q.contains(q[k]));
            if q[k] != x {
                let m = choose|m: int| 0 <= m < t.len() && t[m] == q[k];
                assert(s[m] == q[k]);
                assert(ancestor_count(ancestry, oids, s[m]) <= ancestor_count(ancestry, oids, s[s.len() - 1]));
            }
        }
        assert forall|i: int, j: int| 0 <= i < j < r.len() implies ancestor_count(ancestry, oids, #[trigger] r[i])
            <= ancestor_count(ancestry, oids, #[trigger] r[j]) by {
            if j == q.len() {
                assert(r[i] == q[i]);
            } else {
                assert(r[i] == q[i] && r[j] == q[j]);
            }
        }
        assert forall|y: Seq<u8>| #[trigger] r.contains(y) implies y == x || s.contains(y) by {
            let k = choose|k: int| 0 <= k < r.len() && r[k] == y;
            if k < q.len() {
                assert(q[k] == y);
                assert(q.contains(y));
                if y != x {
                    let m = choose|m: int| 0 <= m < t.len() && t[m] == y;
                    assert(s[m] == y);
                }
            } else {
                assert(s[s.len() - 1] == y);
            }
        }
    }
}

/// The order of `parents_first_spec` is by ancestor count, and holds only
/// commits of `s`.
proof fn lemma_parents_first_ordered(ancestry: Seq<(Seq<u8>, Seq<u8>)>, oids: Seq<Seq<u8>>, s: Seq<Seq<u8>>)
    ensures
        by_ancestor_count(ancestry, oids, parents_first_spec(ancestry, oids, s)),
        forall|y: Seq<u8>| #[trigger] parents_first_spec(ancestry, oids, s).contains(y) ==> s.contains(y),
    decreases s.len(),
{
    if s.len() > 0 {
        let t = s.drop_last();
        lemma_parents_first_ordered(ancestry, oids, t);
        let q = parents_first_spec(ancestry, oids, t);
        lemma_insert_by_ancestors(ancestry, oids, q, s.last());
        assert forall|y: Seq<u8>| #[trigger] parents_first_spec(ancestry, oids, s).contains(y) implies s.contains(y) by {
            if y == s.last() {
                assert(s[s.len() - 1] == y);
            } else {
                assert(q.contains(y));
                let m = choose|m: int| 0 <= m < t.len() && t[m] == y;
                assert(s[m] == y);
            }
        }
    }
}

/// A commit descends from at least one more of `oids` than each of them
/// that it descends from, where descent is transitive and never relates a
/// commit to itself.
proof fn lemma_more_ancestors(ancestry: Seq<(Seq<u8>, Seq<u8>)>, oids: Seq<Seq<u8>>, a: Seq<u8>, b: Seq<u8>)
    requires
        forall|x: Seq<u8>, y: Seq<u8>, z: Seq<u8>|
            #[trigger] ancestry.contains((x, y)) && #[trigger] ancestry.contains((y, z)) ==> ancestry.contains((x, z)),
        forall|x: Seq<u8>| !#[trigger] ancestry.contains((x, x)),
        ancestry.contains((a, b)),
    ensures
        ancestor_count(ancestry, oids, b) <= ancestor_count(ancestry, oids, a),
        oids.contains(b) ==> ancestor_count(ancestry, oids, b) < ancestor_count(ancestry, oids, a),
    decreases oids.len(),
{
    if oids.len() > 0 {
        let t = oids.drop_last();
        lemma_more_ancestors(ancestry, t, a, b);
        let y = oids.last();
        if ancestry.contains((b, y)) {
            assert(ancestry.contains((a, y)));
        }
        if y == b {
            assert(!ancestry.contains((b, b)));
        }
        if oids.contains(b) && y != b {
            let m = choose|m: int| 0 <= m < oids.len() && oids[m] == b;
            assert(t[m] == b);
        }
    }
}

/// Rewording goes parents first: in the order that `parents_first` gives,
/// no commit comes before one that it descends from (for an ancestry that
/// is transitive and never relates a commit to itself, as descent is).
pub proof fn lemma_parents_before_children(ancestry: Seq<(Seq<u8>, Seq<u8>)>, oids: Seq<Seq<u8>>)
    requires
        forall|x: Seq<u8>, y: Seq<u8>, z: Seq<u8>|
            #[trigger] ancestry.contains((x, y)) && #[trigger] ancestry.contains((y, z)) ==> ancestry.contains((x, z)),
        forall|x: Seq<u8>| !#[trigger] ancestry.contains((x, x)),
    ensures
        forall|i: int, j: int|
            0 <= i < j < parents_first_spec(ancestry, oids, oids).len() ==> !ancestry.contains(
                (#[trigger] parents_first_spec(ancestry, oids, oids)[i], #[trigger] parents_first_spec(
                    ancestry,
                    oids,
                    oids,
                )[j]),
            ),
{
    let r = parents_first_spec(ancestry, oids, oids);
    lemma_parents_first_ordered(ancestry, oids, oids);
    assert forall|i: int, j: int| 0 <= i < j < r.len() implies !ancestry.contains((#[trigger] r[i], #[trigger] r[j])) by {
        if ancestry.contains((r[i], r[j])) {
            assert(r.contains(r[j]));
            lemma_more_ancestors(ancestry, oids, r[i], r[j]);
        }
    }
}

} // verus!
