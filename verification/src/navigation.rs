//! Moving through a stack of commits: which way to go, how far, and which
//! commit to pick when a commit has several children (or parents).

use vstd::prelude::*;

use crate::formatting::{pluralize_text, Pluralize};
use crate::oid::Oid;

verus! {

/// The command being invoked, indicating which direction to traverse commits.
#[derive(Clone, Copy, Debug, PartialEq, Eq, Structural)]
pub enum Command {
    /// Traverse child commits.
    Next,
    /// Traverse parent commits.
    Prev,
}

/// The number of commits to traverse.
#[derive(Clone, Copy, Debug, PartialEq, Eq, Structural)]
pub enum Distance {
    /// Traverse this number of commits.
    NumCommits(usize),
    /// Traverse as many commits as possible.
    AllTheWay,
}

/// Some commits have multiple children, which makes `next` ambiguous. These
/// values disambiguate which child commit to go to, according to the committed
/// date.
#[derive(Clone, Copy, Debug, PartialEq, Eq, Structural)]
pub enum Towards {
    /// When encountering multiple children, select the newest one.
    Newest,
    /// When encountering multiple children, select the oldest one.
    Oldest,
    /// When encountering multiple children, interactively prompt for
    /// which one to advance to.
    Interactive,
}

/// Options of a traversal that contradict each other.
#[derive(Clone, Copy, Debug, PartialEq, Eq, Structural)]
pub enum NavigationError {
    /// A number of commits and `--all` were both given.
    NumCommitsAndAll,
    /// More than one of `--oldest`, `--newest` and `--interactive` was given.
    ConflictingTowards,
    /// More commits were traversed than an `isize` counts.
    CountOutOfRange,
}

/// How far to go: one commit by default, the given number, or all the way
/// with `--all`; an error if both a number and `--all` are given.
pub fn distance_from_options(all_the_way: bool, num_commits: Option<usize>) -> (r: Result<Distance, NavigationError>)
    ensures
        match (all_the_way, num_commits) {
            (false, None) => r == Ok::<Distance, NavigationError>(Distance::NumCommits(1)),
            (false, Some(n)) => r == Ok::<Distance, NavigationError>(Distance::NumCommits(n)),
            (true, None) => r == Ok::<Distance, NavigationError>(Distance::AllTheWay),
            (true, Some(_)) => r == Err::<Distance, NavigationError>(NavigationError::NumCommitsAndAll),
        },
{
    match (all_the_way, num_commits) {
        (false, None) => Ok(Distance::NumCommits(1)),
        (false, Some(n)) => Ok(Distance::NumCommits(n)),
        (true, None) => Ok(Distance::AllTheWay),
        (true, Some(_)) => Err(NavigationError::NumCommitsAndAll),
    }
}

/// Which child to pick among several: as given by at most one of the
/// flags, or not decided (`None`); an error if more than one flag is given.
pub fn towards_from_options(oldest: bool, newest: bool, interactive: bool) -> (r: Result<
    Option<Towards>,
    NavigationError,
>)
    ensures
        match (oldest, newest, interactive) {
            (false, false, false) => r == Ok::<Option<Towards>, NavigationError>(None),
            (true, false, false) => r == Ok::<Option<Towards>, NavigationError>(Some(Towards::Oldest)),
            (false, true, false) => r == Ok::<Option<Towards>, NavigationError>(Some(Towards::Newest)),
            (false, false, true) => r == Ok::<Option<Towards>, NavigationError>(Some(Towards::Interactive)),
            _ => r == Err::<Option<Towards>, NavigationError>(NavigationError::ConflictingTowards),
        },
{
    match (oldest, newest, interactive) {
        (false, false, false) => Ok(None),
        (true, false, false) => Ok(Some(Towards::Oldest)),
        (false, true, false) => Ok(Some(Towards::Newest)),
        (false, false, true) => Ok(Some(Towards::Interactive)),
        _ => Err(NavigationError::ConflictingTowards),
    }
}

/// The choice among several children when none was given: interactive if
/// the user's configuration asks for it, else undecided.
pub fn resolve_towards(towards: Option<Towards>, next_interactive: bool) -> (r: Option<Towards>)
    ensures
        r == match towards {
            Some(t) => Some(t),
            None => if next_interactive {
                Some(Towards::Interactive)
            } else {
                None
            },
        },
{
    match towards {
        Some(t) => Some(t),
        None => if next_interactive {
            Some(Towards::Interactive)
        } else {
            None
        },
    }
}

/// What to do at one step of a traversal.
#[derive(Debug, PartialEq, Eq)]
pub enum AdvanceStep {
    /// The traversal is over: go to the current commit.
    Done,
    /// There is no commit to go to: print the message, then stop; the
    /// traversal failed if no commit was traversed yet.
    NoMoreCommits { message: String, failed: bool },
    /// Move on to this commit.
    MoveTo(Oid),
    /// Let the user pick one of the candidates, under this header.
    Prompt { header: String },
    /// The choice is ambiguous: print the header and the candidates, and
    /// fail.
    Ambiguous { header: String },
}

/// The word for one commit in the direction of travel.
pub open spec fn direction_singular(command: Command) -> Seq<char> {
    match command {
        Command::Next => "child"@,
        Command::Prev => "parent"@,
    }
}

/// The word for several commits in the direction of travel.
pub open spec fn direction_plural(command: Command) -> Seq<char> {
    match command {
        Command::Next => "children"@,
        Command::Prev => "parents"@,
    }
}

/// The header above a choice among several commits.
pub open spec fn ambiguous_header_spec(command: Command, traversed: int) -> Seq<char> {
    "Found multiple possible "@ + direction_singular(command) + " commits to go to after traversing "@
        + pluralize_text(traversed, direction_singular(command), direction_plural(command)) + ":"@
}

/// The message when there is no commit to go to.
pub open spec fn no_more_message_spec(command: Command, traversed: int) -> Seq<char> {
    "No more "@ + direction_singular(command) + " commits to go to after traversing "@ + pluralize_text(
        traversed,
        direction_singular(command),
        direction_plural(command),
    ) + "."@
}

/// Whether `step` is the right step of a traversal after `traversed`
/// commits, with the candidates `candidates`, oldest first.
pub open spec fn advance_step_spec(
    step: AdvanceStep,
    command: Command,
    distance: Distance,
    towards: Option<Towards>,
    traversed: int,
    candidates: Seq<Seq<u8>>,
) -> bool {
    let stop = match distance {
        Distance::NumCommits(n) => traversed == n,
        Distance::AllTheWay => candidates.len() == 0,
    };
    if stop {
        step is Done
    } else if candidates.len() == 0 {
        step matches AdvanceStep::NoMoreCommits { message, failed } && message@ == no_more_message_spec(
            command,
            traversed,
        ) && failed == (traversed == 0)
    } else if candidates.len() == 1 {
        step matches AdvanceStep::MoveTo(oid) && oid@ == candidates[0]
    } else {
        match towards {
            Some(Towards::Newest) => step matches AdvanceStep::MoveTo(oid) && oid@ == candidates.last(),
            Some(Towards::Oldest) => step matches AdvanceStep::MoveTo(oid) && oid@ == candidates[0],
            Some(Towards::Interactive) => step matches AdvanceStep::Prompt { header } && header@
                == ambiguous_header_spec(command, traversed),
            None => step matches AdvanceStep::Ambiguous { header } && header@ == ambiguous_header_spec(
                command,
                traversed,
            ),
        }
    }
}

/// Decide one step of a traversal, after `traversed` commits, given the
/// commits that the current one leads to in the direction of travel,
/// oldest first. The traversal stops once it has gone the number of
/// commits asked for, or, going all the way, once there is nowhere to go.
/// Otherwise a single candidate is taken; among several, the newest or the
/// oldest as asked, or the user picks; if nothing was asked, the choice is
/// ambiguous.
pub fn advance_step(
    command: Command,
    distance: Distance,
    towards: Option<Towards>,
    traversed: usize,
    candidates: &[Oid],
) -> (r: Result<AdvanceStep, NavigationError>)
    ensures
        traversed > isize::MAX ==> r == Err::<AdvanceStep, NavigationError>(NavigationError::CountOutOfRange),
        traversed <= isize::MAX ==> (r matches Ok(step) && advance_step_spec(
            step,
            command,
            distance,
            towards,
            traversed as int,
            candidates@.map_values(|c: Oid| c@),
        )),
{
    if traversed > isize::MAX as usize {
        return Err(NavigationError::CountOutOfRange);
    }
    match distance {
        Distance::NumCommits(n) => {
            if traversed == n {
                return Ok(AdvanceStep::Done);
            }
        },
        Distance::AllTheWay => {
            if candidates.len() == 0 {
                return Ok(AdvanceStep::Done);
            }
        },
    }
    let (singular, plural) = match command {
        Command::Next => ("child", "children"),
        Command::Prev => ("parent", "parents"),
    };
    let count = Pluralize { amount: traversed as isize, singular, plural }.to_string();
    if candidates.len() == 0 {
        let mut message = "No more ".to_owned();
        message.append(singular);
        message.append(" commits to go to after traversing ");
        message.append(count.as_str());
        message.append(".");
        return Ok(AdvanceStep::NoMoreCommits { message, failed: traversed == 0 });
    }
    if candidates.len() == 1 {
        return Ok(AdvanceStep::MoveTo(candidates[0]));
    }
    let mut header = "Found multiple possible ".to_owned();
    header.append(singular);
    header.append(" commits to go to after traversing ");
    header.append(count.as_str());
    header.append(":");
    match towards {
        Some(Towards::Newest) => Ok(AdvanceStep::MoveTo(candidates[candidates.len() - 1])),
        Some(Towards::Oldest) => Ok(AdvanceStep::MoveTo(candidates[0])),
        Some(Towards::Interactive) => Ok(AdvanceStep::Prompt { header }),
        None => Ok(AdvanceStep::Ambiguous { header }),
    }
}

/// The note after the `j`th of `len` candidates in an ambiguous choice:
/// the first is the oldest, the last the newest.
pub fn candidate_note(j: usize, len: usize) -> (r: &'static str)
    ensures
        r@ == if j == 0 {
            " (oldest)"@
        } else if j + 1 == len {
            " (newest)"@
        } else {
            ""@
        },
{
    if j == 0 {
        " (oldest)"
    } else if len > 0 && j == len - 1 {
        " (newest)"
    } else {
        ""
    }
}

} // verus!
