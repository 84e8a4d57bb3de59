//! Amending the commit at `HEAD`: which changes go into it, and what is
//! reported.

use vstd::prelude::*;

use crate::formatting::{pluralize_text, Pluralize};
use crate::oid::Oid;

verus! {

/// The state of a file, as `git status` reports it for the working copy.
#[derive(Clone, Copy, Debug, PartialEq, Eq, Structural)]
pub enum FileStatus {
    Added,
    Copied,
    Deleted,
    Ignored,
    Modified,
    Renamed,
    Unmerged,
    Unmodified,
    Untracked,
}

/// Whether a file in this state has a change that amending takes in: it
/// was added, copied, deleted, modified or renamed.
pub open spec fn is_amendable_spec(s: FileStatus) -> bool {
    match s {
        FileStatus::Added | FileStatus::Copied | FileStatus::Deleted | FileStatus::Modified | FileStatus::Renamed => true,
        FileStatus::Ignored | FileStatus::Unmerged | FileStatus::Unmodified | FileStatus::Untracked => false,
    }
}

/// Whether a file in this state has a change that amending takes in.
pub fn is_amendable(s: FileStatus) -> (r: bool)
    ensures
        r == is_amendable_spec(s),
{
    match s {
        FileStatus::Added | FileStatus::Copied | FileStatus::Deleted | FileStatus::Modified | FileStatus::Renamed => true,
        FileStatus::Ignored | FileStatus::Unmerged | FileStatus::Unmodified | FileStatus::Untracked => false,
    }
}

/// A file of `git status`: its path and its state in the working copy.
#[derive(Debug, PartialEq, Eq)]
pub struct StatusEntry {
    pub path: String,
    pub working_copy_status: FileStatus,
}

/// Where the changes to amend come from.
#[derive(Debug, PartialEq, Eq)]
pub enum AmendFastOptions {
    /// The staged changes to these paths.
    FromIndex { paths: Vec<String> },
    /// These changed files of the working copy.
    FromWorkingCopy { status_entries: Vec<StatusEntry> },
}

/// The entries of `status` whose changes are amended, in order.
pub open spec fn amendable_entries(status: Seq<StatusEntry>) -> Seq<StatusEntry>
    decreases status.len(),
{
    if status.len() == 0 {
        Seq::empty()
    } else {
        let before = amendable_entries(status.drop_last());
        if is_amendable_spec(status.last().working_copy_status) {
            before.push(status.last())
        } else {
            before
        }
    }
}

impl AmendFastOptions {
    /// Amend the staged changes if any path is staged; otherwise the
    /// changed files of the working copy, from `git status`.
    pub fn from_changes(staged_paths: Vec<String>, status: Vec<StatusEntry>) -> (r: AmendFastOptions)
        ensures
            staged_paths@.len() > 0 ==> r == (AmendFastOptions::FromIndex { paths: staged_paths }),
            staged_paths@.len() == 0 ==> (r matches AmendFastOptions::FromWorkingCopy { status_entries }
                && status_entries@ == amendable_entries(status@)),
    {
        if staged_paths.len() > 0 {
            return AmendFastOptions::FromIndex { paths: staged_paths };
        }
        let mut rest: Vec<StatusEntry> = Vec::new();
        let mut i: usize = 0;
        while i < status.len()
            invariant
                i <= status@.len(),
                rest@ == amendable_entries(status@.take(i as int)),
            decreases status@.len() - i,
        {
            assert(status@.take(i + 1).drop_last() =~= status@.take(i as int));
            assert(status@.take(i + 1).last() == status@[i as int]);
            if is_amendable(status[i].working_copy_status) {
                let e = StatusEntry { path: status[i].path.clone(), working_copy_status: status[i].working_copy_status };
                assert(e == status@[i as int]);
                rest.push(e);
            }
            i = i + 1;
        }
        assert(status@.take(i as int) =~= status@);
        AmendFastOptions::FromWorkingCopy { status_entries: rest }
    }

    /// Whether there is nothing to amend.
    pub fn is_empty(&self) -> (r: bool)
        ensures
            r == match self {
                AmendFastOptions::FromIndex { paths } => paths@.len() == 0,
                AmendFastOptions::FromWorkingCopy { status_entries } => status_entries@.len() == 0,
            },
    {
        match self {
            AmendFastOptions::FromIndex { paths } => paths.len() == 0,
            AmendFastOptions::FromWorkingCopy { status_entries } => status_entries.len() == 0,
        }
    }
}

/// Why amending cannot start.
#[derive(Clone, Copy, Debug, PartialEq, Eq, Structural)]
pub enum AmendError {
    /// `HEAD` is unborn.
    NoCommitCheckedOut,
    /// The index holds unresolved merge conflicts.
    UnresolvedMergeConflicts,
}

impl AmendError {
    /// The message shown to the user.
    pub fn message(&self) -> (r: &'static str)
        ensures
            r@ == match self {
                AmendError::NoCommitCheckedOut =>
                    "No commit is currently checked out. Check out a commit to amend and then try again."@,
                AmendError::UnresolvedMergeConflicts =>
                    "Cannot amend, because there are unresolved merge conflicts. Resolve the merge conflicts and try again."@,
            },
    {
        match self {
            AmendError::NoCommitCheckedOut =>
                "No commit is currently checked out. Check out a commit to amend and then try again.",
            AmendError::UnresolvedMergeConflicts =>
                "Cannot amend, because there are unresolved merge conflicts. Resolve the merge conflicts and try again.",
        }
    }
}

/// The commit to amend: the one at `HEAD`, if there is one and the index
/// has no unresolved merge conflicts.
pub fn commit_to_amend(head_oid: Option<Oid>, index_has_conflicts: bool) -> (r: Result<Oid, AmendError>)
    ensures
        r == match head_oid {
            None => Err(AmendError::NoCommitCheckedOut),
            Some(oid) => if index_has_conflicts {
                Err(AmendError::UnresolvedMergeConflicts)
            } else {
                Ok(oid)
            },
        },
{
    match head_oid {
        None => Err(AmendError::NoCommitCheckedOut),
        Some(oid) => if index_has_conflicts {
            Err(AmendError::UnresolvedMergeConflicts)
        } else {
            Ok(oid)
        },
    }
}

/// The message when there is nothing to amend.
pub fn nothing_to_amend_message() -> (r: &'static str)
    ensures
        r@ == "There are no uncommitted or staged changes. Nothing to amend."@,
{
    "There are no uncommitted or staged changes. Nothing to amend."
}

/// The report after amending: how many staged changes went in (and that
/// some other changes stayed out, if the working copy had any), or how many
/// uncommitted changes went in.
pub open spec fn amend_report_spec(opts: AmendFastOptions, dirty_working_tree: bool) -> Seq<char> {
    match opts {
        AmendFastOptions::FromIndex { paths } => "Amended with "@ + pluralize_text(
            paths@.len() as int,
            "staged change"@,
            "staged changes"@,
        ) + "."@ + if dirty_working_tree {
            " (Some uncommitted changes were not amended.)"@
        } else {
            Seq::empty()
        },
        AmendFastOptions::FromWorkingCopy { status_entries } => "Amended with "@ + pluralize_text(
            status_entries@.len() as int,
            "uncommitted change"@,
            "uncommitted changes"@,
        ) + "."@,
    }
}

/// The report after amending.
pub fn amend_report(opts: &AmendFastOptions, dirty_working_tree: bool) -> (r: String)
    requires
        match opts {
            AmendFastOptions::FromIndex { paths } => paths@.len() <= isize::MAX,
            AmendFastOptions::FromWorkingCopy { status_entries } => status_entries@.len() <= isize::MAX,
        },
    ensures
        r@ == amend_report_spec(*opts, dirty_working_tree),
{
    let mut r = "Amended with ".to_owned();
    match opts {
        AmendFastOptions::FromIndex { paths } => {
            let p = Pluralize { amount: paths.len() as isize, singular: "staged change", plural: "staged changes" };
            r.append(p.to_string().as_str());
            r.append(".");
            if dirty_working_tree {
                r.append(" (Some uncommitted changes were not amended.)");
            }
        },
        AmendFastOptions::FromWorkingCopy { status_entries } => {
            let p = Pluralize {
                amount: status_entries.len() as isize,
                singular: "uncommitted change",
                plural: "uncommitted changes",
            };
            r.append(p.to_string().as_str());
            r.append(".");
        },
    }
    r
}

} // verus!
