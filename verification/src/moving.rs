//! Moving a subtree of commits: which commit moves, onto which, from the
//! options given.

use vstd::prelude::*;

use crate::eventlog::{opt_oid_view, opt_view};
use crate::oid::{oid_hex, Oid};

verus! {

/// Why the options of a move cannot be used.
#[derive(Clone, Copy, Debug, PartialEq, Eq, Structural)]
pub enum MoveArgsError {
    /// Both `--source` and `--base` were given.
    SourceAndBase,
    /// Neither `--source` nor `--base` was given, and `HEAD` is unborn.
    NoSourceOrHead,
    /// No `--dest` was given, and `HEAD` is unborn.
    NoDestOrHead,
}

impl MoveArgsError {
    /// The message shown to the user.
    pub fn message(&self) -> (r: &'static str)
        ensures
            r@ == match self {
                MoveArgsError::SourceAndBase => "The --source and --base options cannot both be provided."@,
                MoveArgsError::NoSourceOrHead =>
                    "No --source or --base argument was provided, and no OID for HEAD is available as a default"@,
                MoveArgsError::NoDestOrHead =>
                    "No --dest argument was provided, and no OID for HEAD is available as a default"@,
            },
    {
        match self {
            MoveArgsError::SourceAndBase => "The --source and --base options cannot both be provided.",
            MoveArgsError::NoSourceOrHead =>
                "No --source or --base argument was provided, and no OID for HEAD is available as a default",
            MoveArgsError::NoDestOrHead =>
                "No --dest argument was provided, and no OID for HEAD is available as a default",
        }
    }
}

/// What a move works on, before the commits are looked up.
#[derive(Debug, PartialEq, Eq)]
pub struct MoveTargets {
    /// The commit (or, when `should_resolve_base_commit`, a commit of the
    /// stack whose base) to move.
    pub source: String,
    /// Whether the base of the stack that holds `source` moves, rather
    /// than `source` itself.
    pub should_resolve_base_commit: bool,
    /// The commit to move onto.
    pub dest: String,
}

/// What a move works on: `--source` itself, or the base of the stack of
/// `--base` (of `HEAD` when neither is given), onto `--dest` (onto `HEAD`
/// when it is not given).
pub open spec fn move_targets_spec(
    source: Option<Seq<char>>,
    dest: Option<Seq<char>>,
    base: Option<Seq<char>>,
    head_oid: Option<Seq<u8>>,
) -> Result<(Seq<char>, bool, Seq<char>), MoveArgsError> {
    let src: Result<(Seq<char>, bool), MoveArgsError> = match (source, base) {
        (Some(_), Some(_)) => Err(MoveArgsError::SourceAndBase),
        (Some(s), None) => Ok((s, false)),
        (None, Some(b)) => Ok((b, true)),
        (None, None) => match head_oid {
            Some(h) => Ok((oid_hex(h), true)),
            None => Err(MoveArgsError::NoSourceOrHead),
        },
    };
    match src {
        Err(e) => Err(e),
        Ok((s, resolve)) => match dest {
            Some(d) => Ok((s, resolve, d)),
            None => match head_oid {
                Some(h) => Ok((s, resolve, oid_hex(h))),
                None => Err(MoveArgsError::NoDestOrHead),
            },
        },
    }
}

/// What a move works on (see `move_targets_spec`).
pub fn move_targets(source: Option<String>, dest: Option<String>, base: Option<String>, head_oid: Option<Oid>) -> (r:
    Result<MoveTargets, MoveArgsError>)
    ensures
        match move_targets_spec(opt_view(source), opt_view(dest), opt_view(base), opt_oid_view(head_oid)) {
            Ok((s, resolve, d)) => r matches Ok(t) && t.source@ == s && t.should_resolve_base_commit == resolve
                && t.dest@ == d,
            Err(e) => r == Err::<MoveTargets, MoveArgsError>(e),
        },
{
    let (source, should_resolve_base_commit) = match (source, base) {
        (Some(_), Some(_)) => return Err(MoveArgsError::SourceAndBase),
        (Some(source), None) => (source, false),
        (None, Some(base)) => (base, true),
        (None, None) => match head_oid {
            Some(oid) => (oid.to_hex(), true),
            None => return Err(MoveArgsError::NoSourceOrHead),
        },
    };
    let dest = match dest {
        Some(dest) => dest,
        None => match head_oid {
            Some(oid) => oid.to_hex(),
            None => return Err(MoveArgsError::NoDestOrHead),
        },
    };
    Ok(MoveTargets { source, should_resolve_base_commit, dest })
}

} // verus!
