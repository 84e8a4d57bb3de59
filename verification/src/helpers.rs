//! Helpers for rendering changes to files.

use vstd::prelude::*;

use crate::text::{decimal_digits, u64_to_string};

verus! {

/// Generate a one-line description of a binary file change: the hash, then
/// the size in parentheses, e.g. `abc123 (42 bytes)`.
pub fn make_binary_description(hash: &str, num_bytes: u64) -> (r: String)
    ensures
        r@ == hash@ + " ("@ + decimal_digits(num_bytes as nat) + " bytes)"@,
{
    let mut r = hash.to_owned();
    r.append(" (");
    r.append(u64_to_string(num_bytes).as_str());
    r.append(" bytes)");
    r
}

/// Reads input events from the terminal.
///
/// The editing of a commit message leaves the message as it is.
#[derive(Debug)]
pub struct CrosstermInput;

impl CrosstermInput {
    /// The commit message after editing: unchanged.
    pub fn edit_commit_message(&mut self, message: &str) -> (r: String)
        ensures
            r@ == message@,
    {
        message.to_owned()
    }
}

} // verus!
