//! Facts about a repository that the tool reads as text: the version of
//! Git, the kind of a reference from its name, and the branch that `HEAD`
//! is on.

use vstd::prelude::*;

use crate::oid::Oid;
use crate::text::{
    is_prefix, parse_isize, parse_isize_spec, slice_chars, split_chars, split_pieces, starts_with,
    str_chars, string_of_chars, trim, trim_spec, views,
};

verus! {

/// The parsed version of Git.
#[derive(Debug, PartialEq, Eq, PartialOrd, Ord, Structural)]
pub struct GitVersion(pub isize, pub isize, pub isize);

/// Why the output of `git version` could not be parsed.
#[derive(Debug, PartialEq, Eq, Structural)]
pub enum GitVersionError {
    /// The output had fewer than three words.
    CouldNotParseOutput,
    /// The version had fewer than three dot-separated components.
    CouldNotParseVersion,
    /// A component of the version was not a number.
    InvalidNumber,
}

/// The version that `git version` output names: after trimming white space,
/// the third word (words are separated by spaces and hyphens), whose first
/// three dot-separated components are the major, minor and patch numbers.
pub open spec fn git_version_spec(s: Seq<char>) -> Result<(int, int, int), GitVersionError> {
    let words = split_pieces(trim_spec(s), seq![' ', '-']);
    if words.len() < 3 {
        Err(GitVersionError::CouldNotParseOutput)
    } else {
        let parts = split_pieces(words[2], seq!['.']);
        if parts.len() < 3 {
            Err(GitVersionError::CouldNotParseVersion)
        } else {
            match (parse_isize_spec(parts[0]), parse_isize_spec(parts[1]), parse_isize_spec(parts[2])) {
                (Some(a), Some(b), Some(c)) => Ok((a, b, c)),
                _ => Err(GitVersionError::InvalidNumber),
            }
        }
    }
}

impl GitVersion {
    /// Parse the output of `git version`, e.g. `git version 2.33.0-rc0`.
    pub fn from_str(output: &str) -> (r: Result<GitVersion, GitVersionError>)
        ensures
            match r {
                Ok(v) => git_version_spec(output@) == Ok::<(int, int, int), GitVersionError>(
                    (v.0 as int, v.1 as int, v.2 as int),
                ),
                Err(e) => git_version_spec(output@) == Err::<(int, int, int), GitVersionError>(e),
            },
    {
        let chars = str_chars(output);
        let trimmed = trim(chars.as_slice());
        let word_seps: Vec<char> = vec![' ', '-'];
        assert(word_seps@ =~= seq![' ', '-']);
        let words = split_chars(trimmed.as_slice(), word_seps.as_slice());
        if words.len() < 3 {
            return Err(GitVersionError::CouldNotParseOutput);
        }
        assert(views(words@)[2] == words@[2]@);
        let dot_seps: Vec<char> = vec!['.'];
        assert(dot_seps@ =~= seq!['.']);
        let parts = split_chars(words[2].as_slice(), dot_seps.as_slice());
        if parts.len() < 3 {
            return Err(GitVersionError::CouldNotParseVersion);
        }
        assert(views(parts@)[0] == parts@[0]@);
        assert(views(parts@)[1] == parts@[1]@);
        assert(views(parts@)[2] == parts@[2]@);
        let major = match parse_isize(parts[0].as_slice()) {
            Some(v) => v,
            None => {
                return Err(GitVersionError::InvalidNumber);
            },
        };
        let minor = match parse_isize(parts[1].as_slice()) {
            Some(v) => v,
            None => {
                return Err(GitVersionError::InvalidNumber);
            },
        };
        let patch = match parse_isize(parts[2].as_slice()) {
            Some(v) => v,
            None => {
                return Err(GitVersionError::InvalidNumber);
            },
        };
        Ok(GitVersion(major, minor, patch))
    }
}

/// `s` without the prefix `p`, if it starts with it.
pub fn strip_prefix_chars(s: &[char], p: &[char]) -> (r: Option<Vec<char>>)
    ensures
        r is Some <==> is_prefix(p@, s@),
        r matches Some(t) ==> t@ == s@.skip(p@.len() as int),
{
    if starts_with(s, p) {
        let t = slice_chars(s, p.len(), s.len());
        assert(t@ =~= s@.skip(p@.len() as int));
        Some(t)
    } else {
        None
    }
}

/// The kind of a reference, from its name.
#[derive(Debug, PartialEq, Eq, Structural, Clone, Copy)]
pub enum ReferenceKind {
    LocalBranch,
    RemoteBranch,
    OtherRef,
}

/// What a reference's name says it is: a local branch under `refs/heads/`,
/// a remote branch under `refs/remotes/`, or some other reference.
pub open spec fn reference_kind(name: Seq<char>) -> ReferenceKind {
    if is_prefix("refs/heads/"@, name) {
        ReferenceKind::LocalBranch
    } else if is_prefix("refs/remotes/"@, name) {
        ReferenceKind::RemoteBranch
    } else {
        ReferenceKind::OtherRef
    }
}

/// The name of a reference without the prefix that its kind implies.
pub open spec fn reference_suffix(name: Seq<char>) -> Seq<char> {
    match reference_kind(name) {
        ReferenceKind::LocalBranch => name.skip("refs/heads/"@.len() as int),
        ReferenceKind::RemoteBranch => name.skip("refs/remotes/"@.len() as int),
        ReferenceKind::OtherRef => name,
    }
}

/// A reference name together with what kind of reference it names.
#[derive(Debug)]
pub struct CategorizedReferenceName {
    name: String,
    kind: ReferenceKind,
}

impl CategorizedReferenceName {
    /// The reference's full name.
    pub closed spec fn spec_name(&self) -> Seq<char> {
        self.name@
    }

    /// The reference's kind.
    pub closed spec fn spec_kind(&self) -> ReferenceKind {
        self.kind
    }

    /// Categorize the provided reference name.
    pub fn new(name: &str) -> (r: CategorizedReferenceName)
        ensures
            r.spec_name() == name@,
            r.spec_kind() == reference_kind(name@),
    {
        let chars = str_chars(name);
        let kind = if starts_with(chars.as_slice(), str_chars("refs/heads/").as_slice()) {
            ReferenceKind::LocalBranch
        } else if starts_with(chars.as_slice(), str_chars("refs/remotes/").as_slice()) {
            ReferenceKind::RemoteBranch
        } else {
            ReferenceKind::OtherRef
        };
        CategorizedReferenceName { name: name.to_owned(), kind }
    }

    /// The kind of reference.
    pub fn kind(&self) -> (r: ReferenceKind)
        ensures
            r == self.spec_kind(),
    {
        self.kind
    }

    /// The reference name without its kind's prefix.
    pub fn remove_prefix(&self) -> (r: String)
        requires
            self.spec_kind() == reference_kind(self.spec_name()),
        ensures
            r@ == reference_suffix(self.spec_name()),
    {
        self.render_suffix()
    }

    /// The full name of the reference, including its prefix.
    pub fn render_full(&self) -> (r: String)
        ensures
            r@ == self.spec_name(),
    {
        self.name.clone()
    }

    /// Only the suffix of the reference name.
    pub fn render_suffix(&self) -> (r: String)
        requires
            self.spec_kind() == reference_kind(self.spec_name()),
        ensures
            r@ == reference_suffix(self.spec_name()),
    {
        let chars = str_chars(self.name.as_str());
        let prefix = match self.kind {
            ReferenceKind::LocalBranch => str_chars("refs/heads/"),
            ReferenceKind::RemoteBranch => str_chars("refs/remotes/"),
            ReferenceKind::OtherRef => Vec::new(),
        };
        match strip_prefix_chars(chars.as_slice(), prefix.as_slice()) {
            Some(rest) => string_of_chars(rest.as_slice()),
            None => {
                assert(is_prefix(Seq::<char>::empty(), chars@)) by {
                    assert(chars@.take(0) =~= Seq::<char>::empty());
                }
                self.name.clone()
            },
        }
    }

    /// The reference name with a word for its kind in front: `branch`,
    /// `remote branch` or `ref`.
    pub fn friendly_describe(&self) -> (r: String)
        requires
            self.spec_kind() == reference_kind(self.spec_name()),
        ensures
            r@ == match self.spec_kind() {
                ReferenceKind::LocalBranch => "branch "@,
                ReferenceKind::RemoteBranch => "remote branch "@,
                ReferenceKind::OtherRef => "ref "@,
            } + reference_suffix(self.spec_name()),
    {
        let name = self.render_suffix();
        let mut r = match self.kind {
            ReferenceKind::LocalBranch => "branch ".to_owned(),
            ReferenceKind::RemoteBranch => "remote branch ".to_owned(),
            ReferenceKind::OtherRef => "ref ".to_owned(),
        };
        r.append(name.as_str());
        r
    }
}

/// A snapshot of information about the current `HEAD` of the repository.
#[derive(Debug)]
pub struct HeadInfo {
    /// The object that `HEAD` points to; `None` if `HEAD` is unborn.
    pub oid: Option<Oid>,
    /// The name of the reference that `HEAD` points to symbolically; `None`
    /// if `HEAD` is detached.
    pub reference_name: Option<String>,
}

impl HeadInfo {
    /// The name of the branch that `HEAD` is on, without a `refs/heads/`
    /// prefix; `None` if `HEAD` is detached.
    pub fn get_branch_name(&self) -> (r: Option<String>)
        ensures
            match self.reference_name {
                None => r is None,
                Some(name) => r matches Some(b) && b@ == if is_prefix("refs/heads/"@, name@) {
                    name@.skip("refs/heads/"@.len() as int)
                } else {
                    name@
                },
            },
    {
        match &self.reference_name {
            None => None,
            Some(name) => {
                let chars = str_chars(name.as_str());
                match strip_prefix_chars(chars.as_slice(), str_chars("refs/heads/").as_slice()) {
                    Some(rest) => Some(string_of_chars(rest.as_slice())),
                    None => Some(name.clone()),
                }
            },
        }
    }
}

} // verus!
