//! Rebase plans: the commands that move commits onto new parents, the
//! labels that name rewritten commits, and the choice between rebasing in
//! memory and on disk.

use vstd::prelude::*;

use crate::eventlog::EventTransactionId;
use crate::formatting::Glyphs;
use crate::metadata::Time;
use crate::oid::{oid_hex, Oid};
use crate::text::{chars_eq, join_spec, push_char, str_chars};

verus! {

/// A commit named by its ID, or by a label that a rebase set on it.
#[derive(Debug, PartialEq, Eq)]
pub enum OidOrLabel {
    Oid(Oid),
    Label(String),
}

/// The mathematical value of a commit ID or a label.
pub enum TargetView {
    Oid(Seq<u8>),
    Label(Seq<char>),
}

impl View for OidOrLabel {
    type V = TargetView;

    open spec fn view(&self) -> TargetView {
        match self {
            OidOrLabel::Oid(oid) => TargetView::Oid(oid@),
            OidOrLabel::Label(label) => TargetView::Label(label@),
        }
    }
}

/// The text of a commit ID or a label.
pub open spec fn oid_or_label_text(t: OidOrLabel) -> Seq<char> {
    match t {
        OidOrLabel::Oid(oid) => oid_hex(oid@),
        OidOrLabel::Label(label) => label@,
    }
}

impl OidOrLabel {
    /// The commit ID in hexadecimal, or the label.
    pub fn to_string(&self) -> (r: String)
        ensures
            r@ == oid_or_label_text(*self),
    {
        match self {
            OidOrLabel::Oid(oid) => oid.to_hex(),
            OidOrLabel::Label(label) => label.clone(),
        }
    }
}

/// A command that can be applied for either in-memory or on-disk rebases.
#[derive(Debug, PartialEq, Eq)]
pub enum RebaseCommand {
    /// Create a label (a reference stored in `refs/rewritten/`) pointing to the
    /// current rebase head for later use.
    CreateLabel { label_name: String },
    /// Move the rebase head to the provided label or commit.
    Reset { target: OidOrLabel },
    /// Apply the provided commit on top of the rebase head, and update the
    /// rebase head to point to the newly-applied commit.
    Pick { commit_oid: Oid },
    /// Make a merge commit with the message of `commit_oid`, merging the
    /// given commits into the rebase head.
    Merge { commit_oid: Oid, commits_to_merge: Vec<OidOrLabel> },
    /// On-disk rebases only. Register that we want to run cleanup at the end of
    /// the rebase, during the `post-rewrite` hook.
    RegisterExtraPostRewriteHook,
    /// Determine if the current commit is empty. If so, reset the rebase head
    /// to its parent and record that it was empty in the `rewritten-list`.
    DetectEmptyCommit { commit_oid: Oid },
    /// The commit that would have been applied to the rebase head was already
    /// applied upstream. Skip it and record it in the `rewritten-list`.
    SkipUpstreamAppliedCommit { commit_oid: Oid },
}

/// The mathematical value of a rebase command.
pub enum CommandView {
    CreateLabel(Seq<char>),
    Reset(TargetView),
    Pick(Seq<u8>),
    Merge(Seq<u8>, Seq<TargetView>),
    RegisterExtraPostRewriteHook,
    DetectEmptyCommit(Seq<u8>),
    SkipUpstreamAppliedCommit(Seq<u8>),
}

/// The views of commit IDs or labels.
pub open spec fn target_views(ts: Seq<OidOrLabel>) -> Seq<TargetView> {
    ts.map_values(|t: OidOrLabel| t@)
}

impl View for RebaseCommand {
    type V = CommandView;

    open spec fn view(&self) -> CommandView {
        match self {
            RebaseCommand::CreateLabel { label_name } => CommandView::CreateLabel(label_name@),
            RebaseCommand::Reset { target } => CommandView::Reset(target@),
            RebaseCommand::Pick { commit_oid } => CommandView::Pick(commit_oid@),
            RebaseCommand::Merge { commit_oid, commits_to_merge } => CommandView::Merge(
                commit_oid@,
                target_views(commits_to_merge@),
            ),
            RebaseCommand::RegisterExtraPostRewriteHook => CommandView::RegisterExtraPostRewriteHook,
            RebaseCommand::DetectEmptyCommit { commit_oid } => CommandView::DetectEmptyCommit(commit_oid@),
            RebaseCommand::SkipUpstreamAppliedCommit { commit_oid } => CommandView::SkipUpstreamAppliedCommit(
                commit_oid@,
            ),
        }
    }
}

/// The views of rebase commands.
pub open spec fn command_views(cs: Seq<RebaseCommand>) -> Seq<CommandView> {
    cs.map_values(|c: RebaseCommand| c@)
}

/// The texts of commit IDs or labels.
pub open spec fn targets_text(ts: Seq<OidOrLabel>) -> Seq<Seq<char>> {
    ts.map_values(|t: OidOrLabel| oid_or_label_text(t))
}

/// The line of a Git rebase "todo" file that carries out a command.
pub open spec fn rebase_command_text(c: RebaseCommand) -> Seq<char> {
    match c {
        RebaseCommand::CreateLabel { label_name } => "label "@ + label_name@,
        RebaseCommand::Reset { target } => "reset "@ + oid_or_label_text(target),
        RebaseCommand::Pick { commit_oid } => "pick "@ + oid_hex(commit_oid@),
        RebaseCommand::Merge { commit_oid, commits_to_merge } => "merge -C "@ + oid_hex(commit_oid@) + " "@
            + join_spec(targets_text(commits_to_merge@), " "@),
        RebaseCommand::RegisterExtraPostRewriteHook => "exec git branchless hook-register-extra-post-rewrite-hook"@,
        RebaseCommand::DetectEmptyCommit { commit_oid } => "exec git branchless hook-detect-empty-commit "@
            + oid_hex(commit_oid@),
        RebaseCommand::SkipUpstreamAppliedCommit { commit_oid } =>
            "exec git branchless hook-skip-upstream-applied-commit "@ + oid_hex(commit_oid@),
    }
}

impl RebaseCommand {
    /// The line of a Git rebase "todo" file that carries out the command.
    pub fn to_string(&self) -> (r: String)
        ensures
            r@ == rebase_command_text(*self),
    {
        match self {
            RebaseCommand::CreateLabel { label_name } => {
                let mut r = "label ".to_owned();
                r.append(label_name.as_str());
                r
            },
            RebaseCommand::Reset { target } => {
                let mut r = "reset ".to_owned();
                r.append(target.to_string().as_str());
                r
            },
            RebaseCommand::Pick { commit_oid } => {
                let mut r = "pick ".to_owned();
                r.append(commit_oid.to_hex().as_str());
                r
            },
            RebaseCommand::Merge { commit_oid, commits_to_merge } => {
                let mut r = "merge -C ".to_owned();
                r.append(commit_oid.to_hex().as_str());
                r.append(" ");
                let ghost all = targets_text(commits_to_merge@);
                let ghost start = r@;
                let mut i: usize = 0;
                while i < commits_to_merge.len()
                    invariant
                        i <= commits_to_merge@.len(),
                        all == targets_text(commits_to_merge@),
                        r@ == start + join_spec(all.take(i as int), " "@),
                    decreases commits_to_merge@.len() - i,
                {
                    assert(all.take(i + 1).drop_last() =~= all.take(i as int));
                    assert(all.take(i + 1).last() == oid_or_label_text(commits_to_merge@[i as int]));
                    if i > 0 {
                        r.append(" ");
                    } else {
                        assert(all.take(1)[0] == all[0]);
                    }
                    r.append(commits_to_merge[i].to_string().as_str());
                    i = i + 1;
                }
                assert(all.take(commits_to_merge@.len() as int) =~= all);
                r
            },
            RebaseCommand::RegisterExtraPostRewriteHook => {
                "exec git branchless hook-register-extra-post-rewrite-hook".to_owned()
            },
            RebaseCommand::DetectEmptyCommit { commit_oid } => {
                let mut r = "exec git branchless hook-detect-empty-commit ".to_owned();
                r.append(commit_oid.to_hex().as_str());
                r
            },
            RebaseCommand::SkipUpstreamAppliedCommit { commit_oid } => {
                let mut r = "exec git branchless hook-skip-upstream-applied-commit ".to_owned();
                r.append(commit_oid.to_hex().as_str());
                r
            },
        }
    }
}

/// Represents a sequence of commands that can be executed to carry out a rebase
/// operation.
#[derive(Debug)]
pub struct RebasePlan {
    /// The commit that the first moved commit is put on.
    pub first_dest_oid: Oid,
    /// The commands, in order.
    pub commands: Vec<RebaseCommand>,
}

/// `preferred` with `k` apostrophes after it.
pub open spec fn primed(preferred: Seq<char>, k: nat) -> Seq<char> {
    preferred + Seq::new(k, |i: int| '\'')
}

/// Whether `k` apostrophes make the first label after `preferred` that
/// `used` does not hold.
pub open spec fn is_fresh_index(used: Seq<Seq<char>>, preferred: Seq<char>, k: nat) -> bool {
    &&& !used.contains(primed(preferred, k))
    &&& forall|j: nat| j < k ==> used.contains(#[trigger] primed(preferred, j))
}

/// The first of `preferred`, `preferred'`, `preferred''`, ... that `used`
/// does not hold.
pub open spec fn fresh_label_spec(used: Seq<Seq<char>>, preferred: Seq<char>) -> Seq<char> {
    primed(preferred, choose|k: nat| is_fresh_index(used, preferred, k))
}

/// There is one such first label.
proof fn lemma_fresh_index_unique(used: Seq<Seq<char>>, preferred: Seq<char>, k1: nat, k2: nat)
    requires
        is_fresh_index(used, preferred, k1),
        is_fresh_index(used, preferred, k2),
    ensures
        k1 == k2,
{
    if k1 < k2 {
        assert(used.contains(primed(preferred, k1)));
    } else if k2 < k1 {
        assert(used.contains(primed(preferred, k2)));
    }
}

/// Whether the texts of `used` include `s`.
fn is_used(used: &Vec<String>, s: &String) -> (r: bool)
    ensures
        r == used@.map_values(|t: String| t@).contains(s@),
{
    let ghost views = used@.map_values(|t: String| t@);
    let sc = str_chars(s.as_str());
    let mut i: usize = 0;
    while i < used.len()
        invariant
            i <= used@.len(),
            views == used@.map_values(|t: String| t@),
            sc@ == s@,
            forall|j: int| 0 <= j < i ==> views[j] != s@,
        decreases used@.len() - i,
    {
        let uc = str_chars(used[i].as_str());
        if chars_eq(uc.as_slice(), sc.as_slice()) {
            assert(views[i as int] == s@);
            return true;
        }
        i = i + 1;
    }
    false
}

/// A label that is not used yet: the preferred name, with as few
/// apostrophes after it as make it new. The label is then used.
pub fn make_label_name(used: &mut Vec<String>, preferred_name: String) -> (r: String)
    ensures
        r@ == fresh_label_spec(old(used)@.map_values(|t: String| t@), preferred_name@),
        !old(used)@.map_values(|t: String| t@).contains(r@),
        final(used)@.map_values(|t: String| t@) == old(used)@.map_values(|t: String| t@).push(r@),
{
    let ghost views = used@.map_values(|t: String| t@);
    let ghost p = preferred_name@;
    let mut candidate = preferred_name;
    let mut k: usize = 0;
    let n: usize = used.len();
    assert(primed(p, 0) =~= p);
    while is_used(used, &candidate)
        invariant
            used@.map_values(|t: String| t@) == views,
            views.len() == n,
            candidate@ == primed(p, k as nat),
            k <= views.len(),
            forall|j: nat| j < k ==> views.contains(#[trigger] primed(p, j)),
        decreases views.len() - k,
    {
        proof {
            let cs = Seq::new((k + 1) as nat, |j: int| primed(p, j as nat));
            assert forall|a: int, b: int| 0 <= a < cs.len() && 0 <= b < cs.len() && a != b implies cs[a] != cs[b] by {
                assert(cs[a].len() == p.len() + a);
                assert(cs[b].len() == p.len() + b);
            }
            assert(cs.no_duplicates());
            cs.unique_seq_to_set();
            assert(cs.to_set().subset_of(views.to_set())) by {
                assert forall|t: Seq<char>| cs.to_set().contains(t) implies views.to_set().contains(t) by {
                    let j = choose|j: int| 0 <= j < cs.len() && #[trigger] cs[j] == t;
                    if j < k {
                        assert(views.contains(primed(p, j as nat)));
                    } else {
                        assert(cs[j] == candidate@);
                    }
                }
            }
            vstd::set_lib::lemma_len_subset(cs.to_set(), views.to_set());
            views.lemma_cardinality_of_set();
        }
        push_char(&mut candidate, '\'');
        assert(primed(p, (k + 1) as nat) =~= primed(p, k as nat).push('\''));
        k = k + 1;
    }
    proof {
        assert(is_fresh_index(views, p, k as nat));
        let k2 = choose|k2: nat| is_fresh_index(views, p, k2);
        lemma_fresh_index_unique(views, p, k as nat, k2);
    }
    used.push(candidate.clone());
    assert(used@.map_values(|t: String| t@) =~= views.push(candidate@));
    candidate
}

/// An error caused when attempting to build a rebase plan.
#[derive(Debug)]
pub enum BuildRebasePlanError {
    /// There was a cycle in the requested graph to be built.
    ConstraintCycle {
        /// The IDs of the commits in the cycle. The first and the last IDs
        /// are the same.
        cycle_oids: Vec<Oid>,
    },
}

/// The three glyphs in front of the `i`th of `n` commits of a cycle: the
/// first line starts the loop with an arrow, the last closes it, the lines
/// between continue it.
pub open spec fn cycle_glyphs_spec(g: Glyphs, i: int, n: int) -> (Seq<char>, Seq<char>, Seq<char>) {
    if i == 0 {
        (g.cycle_upper_left_corner@, g.cycle_horizontal_line@, g.cycle_arrow@)
    } else if i + 1 == n {
        (g.cycle_lower_left_corner@, g.cycle_horizontal_line@, g.cycle_horizontal_line@)
    } else {
        (g.cycle_vertical_line@, " "@, " "@)
    }
}

/// The three glyphs in front of the `i`th of `n` commits when a cycle is
/// drawn.
pub fn cycle_glyphs(glyphs: &Glyphs, i: usize, n: usize) -> (r: (&'static str, &'static str, &'static str))
    ensures
        (r.0@, r.1@, r.2@) == cycle_glyphs_spec(*glyphs, i as int, n as int),
{
    if i == 0 {
        (glyphs.cycle_upper_left_corner, glyphs.cycle_horizontal_line, glyphs.cycle_arrow)
    } else if n > 0 && i == n - 1 {
        (glyphs.cycle_lower_left_corner, glyphs.cycle_horizontal_line, glyphs.cycle_horizontal_line)
    } else {
        (glyphs.cycle_vertical_line, " ", " ")
    }
}

/// Options to use when executing a `RebasePlan`.
#[derive(Clone, Copy, Debug)]
pub struct ExecuteRebasePlanOptions {
    /// The time which should be recorded for this event.
    pub now: Time,
    /// The transaction ID for this event.
    pub event_tx_id: EventTransactionId,
    /// If `true`, any rewritten commits will keep the same authored and
    /// committed timestamps. If `false`, the committed timestamps will be updated
    /// to the current time.
    pub preserve_timestamps: bool,
    /// Force an in-memory rebase (as opposed to an on-disk rebase).
    pub force_in_memory: bool,
    /// Force an on-disk rebase (as opposed to an in-memory rebase).
    pub force_on_disk: bool,
}

/// Why an on-disk rebase did not start.
#[derive(Debug, PartialEq, Eq)]
pub enum Error {
    /// The working copy has uncommitted changes that the rebase could
    /// overwrite.
    ChangedFilesInRepository,
    /// Another operation (a rebase, a merge, ...) is in progress.
    OperationAlreadyInProgress { operation_type: String },
}

/// How an in-memory rebase ended.
#[derive(Clone, Copy, Debug, PartialEq, Eq, Structural)]
pub enum InMemoryOutcome {
    /// All commits were applied, and the checkout that followed ended with
    /// this exit code (zero on success).
    Succeeded { checkout_exit_code: isize },
    /// A merge commit was in the way; those are not rebased in memory.
    CannotRebaseMergeCommit,
    /// Applying a commit conflicted.
    MergeConflict,
}

/// What to do next while executing a rebase plan.
#[derive(Clone, Copy, Debug, PartialEq, Eq, Structural)]
pub enum RebaseStep {
    /// Rebase in memory.
    InMemory,
    /// Rebase on disk.
    OnDisk,
    /// Stop with this exit code.
    Finish(isize),
    /// The options ask for both an in-memory and an on-disk rebase.
    ConflictingOptions,
}

/// The first attempt: in memory unless an on-disk rebase is forced; on
/// disk if it is and an in-memory one is not.
pub fn first_rebase_step(options: &ExecuteRebasePlanOptions) -> (r: RebaseStep)
    ensures
        r == if !options.force_on_disk {
            RebaseStep::InMemory
        } else if !options.force_in_memory {
            RebaseStep::OnDisk
        } else {
            RebaseStep::ConflictingOptions
        },
{
    if !options.force_on_disk {
        RebaseStep::InMemory
    } else if !options.force_in_memory {
        RebaseStep::OnDisk
    } else {
        RebaseStep::ConflictingOptions
    }
}

/// After an in-memory rebase: done, with the exit code of the checkout
/// that followed (zero only if that succeeded too), if it succeeded; failed
/// (exit code 1) on a merge commit, or on a conflict when an in-memory
/// rebase was forced; otherwise fall back to an on-disk rebase (which the
/// options cannot forbid here, as the in-memory attempt means that no
/// on-disk rebase was forced).
pub fn after_in_memory(options: &ExecuteRebasePlanOptions, outcome: InMemoryOutcome) -> (r: RebaseStep)
    ensures
        r == match outcome {
            InMemoryOutcome::Succeeded { checkout_exit_code } => RebaseStep::Finish(checkout_exit_code),
            InMemoryOutcome::CannotRebaseMergeCommit => RebaseStep::Finish(1),
            InMemoryOutcome::MergeConflict => if options.force_in_memory {
                RebaseStep::Finish(1)
            } else {
                RebaseStep::OnDisk
            },
        },
{
    match outcome {
        InMemoryOutcome::Succeeded { checkout_exit_code } => RebaseStep::Finish(checkout_exit_code),
        InMemoryOutcome::CannotRebaseMergeCommit => RebaseStep::Finish(1),
        InMemoryOutcome::MergeConflict => if options.force_in_memory {
            RebaseStep::Finish(1)
        } else {
            RebaseStep::OnDisk
        },
    }
}

/// The exit code after an on-disk rebase: Git's own if it ran, 1 if it
/// could not start.
pub fn on_disk_exit_code(result: &Result<isize, Error>) -> (r: isize)
    ensures
        r == match result {
            Ok(code) => *code,
            Err(_) => 1,
        },
{
    match result {
        Ok(code) => *code,
        Err(_) => 1,
    }
}

} // verus!
