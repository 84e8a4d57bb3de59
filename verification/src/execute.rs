//! Carrying out a rebase plan in memory. The repository does the
//! cherry-picks; this module decides, command by command, what to apply on
//! top of what, keeps the labels and the list of rewritten commits, and
//! works out where `HEAD` goes afterwards.

use vstd::prelude::*;

use crate::hooks::oid_pairs_view;
use crate::node_descriptors::BranchTargets;
use crate::oid::{oid_hex, Oid};
use crate::rebase::{
    command_views, rebase_command_text, CommandView, InMemoryOutcome, OidOrLabel, RebaseCommand, TargetView,
};
use crate::repo::HeadInfo;
use crate::rewrite::is_zero_oid;
use crate::text::{
    chars_eq, clone_texts, decimal_digits, is_prefix, push_u64_decimal, sorted_distinct, sorted_set, str_chars,
};

verus! {

/// The labels that a rebase has set, as a map: a later label of the same
/// name replaces an earlier one.
pub open spec fn labels_map(s: Seq<(Seq<char>, Seq<u8>)>) -> Map<Seq<char>, Seq<u8>>
    decreases s.len(),
{
    if s.len() == 0 {
        Map::empty()
    } else {
        labels_map(s.drop_last()).insert(s.last().0, s.last().1)
    }
}

/// The views of label entries.
pub open spec fn label_entries_view(v: Seq<(String, Oid)>) -> Seq<(Seq<char>, Seq<u8>)> {
    v.map_values(|p: (String, Oid)| (p.0@, p.1@))
}

/// The mathematical state of an in-memory rebase.
pub struct InMemoryView {
    /// The rebase head: the commit that the next pick goes on top of.
    pub current: Seq<u8>,
    /// The labels set so far.
    pub labels: Map<Seq<char>, Seq<u8>>,
    /// The rewritten commits so far, in order: old ID, new ID (zero when
    /// the commit was dropped).
    pub rewritten: Seq<(Seq<u8>, Seq<u8>)>,
    /// The commit that `HEAD` pointed to when the rebase started.
    pub head: Option<Seq<u8>>,
    /// Where `HEAD` goes if its commit is dropped: the rebase head at the
    /// first time it was dropped.
    pub skipped_head_new: Option<Seq<u8>>,
    /// How many picks (applied or skipped) have been started.
    pub picks: nat,
}

/// The all-zero object ID.
pub open spec fn zero_oid_view() -> Seq<u8> {
    Seq::new(20, |i: int| 0u8)
}

/// The state after a commit was dropped: it is recorded as rewritten to
/// the zero ID, and, if it is the commit of `HEAD` and none was dropped
/// before, the rebase head is where `HEAD` will go.
pub open spec fn record_drop(s: InMemoryView, commit: Seq<u8>) -> InMemoryView {
    InMemoryView {
        current: s.current,
        labels: s.labels,
        rewritten: s.rewritten.push((commit, zero_oid_view())),
        head: s.head,
        skipped_head_new: if s.head == Some(commit) && s.skipped_head_new is None {
            Some(s.current)
        } else {
            s.skipped_head_new
        },
        picks: s.picks,
    }
}

/// The state with another rebase head.
pub open spec fn with_current(s: InMemoryView, current: Seq<u8>) -> InMemoryView {
    InMemoryView {
        current,
        labels: s.labels,
        rewritten: s.rewritten,
        head: s.head,
        skipped_head_new: s.skipped_head_new,
        picks: s.picks,
    }
}

/// The state with one more pick started.
pub open spec fn with_next_pick(s: InMemoryView) -> InMemoryView {
    InMemoryView {
        current: s.current,
        labels: s.labels,
        rewritten: s.rewritten,
        head: s.head,
        skipped_head_new: s.skipped_head_new,
        picks: s.picks + 1,
    }
}

/// What the rebase asks of the repository after one command.
#[derive(Debug)]
pub enum InMemoryAction {
    /// Nothing: go on with the next command.
    Continue,
    /// Cherry-pick `commit_oid` onto `onto`, as pick number `pick_number`,
    /// and report the outcome with `record_pick`.
    ApplyPick { commit_oid: Oid, onto: Oid, pick_number: usize },
    /// The commit was already applied upstream: it was dropped, as pick
    /// number `pick_number`.
    SkippedUpstream { commit_oid: Oid, pick_number: usize },
    /// A merge: merge commits are not rebased in memory.
    CannotRebaseMerge { commit_oid: Oid },
    /// A reset to a label that no earlier command set.
    UnknownLabel { label_name: String },
}

/// The mathematical value of an action.
pub enum ActionView {
    Continue,
    ApplyPick(Seq<u8>, Seq<u8>, nat),
    SkippedUpstream(Seq<u8>, nat),
    CannotRebaseMerge(Seq<u8>),
    UnknownLabel(Seq<char>),
}

impl View for InMemoryAction {
    type V = ActionView;

    open spec fn view(&self) -> ActionView {
        match self {
            InMemoryAction::Continue => ActionView::Continue,
            InMemoryAction::ApplyPick { commit_oid, onto, pick_number } => ActionView::ApplyPick(
                commit_oid@,
                onto@,
                *pick_number as nat,
            ),
            InMemoryAction::SkippedUpstream { commit_oid, pick_number } => ActionView::SkippedUpstream(
                commit_oid@,
                *pick_number as nat,
            ),
            InMemoryAction::CannotRebaseMerge { commit_oid } => ActionView::CannotRebaseMerge(commit_oid@),
            InMemoryAction::UnknownLabel { label_name } => ActionView::UnknownLabel(label_name@),
        }
    }
}

/// One command of a rebase plan, carried out in memory: the state after it
/// and what the repository has to do.
pub open spec fn command_effect(s: InMemoryView, c: CommandView) -> (InMemoryView, ActionView) {
    match c {
        CommandView::CreateLabel(name) => (
            InMemoryView {
                current: s.current,
                labels: s.labels.insert(name, s.current),
                rewritten: s.rewritten,
                head: s.head,
                skipped_head_new: s.skipped_head_new,
                picks: s.picks,
            },
            ActionView::Continue,
        ),
        CommandView::Reset(TargetView::Label(name)) => if s.labels.contains_key(name) {
            (with_current(s, s.labels[name]), ActionView::Continue)
        } else {
            (s, ActionView::UnknownLabel(name))
        },
        CommandView::Reset(TargetView::Oid(oid)) => (with_current(s, oid), ActionView::Continue),
        CommandView::Pick(oid) => (with_next_pick(s), ActionView::ApplyPick(oid, s.current, s.picks + 1)),
        CommandView::Merge(oid, _) => (s, ActionView::CannotRebaseMerge(oid)),
        CommandView::RegisterExtraPostRewriteHook => (s, ActionView::Continue),
        CommandView::DetectEmptyCommit(_) => (s, ActionView::Continue),
        CommandView::SkipUpstreamAppliedCommit(oid) => (
            record_drop(with_next_pick(s), oid),
            ActionView::SkippedUpstream(oid, s.picks + 1),
        ),
    }
}

/// A reset to a label that was just set brings the rebase head back to
/// where the label was set, and asks nothing of the repository.
pub proof fn lemma_label_then_reset(s: InMemoryView, name: Seq<char>, other: Seq<u8>)
    ensures
        ({
            let (s1, _) = command_effect(s, CommandView::CreateLabel(name));
            let (s2, _) = command_effect(s1, CommandView::Reset(TargetView::Oid(other)));
            let (s3, a3) = command_effect(s2, CommandView::Reset(TargetView::Label(name)));
            s3.current == s.current && a3 is Continue
        }),
{
    let (s1, _) = command_effect(s, CommandView::CreateLabel(name));
    assert(s1.labels.contains_key(name) && s1.labels[name] == s.current);
}

/// What cherry-picking a commit in memory gave.
#[derive(Clone, Copy, Debug)]
pub enum PickOutcome {
    /// The commit has more than one parent.
    MergeCommit,
    /// Applying the commit conflicted.
    Conflict,
    /// The new commit changes nothing, so it was dropped.
    Empty,
    /// The commit was applied as `new_oid`.
    Committed { new_oid: Oid },
}

/// The state after a pick of `commit`, and the outcome of the whole rebase
/// if the pick ends it.
pub open spec fn pick_effect(s: InMemoryView, commit: Seq<u8>, outcome: PickOutcome) -> (
    InMemoryView,
    Option<InMemoryOutcome>,
) {
    match outcome {
        PickOutcome::MergeCommit => (s, Some(InMemoryOutcome::CannotRebaseMergeCommit)),
        PickOutcome::Conflict => (s, Some(InMemoryOutcome::MergeConflict)),
        PickOutcome::Empty => (record_drop(s, commit), None),
        PickOutcome::Committed { new_oid } => (
            InMemoryView {
                current: new_oid@,
                labels: s.labels,
                rewritten: s.rewritten.push((commit, new_oid@)),
                head: s.head,
                skipped_head_new: s.skipped_head_new,
                picks: s.picks,
            },
            None,
        ),
    }
}

/// The new ID of `oid` from the first entry that rewrote it, if any.
pub open spec fn first_rewrite(rw: Seq<(Seq<u8>, Seq<u8>)>, oid: Seq<u8>) -> Option<Seq<u8>>
    decreases rw.len(),
{
    if rw.len() == 0 {
        None
    } else if rw[0].0 == oid {
        Some(rw[0].1)
    } else {
        first_rewrite(rw.drop_first(), oid)
    }
}

/// Where `HEAD` goes after the rebase: nowhere if it was unborn; to the
/// commit that its commit became; if its commit was dropped, to the rebase
/// head at that time (or, failing that, where it was); where it was if its
/// commit was not rewritten.
pub open spec fn new_head_spec(s: InMemoryView) -> Option<Seq<u8>> {
    match s.head {
        None => None,
        Some(h) => match first_rewrite(s.rewritten, h) {
            Some(n) => if is_zero_oid(n) {
                match s.skipped_head_new {
                    Some(x) => Some(x),
                    None => Some(h),
                }
            } else {
                Some(n)
            },
            None => Some(h),
        },
    }
}

/// The state of a rebase carried out in memory.
pub struct InMemoryRebase {
    current_oid: Oid,
    labels: Vec<(String, Oid)>,
    rewritten_oids: Vec<(Oid, Oid)>,
    head_oid: Option<Oid>,
    skipped_head_new_oid: Option<Oid>,
    picks: usize,
}

/// The view of an optional commit ID.
pub open spec fn opt_oid(o: Option<Oid>) -> Option<Seq<u8>> {
    match o {
        Some(x) => Some(x@),
        None => None,
    }
}

impl View for InMemoryRebase {
    type V = InMemoryView;

    closed spec fn view(&self) -> InMemoryView {
        InMemoryView {
            current: self.current_oid@,
            labels: labels_map(label_entries_view(self.labels@)),
            rewritten: oid_pairs_view(self.rewritten_oids@),
            head: opt_oid(self.head_oid),
            skipped_head_new: opt_oid(self.skipped_head_new_oid),
            picks: self.picks as nat,
        }
    }
}

/// The entry of `name` in the labels, from the last entry for it.
fn find_label(labels: &Vec<(String, Oid)>, name: &String) -> (r: Option<Oid>)
    ensures
        match r {
            Some(oid) => labels_map(label_entries_view(labels@)).contains_key(name@)
                && labels_map(label_entries_view(labels@))[name@] == oid@,
            None => !labels_map(label_entries_view(labels@)).contains_key(name@),
        },
{
    let ghost all = label_entries_view(labels@);
    let nc = str_chars(name.as_str());
    let mut i: usize = labels.len();
    assert(all.take(i as int) =~= all);
    while i > 0
        invariant
            i <= labels@.len(),
            all == label_entries_view(labels@),
            nc@ == name@,
            labels_map(all).contains_key(name@) == labels_map(all.take(i as int)).contains_key(name@),
            labels_map(all).contains_key(name@) ==> labels_map(all)[name@] == labels_map(
                all.take(i as int),
            )[name@],
        decreases i,
    {
        let k = i - 1;
        assert(all.take(i as int).drop_last() =~= all.take(k as int));
        let lc = str_chars(labels[k].0.as_str());
        if chars_eq(lc.as_slice(), nc.as_slice()) {
            return Some(labels[k].1);
        }
        i = k;
    }
    None
}

impl InMemoryRebase {
    /// A rebase that starts at `first_dest_oid`, while `HEAD` points to
    /// `head_oid` (`None` if it is unborn).
    pub fn new(first_dest_oid: Oid, head_oid: Option<Oid>) -> (r: Self)
        ensures
            r@ == (InMemoryView {
                current: first_dest_oid@,
                labels: Map::empty(),
                rewritten: Seq::empty(),
                head: opt_oid(head_oid),
                skipped_head_new: None,
                picks: 0,
            }),
    {
        let r = InMemoryRebase {
            current_oid: first_dest_oid,
            labels: Vec::new(),
            rewritten_oids: Vec::new(),
            head_oid,
            skipped_head_new_oid: None,
            picks: 0,
        };
        assert(label_entries_view(r.labels@) =~= Seq::<(Seq<char>, Seq<u8>)>::empty());
        assert(oid_pairs_view(r.rewritten_oids@) =~= Seq::<(Seq<u8>, Seq<u8>)>::empty());
        assert(r@.labels =~= Map::<Seq<char>, Seq<u8>>::empty());
        r
    }

    /// Drop `commit_oid`: record it as rewritten to the zero ID, and keep
    /// the rebase head as the place for `HEAD` if it was `HEAD`'s commit.
    fn drop_commit(&mut self, commit_oid: Oid)
        ensures
            final(self)@ == record_drop(old(self)@, commit_oid@),
    {
        let ghost before = self@;
        self.rewritten_oids.push((commit_oid, Oid::zero()));
        if self.skipped_head_new_oid.is_none() {
            if let Some(h) = self.head_oid {
                if h == commit_oid {
                    self.skipped_head_new_oid = Some(self.current_oid);
                }
            }
        }
        proof {
            let z = self.rewritten_oids@.last().1;
            assert(z@ =~= zero_oid_view());
            assert(oid_pairs_view(self.rewritten_oids@) =~= before.rewritten.push((commit_oid@, zero_oid_view())));
            if let Some(h) = before.head {
                if h == commit_oid@ && before.skipped_head_new is None {
                    let hv = self.head_oid.unwrap();
                    crate::oid::lemma_oid_ext_equal(hv, commit_oid);
                }
            }
        }
    }

    /// Carry out one command of the plan. The labels and the rebase head
    /// change here; a pick is started and its outcome is reported with
    /// `record_pick`.
    pub fn apply_command(&mut self, command: &RebaseCommand) -> (r: InMemoryAction)
        requires
            old(self)@.picks < usize::MAX,
        ensures
            (final(self)@, r@) == command_effect(old(self)@, command@),
    {
        let ghost before = self@;
        match command {
            RebaseCommand::CreateLabel { label_name } => {
                self.labels.push((label_name.clone(), self.current_oid));
                proof {
                    assert(label_entries_view(self.labels@).drop_last() =~= label_entries_view(
                        old(self).labels@,
                    ));
                }
                InMemoryAction::Continue
            },
            RebaseCommand::Reset { target: OidOrLabel::Label(label_name) } => {
                match find_label(&self.labels, label_name) {
                    Some(oid) => {
                        self.current_oid = oid;
                        InMemoryAction::Continue
                    },
                    None => InMemoryAction::UnknownLabel { label_name: label_name.clone() },
                }
            },
            RebaseCommand::Reset { target: OidOrLabel::Oid(oid) } => {
                self.current_oid = *oid;
                InMemoryAction::Continue
            },
            RebaseCommand::Pick { commit_oid } => {
                self.picks = self.picks + 1;
                InMemoryAction::ApplyPick { commit_oid: *commit_oid, onto: self.current_oid, pick_number: self.picks }
            },
            RebaseCommand::Merge { commit_oid, commits_to_merge: _ } => {
                InMemoryAction::CannotRebaseMerge { commit_oid: *commit_oid }
            },
            RebaseCommand::RegisterExtraPostRewriteHook => InMemoryAction::Continue,
            RebaseCommand::DetectEmptyCommit { commit_oid: _ } => InMemoryAction::Continue,
            RebaseCommand::SkipUpstreamAppliedCommit { commit_oid } => {
                self.picks = self.picks + 1;
                self.drop_commit(*commit_oid);
                InMemoryAction::SkippedUpstream { commit_oid: *commit_oid, pick_number: self.picks }
            },
        }
    }

    /// Record what the pick of `commit_oid` gave. Returns the outcome of
    /// the whole rebase if the pick ends it (a merge commit, a conflict).
    pub fn record_pick(&mut self, commit_oid: Oid, outcome: PickOutcome) -> (r: Option<InMemoryOutcome>)
        ensures
            (final(self)@, r) == pick_effect(old(self)@, commit_oid@, outcome),
    {
        match outcome {
            PickOutcome::MergeCommit => Some(InMemoryOutcome::CannotRebaseMergeCommit),
            PickOutcome::Conflict => Some(InMemoryOutcome::MergeConflict),
            PickOutcome::Empty => {
                self.drop_commit(commit_oid);
                None
            },
            PickOutcome::Committed { new_oid } => {
                self.rewritten_oids.push((commit_oid, new_oid));
                self.current_oid = new_oid;
                proof {
                    assert(oid_pairs_view(self.rewritten_oids@) =~= oid_pairs_view(old(self).rewritten_oids@).push(
                        (commit_oid@, new_oid@),
                    ));
                }
                None
            },
        }
    }

    /// The rebase head: the commit that the next pick goes on top of.
    pub fn current_oid(&self) -> (r: Oid)
        ensures
            r@ == self@.current,
    {
        self.current_oid
    }

    /// The rewritten commits so far, in order: old ID, new ID (zero when
    /// the commit was dropped).
    pub fn rewritten_oids(&self) -> (r: Vec<(Oid, Oid)>)
        ensures
            oid_pairs_view(r@) == self@.rewritten,
    {
        let mut r: Vec<(Oid, Oid)> = Vec::new();
        let mut i: usize = 0;
        while i < self.rewritten_oids.len()
            invariant
                i <= self.rewritten_oids@.len(),
                r@ == self.rewritten_oids@.take(i as int),
            decreases self.rewritten_oids@.len() - i,
        {
            r.push(self.rewritten_oids[i]);
            assert(r@ =~= self.rewritten_oids@.take(i + 1));
            i = i + 1;
        }
        assert(self.rewritten_oids@.take(i as int) =~= self.rewritten_oids@);
        r
    }

    /// Where `HEAD` goes after the rebase (see `new_head_spec`).
    pub fn new_head_oid(&self) -> (r: Option<Oid>)
        ensures
            opt_oid(r) == new_head_spec(self@),
    {
        let head = match self.head_oid {
            None => return None,
            Some(h) => h,
        };
        let ghost rw = oid_pairs_view(self.rewritten_oids@);
        let mut i: usize = 0;
        assert(rw.skip(0) =~= rw);
        while i < self.rewritten_oids.len()
            invariant
                i <= self.rewritten_oids@.len(),
                rw == oid_pairs_view(self.rewritten_oids@),
                self.head_oid == Some(head),
                first_rewrite(rw, head@) == first_rewrite(rw.skip(i as int), head@),
            decreases self.rewritten_oids@.len() - i,
        {
            let (old_oid, new_oid) = self.rewritten_oids[i];
            assert(rw.skip(i as int)[0] == (old_oid@, new_oid@));
            assert(rw.skip(i as int).drop_first() =~= rw.skip(i + 1));
            if old_oid == head {
                assert(old_oid@ == head@);
                assert(first_rewrite(rw.skip(i as int), head@) == Some(new_oid@));
                if new_oid.is_zero() {
                    assert(is_zero_oid(new_oid@));
                    return match self.skipped_head_new_oid {
                        Some(x) => Some(x),
                        None => Some(head),
                    };
                }
                assert(!is_zero_oid(new_oid@)) by {
                    assert(new_oid@.len() == 20);
                }
                return Some(new_oid);
            }
            i = i + 1;
        }
        Some(head)
    }
}

/// The new ID of `oid` from the last entry that rewrote it, if any: when a
/// commit was rewritten more than once, the last rewrite wins.
pub open spec fn last_rewrite(rw: Seq<(Seq<u8>, Seq<u8>)>, oid: Seq<u8>) -> Option<Seq<u8>>
    decreases rw.len(),
{
    if rw.len() == 0 {
        None
    } else if rw.last().0 == oid {
        Some(rw.last().1)
    } else {
        last_rewrite(rw.drop_last(), oid)
    }
}

/// Where `HEAD` goes after the rewrites `rw` of a rebase that Git carried
/// out: nowhere if it was unborn; to the newest version of its commit; if
/// that commit was dropped, to the commit recorded for it (`skipped`), or
/// else where it was; where it was if its commit was not rewritten.
pub open spec fn head_after_rewrites_spec(
    previous: Option<Seq<u8>>,
    rw: Seq<(Seq<u8>, Seq<u8>)>,
    skipped: Option<Seq<u8>>,
) -> Option<Seq<u8>> {
    match previous {
        None => None,
        Some(h) => match last_rewrite(rw, h) {
            Some(n) => if is_zero_oid(n) {
                match skipped {
                    Some(x) => Some(x),
                    None => Some(h),
                }
            } else {
                Some(n)
            },
            None => Some(h),
        },
    }
}

/// Where `HEAD` goes after the rewrites of a rebase that Git carried out
/// (see `head_after_rewrites_spec`).
pub fn head_after_rewrites(previous: Option<Oid>, rewritten: &[(Oid, Oid)], skipped: Option<Oid>) -> (r: Option<Oid>)
    ensures
        opt_oid(r) == head_after_rewrites_spec(opt_oid(previous), oid_pairs_view(rewritten@), opt_oid(skipped)),
{
    match previous {
        None => None,
        Some(h) => match find_last_rewrite(rewritten, &h) {
            Some(n) => {
                proof {
                    assert(n@.len() == 20);
                }
                if n.is_zero() {
                    match skipped {
                        Some(x) => Some(x),
                        None => Some(h),
                    }
                } else {
                    Some(n)
                }
            },
            None => Some(h),
        },
    }
}

/// The new ID of `oid` from the last entry of `rewritten` that rewrote it.
pub fn find_last_rewrite(rewritten: &[(Oid, Oid)], oid: &Oid) -> (r: Option<Oid>)
    ensures
        opt_oid(r) == last_rewrite(oid_pairs_view(rewritten@), oid@),
{
    let ghost rw = oid_pairs_view(rewritten@);
    let mut i: usize = rewritten.len();
    assert(rw.take(i as int) =~= rw);
    while i > 0
        invariant
            i <= rewritten@.len(),
            rw == oid_pairs_view(rewritten@),
            last_rewrite(rw, oid@) == last_rewrite(rw.take(i as int), oid@),
        decreases i,
    {
        let k = i - 1;
        assert(rw.take(i as int).drop_last() =~= rw.take(k as int));
        let (old_oid, new_oid) = rewritten[k];
        if old_oid == *oid {
            return Some(new_oid);
        }
        i = k;
    }
    None
}

/// A branch name: a reference name without its `refs/heads/` prefix.
pub open spec fn branch_of(reference_name: Seq<char>) -> Seq<char> {
    if is_prefix("refs/heads/"@, reference_name) {
        reference_name.skip("refs/heads/"@.len() as int)
    } else {
        reference_name
    }
}

/// What to check out after the rebase, when `HEAD` was on the commit
/// `previous_head` and is to go to `new_head`: the branch of `HEAD` if it
/// is on one, unless that branch was deleted (its commit dropped); the new
/// `HEAD` commit otherwise.
pub open spec fn checkout_target_spec(
    reference_name: Option<Seq<char>>,
    rw: Seq<(Seq<u8>, Seq<u8>)>,
    previous_head: Seq<u8>,
    new_head: Seq<u8>,
) -> Seq<char> {
    match reference_name {
        Some(name) => match last_rewrite(rw, previous_head) {
            Some(n) => if is_zero_oid(n) {
                oid_hex(new_head)
            } else {
                branch_of(name)
            },
            None => branch_of(name),
        },
        None => oid_hex(new_head),
    }
}

/// Why the checkout after a rebase could not be worked out.
#[derive(Debug, PartialEq, Eq, Structural)]
pub enum PostRebaseError {
    /// `HEAD` pointed to a commit before the rebase, but the rebase gave
    /// no new commit for it.
    MissingNewHead,
}

/// What to check out after an in-memory rebase: nothing if `HEAD` was
/// unborn; otherwise the branch or commit of `checkout_target_spec`. It is
/// an error if `HEAD` pointed to a commit but there is no new `HEAD`.
pub fn checkout_after_rebase(head_info: &HeadInfo, rewritten: &[(Oid, Oid)], new_head_oid: Option<Oid>) -> (r:
    Result<Option<String>, PostRebaseError>)
    ensures
        match head_info.oid {
            None => r == Ok::<Option<String>, PostRebaseError>(None),
            Some(previous) => match new_head_oid {
                None => r == Err::<Option<String>, PostRebaseError>(PostRebaseError::MissingNewHead),
                Some(new_head) => r matches Ok(Some(t)) && t@ == checkout_target_spec(
                    match head_info.reference_name {
                        Some(n) => Some(n@),
                        None => None,
                    },
                    oid_pairs_view(rewritten@),
                    previous@,
                    new_head@,
                ),
            },
        },
{
    let previous = match head_info.oid {
        None => return Ok(None),
        Some(p) => p,
    };
    let new_head = match new_head_oid {
        None => return Err(PostRebaseError::MissingNewHead),
        Some(n) => n,
    };
    match head_info.get_branch_name() {
        Some(branch) => match find_last_rewrite(rewritten, &previous) {
            Some(n) => if n.is_zero() {
                Ok(Some(new_head.to_hex()))
            } else {
                Ok(Some(branch))
            },
            None => Ok(Some(branch)),
        },
        None => Ok(Some(new_head.to_hex())),
    }
}

/// A branch that a rebase moves: from the commit `old_oid` to `new_oid`,
/// or deleted when `new_oid` is zero.
#[derive(Debug)]
pub struct BranchMove {
    pub old_oid: Oid,
    pub new_oid: Oid,
    pub name: String,
}

/// The mathematical value of a branch move.
pub open spec fn branch_move_view(m: BranchMove) -> (Seq<u8>, Seq<u8>, Seq<char>) {
    (m.old_oid@, m.new_oid@, m.name@)
}

/// The views of branch moves.
pub open spec fn branch_moves_view(v: Seq<BranchMove>) -> Seq<(Seq<u8>, Seq<u8>, Seq<char>)> {
    v.map_values(|m: BranchMove| branch_move_view(m))
}

/// The distinct names in a list of branch names.
pub open spec fn name_set(names: Seq<String>) -> Set<Seq<char>> {
    names.map_values(|n: String| n@).to_set()
}

/// The branches to move after a rebase: for each commit with branches, in
/// order, if the rebase rewrote it (the last rewrite wins), each of its
/// branches in name order, moved to the new commit.
pub open spec fn branch_moves_spec(targets: Seq<BranchTargets>, rw: Seq<(Seq<u8>, Seq<u8>)>) -> Seq<
    (Seq<u8>, Seq<u8>, Seq<char>),
>
    decreases targets.len(),
{
    if targets.len() == 0 {
        Seq::empty()
    } else {
        let t = targets.last();
        let before = branch_moves_spec(targets.drop_last(), rw);
        match last_rewrite(rw, t.oid@) {
            None => before,
            Some(n) => before + sorted_set(name_set(t.names@)).map_values(
                |name: Seq<char>| (t.oid@, n, name),
            ),
        }
    }
}

/// The branches to move after a rebase (see `branch_moves_spec`).
pub fn branch_moves(targets: &[BranchTargets], rewritten: &[(Oid, Oid)]) -> (r: Vec<BranchMove>)
    ensures
        branch_moves_view(r@) == branch_moves_spec(targets@, oid_pairs_view(rewritten@)),
{
    let ghost rw = oid_pairs_view(rewritten@);
    let mut r: Vec<BranchMove> = Vec::new();
    let mut i: usize = 0;
    assert(targets@.take(0) =~= Seq::<BranchTargets>::empty());
    assert(branch_moves_view(r@) =~= Seq::<(Seq<u8>, Seq<u8>, Seq<char>)>::empty());
    while i < targets.len()
        invariant
            i <= targets@.len(),
            rw == oid_pairs_view(rewritten@),
            branch_moves_view(r@) == branch_moves_spec(targets@.take(i as int), rw),
        decreases targets@.len() - i,
    {
        let t = &targets[i];
        assert(targets@.take(i + 1).drop_last() =~= targets@.take(i as int));
        assert(targets@.take(i + 1).last() == *t);
        match find_last_rewrite(rewritten, &t.oid) {
            None => {},
            Some(new_oid) => {
                let names = sorted_distinct(clone_texts(t.names.as_slice()));
                let ghost before = branch_moves_view(r@);
                let ghost sorted = names@.map_values(|n: String| n@);
                let mut j: usize = 0;
                while j < names.len()
                    invariant
                        j <= names@.len(),
                        sorted == names@.map_values(|n: String| n@),
                        branch_moves_view(r@) == before + sorted.take(j as int).map_values(
                            |name: Seq<char>| (t.oid@, new_oid@, name),
                        ),
                    decreases names@.len() - j,
                {
                    let ghost r0 = r@;
                    let m = BranchMove { old_oid: t.oid, new_oid, name: names[j].clone() };
                    assert(branch_move_view(m) == (t.oid@, new_oid@, sorted[j as int]));
                    r.push(m);
                    assert(branch_moves_view(r@) =~= branch_moves_view(r0).push(branch_move_view(m)));
                    assert(sorted.take(j + 1).map_values(|name: Seq<char>| (t.oid@, new_oid@, name))
                        =~= sorted.take(j as int).map_values(|name: Seq<char>| (t.oid@, new_oid@, name)).push(
                        (t.oid@, new_oid@, sorted[j as int]),
                    ));
                    j = j + 1;
                }
                assert(sorted.take(j as int) =~= sorted);
            },
        }
        i = i + 1;
    }
    assert(targets@.take(i as int) =~= targets@);
    r
}

/// The lines that report branch moves to the `reference-transaction`
/// hook: `old new name` for each move.
pub open spec fn branch_moves_text_spec(moves: Seq<(Seq<u8>, Seq<u8>, Seq<char>)>) -> Seq<char>
    decreases moves.len(),
{
    if moves.len() == 0 {
        Seq::empty()
    } else {
        let m = moves.last();
        branch_moves_text_spec(moves.drop_last()) + oid_hex(m.0) + " "@ + oid_hex(m.1) + " "@ + m.2 + "\n"@
    }
}

/// The lines that report branch moves to the `reference-transaction`
/// hook.
pub fn branch_moves_text(moves: &[BranchMove]) -> (r: String)
    ensures
        r@ == branch_moves_text_spec(branch_moves_view(moves@)),
{
    let ghost all = branch_moves_view(moves@);
    let mut text = String::new();
    let mut i: usize = 0;
    while i < moves.len()
        invariant
            i <= moves@.len(),
            all == branch_moves_view(moves@),
            text@ == branch_moves_text_spec(all.take(i as int)),
        decreases moves@.len() - i,
    {
        assert(all.take(i + 1).drop_last() =~= all.take(i as int));
        assert(all.take(i + 1).last() == branch_move_view(moves@[i as int]));
        text.append(moves[i].old_oid.to_hex().as_str());
        text.append(" ");
        text.append(moves[i].new_oid.to_hex().as_str());
        text.append(" ");
        text.append(moves[i].name.as_str());
        text.append("\n");
        i = i + 1;
    }
    assert(all.take(moves@.len() as int) =~= all);
    text
}

/// Whether a command is a pick: applied, or skipped as already applied
/// upstream.
pub open spec fn is_pick(c: CommandView) -> bool {
    c is Pick || c is SkipUpstreamAppliedCommit
}

/// The number of picks in a list of commands.
pub open spec fn count_picks_spec(cs: Seq<CommandView>) -> nat
    decreases cs.len(),
{
    if cs.len() == 0 {
        0
    } else {
        count_picks_spec(cs.drop_last()) + if is_pick(cs.last()) {
            1nat
        } else {
            0nat
        }
    }
}

/// The number of picks in a rebase plan: the `n` of the `[i/n]` progress
/// marks.
pub fn count_picks(commands: &[RebaseCommand]) -> (r: usize)
    ensures
        r == count_picks_spec(command_views(commands@)),
{
    let ghost all = command_views(commands@);
    let mut n: usize = 0;
    let mut i: usize = 0;
    while i < commands.len()
        invariant
            i <= commands@.len(),
            all == command_views(commands@),
            n == count_picks_spec(all.take(i as int)),
            n <= i,
        decreases commands@.len() - i,
    {
        assert(all.take(i + 1).drop_last() =~= all.take(i as int));
        assert(all.take(i + 1).last() == commands@[i as int]@);
        match &commands[i] {
            RebaseCommand::Pick { .. } | RebaseCommand::SkipUpstreamAppliedCommit { .. } => {
                n = n + 1;
            },
            _ => {},
        }
        i = i + 1;
    }
    assert(all.take(commands@.len() as int) =~= all);
    n
}

/// How a pick went, for its line of the progress report.
#[derive(Clone, Copy, Debug, PartialEq, Eq, Structural)]
pub enum PickReport {
    /// Applied as a new commit.
    Committed,
    /// Applied, but it changed nothing and was dropped.
    SkippedEmpty,
    /// Already applied upstream, so dropped.
    SkippedUpstream,
}

/// The line that reports pick `i` of `n`, with the commit described as
/// `description`.
pub open spec fn pick_report_spec(report: PickReport, i: nat, n: nat, description: Seq<char>) -> Seq<char> {
    "["@ + decimal_digits(i) + "/"@ + decimal_digits(n) + "] "@ + match report {
        PickReport::Committed => "Committed as: "@,
        PickReport::SkippedEmpty => "Skipped now-empty commit: "@,
        PickReport::SkippedUpstream => "Skipped commit (was already applied upstream): "@,
    } + description
}

/// The line that reports pick `i` of `n`.
pub fn pick_report(report: PickReport, i: usize, n: usize, description: &str) -> (r: String)
    ensures
        r@ == pick_report_spec(report, i as nat, n as nat, description@),
{
    let mut r = "[".to_owned();
    push_u64_decimal(&mut r, i as u64);
    r.append("/");
    push_u64_decimal(&mut r, n as u64);
    r.append("] ");
    match report {
        PickReport::Committed => r.append("Committed as: "),
        PickReport::SkippedEmpty => r.append("Skipped now-empty commit: "),
        PickReport::SkippedUpstream => r.append("Skipped commit (was already applied upstream): "),
    }
    r.append(description);
    r
}

/// The `git-rebase-todo` file of an on-disk rebase: one line per command.
pub open spec fn todo_text_spec(cs: Seq<RebaseCommand>) -> Seq<char>
    decreases cs.len(),
{
    if cs.len() == 0 {
        Seq::empty()
    } else {
        todo_text_spec(cs.drop_last()) + rebase_command_text(cs.last()) + "\n"@
    }
}

/// The `git-rebase-todo` file of an on-disk rebase.
pub fn todo_text(commands: &[RebaseCommand]) -> (r: String)
    ensures
        r@ == todo_text_spec(commands@),
{
    let mut text = String::new();
    let mut i: usize = 0;
    while i < commands.len()
        invariant
            i <= commands@.len(),
            text@ == todo_text_spec(commands@.take(i as int)),
        decreases commands@.len() - i,
    {
        assert(commands@.take(i + 1).drop_last() =~= commands@.take(i as int));
        assert(commands@.take(i + 1).last() == commands@[i as int]);
        text.append(commands[i].to_string().as_str());
        text.append("\n");
        i = i + 1;
    }
    assert(commands@.take(commands@.len() as int) =~= commands@);
    text
}

/// The `end` file of an on-disk rebase: the number of commands.
pub fn end_text(commands: &[RebaseCommand]) -> (r: String)
    ensures
        r@ == decimal_digits(commands@.len()) + "\n"@,
{
    let mut r = String::new();
    push_u64_decimal(&mut r, commands.len() as u64);
    r.append("\n");
    r
}

/// The `head-name` file of an on-disk rebase: the branch of `HEAD`, or
/// `detached HEAD`.
pub fn head_name_text(head_info: &HeadInfo) -> (r: String)
    ensures
        r@ == match head_info.reference_name {
            Some(n) => branch_of(n@),
            None => "detached HEAD"@,
        },
{
    match head_info.get_branch_name() {
        Some(b) => b,
        None => "detached HEAD".to_owned(),
    }
}

} // verus!
