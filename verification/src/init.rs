//! Setting up the branchless workflow in a repository: the contents of the
//! hook scripts, the aliases and the configuration that it installs.

use vstd::prelude::*;

use crate::text::{
    append_chars, chars_eq, is_prefix, lemma_lines_append, lemma_lines_no_newline, lemma_lines_of_line, lines, lines_spec,
    no_newline, push_char, slice_chars, split_pieces, starts_with, str_chars, string_of_chars, strip_cr, views,
};

verus! {

/// The first line of a hook script.
pub const SHEBANG: &'static str = "#!/bin/sh";

/// The line that starts the part of a hook script that this tool manages.
pub const UPDATE_MARKER_START: &'static str = "## START BRANCHLESS CONFIG";

/// The line that ends the part of a hook script that this tool manages.
pub const UPDATE_MARKER_END: &'static str = "## END BRANCHLESS CONFIG";

/// One line of a hook script being rewritten, given whether the line is
/// inside the managed part (and so dropped) and the output so far: the
/// start marker opens the managed part and writes the markers around the
/// new contents; the end marker closes it; other lines outside it are
/// kept.
pub open spec fn update_line(state: (bool, Seq<char>), line: Seq<char>, updated: Seq<char>) -> (bool, Seq<char>) {
    if line == UPDATE_MARKER_START@ {
        (true, state.1 + UPDATE_MARKER_START@ + seq!['\n'] + updated + UPDATE_MARKER_END@ + seq!['\n'])
    } else if line == UPDATE_MARKER_END@ {
        (false, state.1)
    } else if !state.0 {
        (state.0, state.1 + line + seq!['\n'])
    } else {
        state
    }
}

/// The state after rewriting the lines `ls`.
pub open spec fn update_lines(ls: Seq<Seq<char>>, updated: Seq<char>) -> (bool, Seq<char>)
    decreases ls.len(),
{
    if ls.len() == 0 {
        (false, Seq::empty())
    } else {
        update_line(update_lines(ls.drop_last(), updated), ls.last(), updated)
    }
}

/// A hook script with its managed part replaced by `updated`.
pub open spec fn update_between_lines_spec(text: Seq<char>, updated: Seq<char>) -> Seq<char> {
    update_lines(lines_spec(text), updated).1
}

/// Replace the part of a hook script between the markers with
/// `updated_lines`, keeping the lines outside it.
pub fn update_between_lines(lines_text: &str, updated_lines: &str) -> (r: String)
    ensures
        r@ == update_between_lines_spec(lines_text@, updated_lines@),
{
    let text = str_chars(lines_text);
    let ls = lines(text.as_slice());
    let start = str_chars(UPDATE_MARKER_START);
    let end = str_chars(UPDATE_MARKER_END);
    let updated = str_chars(updated_lines);
    let mut new_lines = String::new();
    let mut is_ignoring_lines: bool = false;
    let mut i: usize = 0;
    while i < ls.len()
        invariant
            0 <= i <= ls@.len(),
            views(ls@) == lines_spec(lines_text@),
            start@ == UPDATE_MARKER_START@,
            end@ == UPDATE_MARKER_END@,
            updated@ == updated_lines@,
            (is_ignoring_lines, new_lines@) == update_lines(views(ls@).take(i as int), updated_lines@),
        decreases ls@.len() - i,
    {
        let line = &ls[i];
        let ghost t = views(ls@).take(i + 1);
        assert(t.drop_last() =~= views(ls@).take(i as int));
        assert(t.last() == line@);
        if chars_eq(line.as_slice(), start.as_slice()) {
            is_ignoring_lines = true;
            append_chars(&mut new_lines, start.as_slice());
            push_char(&mut new_lines, '\n');
            append_chars(&mut new_lines, updated.as_slice());
            append_chars(&mut new_lines, end.as_slice());
            push_char(&mut new_lines, '\n');
        } else if chars_eq(line.as_slice(), end.as_slice()) {
            is_ignoring_lines = false;
        } else if !is_ignoring_lines {
            append_chars(&mut new_lines, line.as_slice());
            push_char(&mut new_lines, '\n');
        }
        i = i + 1;
    }
    assert(views(ls@).take(ls@.len() as int) =~= views(ls@));
    new_lines
}

/// Rewriting the lines `ls` from the state `st`.
spec fn update_from(st: (bool, Seq<char>), ls: Seq<Seq<char>>, updated: Seq<char>) -> (bool, Seq<char>)
    decreases ls.len(),
{
    if ls.len() == 0 {
        st
    } else {
        update_line(update_from(st, ls.drop_last(), updated), ls.last(), updated)
    }
}

proof fn lemma_update_lines_from(ls: Seq<Seq<char>>, updated: Seq<char>)
    ensures
        update_lines(ls, updated) == update_from((false, Seq::<char>::empty()), ls, updated),
    decreases ls.len(),
{
    if ls.len() > 0 {
        lemma_update_lines_from(ls.drop_last(), updated);
    }
}

proof fn lemma_update_from_append(st: (bool, Seq<char>), a: Seq<Seq<char>>, b: Seq<Seq<char>>, updated: Seq<char>)
    ensures
        update_from(st, a + b, updated) == update_from(update_from(st, a, updated), b, updated),
    decreases b.len(),
{
    if b.len() == 0 {
        assert(a + b =~= a);
    } else {
        lemma_update_from_append(st, a, b.drop_last(), updated);
        assert((a + b).drop_last() =~= a + b.drop_last());
        assert((a + b).last() == b.last());
    }
}

proof fn lemma_update_lines_append(a: Seq<Seq<char>>, b: Seq<Seq<char>>, updated: Seq<char>)
    ensures
        update_lines(a + b, updated) == update_from(update_lines(a, updated), b, updated),
{
    lemma_update_lines_from(a + b, updated);
    lemma_update_lines_from(a, updated);
    lemma_update_from_append((false, Seq::<char>::empty()), a, b, updated);
}

proof fn lemma_update_from_one(st: (bool, Seq<char>), x: Seq<char>, updated: Seq<char>)
    ensures
        update_from(st, seq![x], updated) == update_line(st, x, updated),
{
    assert(seq![x].drop_last() =~= Seq::<Seq<char>>::empty());
    assert(seq![x].last() == x);
    assert(update_from(st, Seq::<Seq<char>>::empty(), updated) == st);
}

/// Inside the managed part, lines that are no marker are dropped.
proof fn lemma_update_from_ignoring(out: Seq<char>, ls: Seq<Seq<char>>, updated: Seq<char>)
    requires
        forall|i: int| 0 <= i < ls.len() ==> ls[i] != UPDATE_MARKER_START@ && ls[i] != UPDATE_MARKER_END@,
    ensures
        update_from((true, out), ls, updated) == (true, out),
    decreases ls.len(),
{
    if ls.len() > 0 {
        lemma_update_from_ignoring(out, ls.drop_last(), updated);
    }
}

/// Whether the managed part is open after the lines `ls` does not depend
/// on the new contents.
proof fn lemma_update_flag(ls: Seq<Seq<char>>, u1: Seq<char>, u2: Seq<char>)
    ensures
        update_lines(ls, u1).0 == update_lines(ls, u2).0,
    decreases ls.len(),
{
    if ls.len() > 0 {
        lemma_update_flag(ls.drop_last(), u1, u2);
    }
}

/// Whether the contents put between the markers are empty or end in a
/// newline, and hold no marker line.
pub open spec fn managed_contents(updated: Seq<char>) -> bool {
    &&& updated.len() == 0 || updated.last() == '\n'
    &&& forall|i: int|
        0 <= i < lines_spec(updated).len() ==> lines_spec(updated)[i] != UPDATE_MARKER_START@
            && lines_spec(updated)[i] != UPDATE_MARKER_END@
}

/// Whether no line that a rewrite of `text` keeps (one outside the managed
/// part that is no marker) ends in a carriage return.
pub open spec fn no_kept_line_ends_in_cr(text: Seq<char>) -> bool {
    let ls = lines_spec(text);
    forall|i: int|
        0 <= i < ls.len() && !update_lines(ls.take(i), Seq::<char>::empty()).0 && ls[i] != UPDATE_MARKER_START@
            && ls[i] != UPDATE_MARKER_END@ ==> !(ls[i].len() > 0 && ls[i].last() == '\r')
}

/// The first `k` lines rewritten are read back by a second rewrite as they
/// stand.
proof fn lemma_rewrite_reads_back(ls: Seq<Seq<char>>, updated: Seq<char>, k: int)
    requires
        0 <= k <= ls.len(),
        managed_contents(updated),
        forall|i: int| 0 <= i < ls.len() ==> no_newline(#[trigger] ls[i]),
        forall|i: int|
            0 <= i < ls.len() && !update_lines(ls.take(i), updated).0 && ls[i] != UPDATE_MARKER_START@
                && ls[i] != UPDATE_MARKER_END@ ==> !(ls[i].len() > 0 && ls[i].last() == '\r'),
    ensures
        update_lines(ls.take(k), updated).1.len() == 0 || update_lines(ls.take(k), updated).1.last() == '\n',
        update_lines(lines_spec(update_lines(ls.take(k), updated).1), updated) == (
            false,
            update_lines(ls.take(k), updated).1,
        ),
    decreases k,
{
    let start = UPDATE_MARKER_START@;
    let end = UPDATE_MARKER_END@;
    if k == 0 {
        assert(ls.take(0) =~= Seq::<Seq<char>>::empty());
        let e = Seq::<char>::empty();
        assert(split_pieces(e, seq!['\n']) == seq![e]);
        assert(lines_spec(e) =~= Seq::<Seq<char>>::empty());
    } else {
        let j = k - 1;
        lemma_rewrite_reads_back(ls, updated, j);
        let st = update_lines(ls.take(j), updated);
        let out = st.1;
        let x = ls[j];
        assert(ls.take(k).drop_last() =~= ls.take(j));
        assert(ls.take(k).last() == x);
        assert(update_lines(ls.take(k), updated) == update_line(st, x, updated));
        reveal_strlit("## START BRANCHLESS CONFIG");
        reveal_strlit("## END BRANCHLESS CONFIG");
        assert(start.len() == 26);
        assert(end.len() == 24);
        assert(start != end);
        if x == start {
            let nl = seq!['\n'];
            let out2 = out + start + nl + updated + end + nl;
            assert(no_newline(start));
            assert(no_newline(end));
            lemma_lines_of_line(start);
            lemma_lines_of_line(end);
            assert(start + nl =~= start.push('\n'));
            assert(end + nl =~= end.push('\n'));
            assert(strip_cr(start) == start);
            assert(strip_cr(end) == end);
            let block = (start + nl) + (updated + (end + nl));
            assert(out2 =~= out + block);
            lemma_lines_append(out, block);
            lemma_lines_append(start + nl, updated + (end + nl));
            lemma_lines_append(updated, end + nl);
            let lu = lines_spec(updated);
            assert(lines_spec(block) =~= seq![start] + (lu + seq![end]));
            lemma_update_lines_append(lines_spec(out), seq![start] + (lu + seq![end]), updated);
            lemma_update_from_append((false, out), seq![start], lu + seq![end], updated);
            lemma_update_from_one((false, out), start, updated);
            lemma_update_from_append((true, out2), lu, seq![end], updated);
            lemma_update_from_ignoring(out2, lu, updated);
            lemma_update_from_one((true, out2), end, updated);
        } else if x == end {
        } else if !st.0 {
            assert(no_newline(x));
            lemma_lines_of_line(x);
            assert(x + seq!['\n'] =~= x.push('\n'));
            assert(strip_cr(x) == x);
            assert(out + x + seq!['\n'] =~= out + x.push('\n'));
            lemma_lines_append(out, x.push('\n'));
            lemma_update_lines_append(lines_spec(out), seq![x], updated);
            lemma_update_from_one((false, out), x, updated);
        }
    }
}

/// Rewriting a hook script twice with the same contents gives what one
/// rewrite gives, when those contents are empty or end in a newline and
/// hold no marker line, and no line that the rewrite keeps ends in a
/// carriage return.
pub proof fn lemma_update_between_lines_idempotent(text: Seq<char>, updated: Seq<char>)
    requires
        managed_contents(updated),
        no_kept_line_ends_in_cr(text),
    ensures
        update_between_lines_spec(update_between_lines_spec(text, updated), updated)
            == update_between_lines_spec(text, updated),
{
    let ls = lines_spec(text);
    lemma_lines_no_newline(text);
    assert forall|i: int|
        0 <= i < ls.len() && !update_lines(ls.take(i), updated).0 && ls[i] != UPDATE_MARKER_START@
            && ls[i] != UPDATE_MARKER_END@ implies !(ls[i].len() > 0 && ls[i].last() == '\r') by {
        lemma_update_flag(ls.take(i), updated, Seq::<char>::empty());
    }
    lemma_rewrite_reads_back(ls, updated, ls.len() as int);
    assert(ls.take(ls.len() as int) =~= ls);
}

/// The contents of a new hook script: the shebang line, then `contents`
/// between the markers.
pub open spec fn new_hook_contents_spec(contents: Seq<char>) -> Seq<char> {
    SHEBANG@ + seq!['\n'] + UPDATE_MARKER_START@ + seq!['\n'] + contents + seq!['\n']
        + UPDATE_MARKER_END@ + seq!['\n']
}

/// The contents of a new hook script that runs `contents`.
pub fn new_hook_contents(contents: &str) -> (r: String)
    ensures
        r@ == new_hook_contents_spec(contents@),
{
    let mut s = String::new();
    s.append(SHEBANG);
    push_char(&mut s, '\n');
    s.append(UPDATE_MARKER_START);
    push_char(&mut s, '\n');
    s.append(contents);
    push_char(&mut s, '\n');
    s.append(UPDATE_MARKER_END);
    push_char(&mut s, '\n');
    s
}

/// The contents of a hook script in a multi-hook directory, which belongs
/// to this tool entirely: the shebang line and `contents`.
pub fn multi_hook_contents(contents: &str) -> (r: String)
    ensures
        r@ == SHEBANG@ + seq!['\n'] + contents@,
{
    let mut s = String::new();
    s.append(SHEBANG);
    push_char(&mut s, '\n');
    s.append(contents);
    s
}

/// Whether aliases name a separate executable per subcommand
/// (`branchless-smartlog`) rather than a subcommand of one executable
/// (`branchless smartlog`). The separate executables come with the manual
/// pages, which this build does not install.
pub fn should_use_wrapped_command_alias() -> (r: bool)
    ensures
        !r,
{
    false
}

/// The Git command that the alias for subcommand `to` runs.
pub fn alias_command(to: &str) -> (r: String)
    ensures
        r@ == if should_use_wrapped_command_alias_spec() {
            "branchless-"@ + to@
        } else {
            "branchless "@ + to@
        },
{
    let mut s = if should_use_wrapped_command_alias() {
        "branchless-".to_owned()
    } else {
        "branchless ".to_owned()
    };
    s.append(to);
    s
}

/// The value that `should_use_wrapped_command_alias` returns.
pub open spec fn should_use_wrapped_command_alias_spec() -> bool {
    false
}

/// The configuration key of the alias `from`.
pub fn alias_config_key(from: &str) -> (r: String)
    ensures
        r@ == "alias."@ + from@,
{
    let mut s = "alias.".to_owned();
    s.append(from);
    s
}

/// The configuration keys that initialization sets and uninstallation
/// removes.
pub fn branchless_config_keys() -> (r: Vec<&'static str>)
    ensures
        r@.len() == 2,
        r@[0]@ == "branchless.core.mainBranch"@,
        r@[1]@ == "advice.detachedHead"@,
{
    vec!["branchless.core.mainBranch", "advice.detachedHead"]
}

/// The aliases that initialization installs, as `(alias, subcommand)`.
pub fn all_aliases() -> (r: Vec<(&'static str, &'static str)>)
    ensures
        r@.len() == 9,
        r@[0].0@ == "smartlog"@ && r@[0].1@ == "smartlog"@,
        r@[1].0@ == "sl"@ && r@[1].1@ == "smartlog"@,
        r@[2].0@ == "hide"@ && r@[2].1@ == "hide"@,
        r@[3].0@ == "unhide"@ && r@[3].1@ == "unhide"@,
        r@[4].0@ == "prev"@ && r@[4].1@ == "prev"@,
        r@[5].0@ == "next"@ && r@[5].1@ == "next"@,
        r@[6].0@ == "restack"@ && r@[6].1@ == "restack"@,
        r@[7].0@ == "undo"@ && r@[7].1@ == "undo"@,
        r@[8].0@ == "move"@ && r@[8].1@ == "move"@,
{
    vec![
        ("smartlog", "smartlog"),
        ("sl", "smartlog"),
        ("hide", "hide"),
        ("unhide", "unhide"),
        ("prev", "prev"),
        ("next", "next"),
        ("restack", "restack"),
        ("undo", "undo"),
        ("move", "move"),
    ]
}

/// The prefix of the names of the programs that stand for a subcommand.
pub const SUBCOMMAND_PREFIX: &'static str = "git-branchless-";

/// The arguments with which the program runs when it was started under the
/// name `git-branchless-<subcommand>` (`exe_name`, the file name of the
/// first argument, with the executable suffix `exe_suffix`, if any):
/// `git-branchless <subcommand>` followed by the other arguments. Other
/// arguments are left as they are.
pub open spec fn rewrite_args_spec(
    args: Seq<Seq<char>>,
    exe_name: Option<Seq<char>>,
    exe_suffix: Seq<char>,
) -> Seq<Seq<char>> {
    if args.len() == 0 {
        args
    } else {
        match exe_name {
            None => args,
            Some(name) => {
                let stem = if exe_suffix.len() <= name.len() && name.skip(name.len() - exe_suffix.len()) == exe_suffix {
                    name.take(name.len() - exe_suffix.len())
                } else {
                    name
                };
                if is_prefix(SUBCOMMAND_PREFIX@, stem) {
                    seq!["git-branchless"@, stem.skip(SUBCOMMAND_PREFIX@.len() as int)] + args.skip(1)
                } else {
                    args
                }
            },
        }
    }
}

/// Rewrite the arguments of a program started as `git-branchless-<subcommand>`
/// (see `rewrite_args_spec`); `exe_name` is the file name of the first
/// argument.
pub fn rewrite_args(args: Vec<String>, exe_name: Option<String>, exe_suffix: &str) -> (r: Vec<String>)
    ensures
        r@.map_values(|a: String| a@) == rewrite_args_spec(
            args@.map_values(|a: String| a@),
            match exe_name {
                Some(n) => Some(n@),
                None => None,
            },
            exe_suffix@,
        ),
{
    let ghost av = args@.map_values(|a: String| a@);
    if args.len() == 0 {
        return args;
    }
    let name = match exe_name {
        None => return args,
        Some(n) => n,
    };
    let chars = str_chars(name.as_str());
    let suffix = str_chars(exe_suffix);
    let stem: Vec<char> = if suffix.len() <= chars.len() && chars_eq(
        slice_chars(chars.as_slice(), chars.len() - suffix.len(), chars.len()).as_slice(),
        suffix.as_slice(),
    ) {
        proof {
            assert(chars@.subrange(chars@.len() - suffix@.len(), chars@.len() as int) =~= chars@.skip(
                chars@.len() - suffix@.len(),
            ));
        }
        let t = slice_chars(chars.as_slice(), 0, chars.len() - suffix.len());
        assert(t@ =~= chars@.take(chars@.len() - suffix@.len()));
        t
    } else {
        proof {
            if suffix@.len() <= chars@.len() {
                assert(chars@.subrange(chars@.len() - suffix@.len(), chars@.len() as int) =~= chars@.skip(
                    chars@.len() - suffix@.len(),
                ));
            }
        }
        chars
    };
    let prefix = str_chars(SUBCOMMAND_PREFIX);
    if !starts_with(stem.as_slice(), prefix.as_slice()) {
        return args;
    }
    let sub = slice_chars(stem.as_slice(), prefix.len(), stem.len());
    assert(sub@ =~= stem@.skip(SUBCOMMAND_PREFIX@.len() as int));
    let mut r: Vec<String> = Vec::new();
    r.push("git-branchless".to_owned());
    r.push(string_of_chars(sub.as_slice()));
    let mut i: usize = 1;
    assert(r@.map_values(|a: String| a@) =~= seq!["git-branchless"@, sub@] + av.skip(1).take(0));
    while i < args.len()
        invariant
            1 <= i <= args@.len(),
            av == args@.map_values(|a: String| a@),
            r@.map_values(|a: String| a@) == seq!["git-branchless"@, sub@] + av.skip(1).take(i - 1),
        decreases args@.len() - i,
    {
        let ghost before = r@.map_values(|a: String| a@);
        r.push(args[i].clone());
        assert(r@.map_values(|a: String| a@) =~= before.push(av[i as int]));
        assert(av.skip(1).take(i as int) =~= av.skip(1).take(i - 1).push(av[i as int]));
        i = i + 1;
    }
    assert(av.skip(1).take(args@.len() - 1) =~= av.skip(1));
    r
}

} // verus!
