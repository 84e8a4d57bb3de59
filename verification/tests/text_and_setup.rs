use branchless::formatting::{Glyphs, Pluralize};
use branchless::helpers::{make_binary_description, CrosstermInput};
use branchless::hooks::{parse_reference_transaction_line, ReferenceTransactionError};
use branchless::init::{
    alias_command, alias_config_key, new_hook_contents, rewrite_args, update_between_lines, UPDATE_MARKER_END,
    UPDATE_MARKER_START,
};
use branchless::eventlog::{make_dummy_transaction_id, Event};
use branchless::oid::Oid;
use branchless::repo::{CategorizedReferenceName, GitVersion, GitVersionError, HeadInfo, ReferenceKind};
use branchless::text::{lines, sort_texts, sorted_distinct, str_chars, trim};

fn update_between_lines_case() {
    let input = format!(
        "\
hello, world
{}
contents 1
{}
goodbye, world
",
        UPDATE_MARKER_START, UPDATE_MARKER_END
    );
    let expected = format!(
        "\
hello, world
{}
contents 2
contents 3
{}
goodbye, world
",
        UPDATE_MARKER_START, UPDATE_MARKER_END
    );

    assert_eq!(
        update_between_lines(
            &input,
            "\
contents 2
contents 3
"
        ),
        expected
    )
}

#[test]
fn test_update_between_lines() {
    update_between_lines_case();
}

#[test]
fn init_test_update_between_lines() {
    update_between_lines_case();
}

#[test]
fn update_between_lines_twice_is_once() {
    let input = format!(
        "one\r\n{}\nold\n{}\ntwo\n{}\nunterminated",
        UPDATE_MARKER_START, UPDATE_MARKER_END, UPDATE_MARKER_START
    );
    let contents = "new 1\nnew 2\n";
    let once = update_between_lines(&input, contents);
    assert_eq!(
        once,
        format!(
            "one\n{}\nnew 1\nnew 2\n{}\ntwo\n{}\nnew 1\nnew 2\n{}\n",
            UPDATE_MARKER_START, UPDATE_MARKER_END, UPDATE_MARKER_START, UPDATE_MARKER_END
        )
    );
    assert_eq!(update_between_lines(&once, contents), once);
    // A kept line that ends in a carriage return loses it on the second rewrite.
    let once = update_between_lines("abc\r", "");
    assert_eq!(once, "abc\r\n");
    assert_eq!(update_between_lines(&once, ""), "abc\n");
}

#[test]
fn hook_contents_and_aliases() {
    assert_eq!(
        new_hook_contents("git branchless hook-post-commit \"$@\""),
        "#!/bin/sh\n## START BRANCHLESS CONFIG\ngit branchless hook-post-commit \"$@\"\n## END BRANCHLESS CONFIG\n"
    );
    assert_eq!(alias_command("smartlog"), "branchless smartlog");
    assert_eq!(alias_config_key("sl"), "alias.sl");
}

fn parsed_oid_text(text: &str) -> Option<String> {
    Some(Oid::from_str(text).unwrap().to_hex())
}

fn parse_reference_transaction_line_case() {
    let timestamp = 0.0f64.to_bits();
    let event_tx_id = make_dummy_transaction_id(789);
    let line = "123abc 456def refs/heads/mybranch";
    assert_eq!(
        parse_reference_transaction_line(line, timestamp, event_tx_id),
        Ok(Some(Event::RefUpdateEvent {
            timestamp,
            event_tx_id,
            old_ref: parsed_oid_text("123abc"),
            new_ref: parsed_oid_text("456def"),
            ref_name: String::from("refs/heads/mybranch"),
            message: None,
        }))
    );

    let line = "123abc 456def ORIG_HEAD";
    assert_eq!(parse_reference_transaction_line(line, timestamp, event_tx_id), Ok(None));

    let line = "there are not three fields here";
    assert!(parse_reference_transaction_line(line, timestamp, event_tx_id).is_err());
    assert_eq!(
        parse_reference_transaction_line(line, timestamp, event_tx_id),
        Err(ReferenceTransactionError::UnexpectedNumberOfFields)
    );
}

#[test]
fn test_parse_reference_transaction_line() {
    parse_reference_transaction_line_case();
}

#[test]
fn hooks_test_parse_reference_transaction_line() {
    parse_reference_transaction_line_case();
    // The same lines with a reference name outside `refs/`.
    let timestamp = 0.0f64.to_bits();
    let event_tx_id = make_dummy_transaction_id(789);
    let line = "123abc 456def mybranch";
    assert_eq!(
        parse_reference_transaction_line(line, timestamp, event_tx_id),
        Ok(Some(Event::RefUpdateEvent {
            timestamp,
            event_tx_id,
            old_ref: parsed_oid_text("123abc"),
            new_ref: parsed_oid_text("456def"),
            ref_name: String::from("mybranch"),
            message: None,
        }))
    );
    let line = "123abc 456def ORIG_HEAD";
    assert_eq!(parse_reference_transaction_line(line, timestamp, event_tx_id), Ok(None));
    let line = "there are not three fields here";
    assert!(parse_reference_transaction_line(line, timestamp, event_tx_id).is_err());
}

#[test]
fn reference_transaction_values_must_be_object_ids() {
    let timestamp = 0.0f64.to_bits();
    let event_tx_id = make_dummy_transaction_id(789);
    assert_eq!(
        parsed_oid_text("123abc"),
        Some(String::from("123abc0000000000000000000000000000000000"))
    );
    assert_eq!(
        parse_reference_transaction_line("xyz 456def refs/heads/a", timestamp, event_tx_id),
        Err(ReferenceTransactionError::InvalidOldOid)
    );
    assert_eq!(
        parse_reference_transaction_line("123abc ref:refs/heads/b refs/heads/a", timestamp, event_tx_id),
        Err(ReferenceTransactionError::InvalidNewOid)
    );
    // A reference that is not recorded is passed over before its values are read.
    assert_eq!(parse_reference_transaction_line("xyz xyz ORIG_HEAD", timestamp, event_tx_id), Ok(None));
    let zero = "0000000000000000000000000000000000000000";
    assert_eq!(
        parse_reference_transaction_line(&format!("{} 456DEF refs/heads/a", zero), timestamp, event_tx_id),
        Ok(Some(Event::RefUpdateEvent {
            timestamp,
            event_tx_id,
            old_ref: Some(String::from(zero)),
            new_ref: parsed_oid_text("456def"),
            ref_name: String::from("refs/heads/a"),
            message: None,
        }))
    );
}

#[test]
fn test_parse_git_version_output() {
    assert_eq!(GitVersion::from_str("git version 12.34.56").unwrap(), GitVersion(12, 34, 56));
    assert_eq!(GitVersion::from_str("git version 12.34.56\n").unwrap(), GitVersion(12, 34, 56));
    assert_eq!(GitVersion::from_str("git version 12.34.56.78.abcdef").unwrap(), GitVersion(12, 34, 56));
    assert_eq!(GitVersion::from_str("git version 2.33.0-rc0").unwrap(), GitVersion(2, 33, 0));
}

#[test]
fn git_version_errors() {
    assert_eq!(GitVersion::from_str("git version"), Err(GitVersionError::CouldNotParseOutput));
    assert_eq!(GitVersion::from_str("git version 2.33"), Err(GitVersionError::CouldNotParseVersion));
    assert_eq!(GitVersion::from_str("git version a.b.c"), Err(GitVersionError::InvalidNumber));
    assert!(GitVersion(2, 29, 0) < GitVersion(2, 31, 1));
}

#[test]
fn reference_names() {
    let branch = CategorizedReferenceName::new("refs/heads/main");
    assert_eq!(branch.kind(), ReferenceKind::LocalBranch);
    assert_eq!(branch.render_suffix(), "main");
    assert_eq!(branch.render_full(), "refs/heads/main");
    assert_eq!(branch.friendly_describe(), "branch main");
    let remote = CategorizedReferenceName::new("refs/remotes/origin/main");
    assert_eq!(remote.friendly_describe(), "remote branch origin/main");
    assert_eq!(remote.remove_prefix(), "origin/main");
    let other = CategorizedReferenceName::new("HEAD");
    assert_eq!(other.friendly_describe(), "ref HEAD");
    let head = HeadInfo { oid: None, reference_name: Some(String::from("refs/heads/feature")) };
    assert_eq!(head.get_branch_name(), Some(String::from("feature")));
    let detached = HeadInfo { oid: Some(Oid::zero()), reference_name: None };
    assert_eq!(detached.get_branch_name(), None);
}

#[test]
fn pluralize_and_glyphs() {
    assert_eq!(Pluralize { amount: 1, singular: "commit", plural: "commits" }.to_string(), "1 commit");
    assert_eq!(Pluralize { amount: 0, singular: "commit", plural: "commits" }.to_string(), "0 commits");
    assert_eq!(Pluralize { amount: -3, singular: "commit", plural: "commits" }.to_string(), "-3 commits");
    assert_eq!(Glyphs::text().commit_visible, "o");
    assert!(Glyphs::pretty().should_write_ansi_escape_codes);
}

#[test]
fn binary_descriptions() {
    assert_eq!(make_binary_description("abc123", 42), "abc123 (42 bytes)");
    assert_eq!(make_binary_description("", 0), " (0 bytes)");
    let mut input = CrosstermInput;
    assert_eq!(input.edit_commit_message("message"), "message");
}

#[test]
fn oid_text() {
    let oid = Oid::from_str("ABC").unwrap();
    assert_eq!(oid.to_hex(), "abc0000000000000000000000000000000000000");
    assert!(Oid::from_str("xyz").is_none());
    assert!(Oid::from_str("").is_none());
    assert!(Oid::from_str(&"a".repeat(41)).is_none());
    assert!(Oid::zero().is_zero());
    assert!(!oid.is_zero());
    assert!(Oid::zero().lt(&oid));
    assert!(!oid.lt(&oid));
}

#[test]
fn text_helpers() {
    let chars: String = trim(&str_chars("  a b \n")).into_iter().collect();
    assert_eq!(chars, "a b");
    let ls: Vec<String> = lines(&str_chars("one\r\ntwo\n\nthree")).into_iter().map(|l| l.into_iter().collect()).collect();
    assert_eq!(ls, vec!["one", "two", "", "three"]);
    let sorted = sorted_distinct(vec![String::from("b"), String::from("a"), String::from("b")]);
    assert_eq!(sorted, vec!["a", "b"]);
    let sorted = sort_texts(vec![String::from("b"), String::from("a"), String::from("b"), String::from("ab")]);
    assert_eq!(sorted, vec!["a", "ab", "b", "b"]);
}

#[test]
fn subcommand_programs_rewrite_their_arguments() {
    let args = |v: &[&str]| -> Vec<String> { v.iter().map(|s| s.to_string()).collect() };
    assert_eq!(
        rewrite_args(args(&["/usr/bin/git-branchless-smartlog", "-x"]), Some("git-branchless-smartlog".to_string()), ""),
        args(&["git-branchless", "smartlog", "-x"])
    );
    assert_eq!(
        rewrite_args(args(&["git-branchless-hide.exe", "abc"]), Some("git-branchless-hide.exe".to_string()), ".exe"),
        args(&["git-branchless", "hide", "abc"])
    );
    assert_eq!(
        rewrite_args(args(&["git-branchless", "smartlog"]), Some("git-branchless".to_string()), ""),
        args(&["git-branchless", "smartlog"])
    );
    assert_eq!(rewrite_args(args(&[".."]), None, ""), args(&[".."]));
    assert_eq!(rewrite_args(vec![], None, ""), Vec::<String>::new());
}
