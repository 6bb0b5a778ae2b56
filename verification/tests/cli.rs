//! The CLI is the contract: any diff-producing git command has to survive
//! `git` being swapped for `diffuse`. These cover diffuse's own flags, which
//! are the only arguments that must *not* reach git.

use diffuse::cli::{parse, Invocation, Parsed, Subcommand};

fn run(args: &[&str]) -> Invocation {
    match parse(args.iter().map(|s| s.to_string()).collect()) {
        Parsed::Run(i) => i,
        other => panic!("expected a run, got {other:?}"),
    }
}

#[test]
fn inline_all_is_diffuses_own_and_never_reaches_git() {
    let i = run(&["diff", "--inline-all", "main"]);
    assert!(i.inline_all);
    assert_eq!(i.args, vec!["main"]);
    assert_eq!(i.subcommand, Subcommand::Diff);
}

#[test]
fn inline_all_defaults_off() {
    assert!(!run(&["diff", "main"]).inline_all);
}

#[test]
fn a_pathspec_named_like_a_flag_is_still_a_pathspec() {
    // Everything after `--` belongs to git untouched, even a word diffuse
    // would otherwise claim for itself.
    let i = run(&["diff", "--", "--inline-all"]);
    assert!(!i.inline_all);
    assert_eq!(i.args, vec!["--", "--inline-all"]);
}

#[test]
fn unknown_flags_reach_git_untouched() {
    let i = run(&["diff", "-U10", "-w", "--some-future-flag", "main", "--", "src/"]);
    assert_eq!(i.args, vec!["-U10", "-w", "--some-future-flag", "main", "--", "src/"]);
    assert!(i.ignored.is_empty());
    assert_eq!(i.display_command(), "git diff -U10 -w --some-future-flag main -- src/");
}

#[test]
fn dropped_flags_are_reported_with_their_values() {
    let i = run(&["--stat", "--word-diff-regex", "x", "--no-color", "HEAD"]);
    assert_eq!(i.subcommand, Subcommand::Diff);
    assert_eq!(i.args, vec!["HEAD"]);
    assert_eq!(i.ignored, vec!["--stat", "--word-diff-regex"]);
    assert!(i.want_untracked && i.open_browser);
    let i = run(&["show", "--no-untracked", "--no-open", "abc"]);
    assert_eq!(i.subcommand, Subcommand::Show);
    assert!(!i.want_untracked && !i.open_browser);
    assert_eq!(i.subcommand.as_str(), "show");
}

#[test]
fn help_and_version_win() {
    assert!(matches!(parse(vec!["diff".into(), "--help".into()]), Parsed::Help));
    assert!(matches!(parse(vec!["-V".into()]), Parsed::Version));
}

#[test]
fn dropped_flags_are_announced_in_one_line() {
    let i = run(&["--stat", "--raw", "main"]);
    assert_eq!(
        i.ignored_notice().as_deref(),
        Some("diffuse: ignoring --stat, --raw (diffuse always renders the full patch)"),
    );
    assert_eq!(run(&["main"]).ignored_notice(), None);
}

#[test]
fn help_and_version_after_the_separator_are_pathspecs() {
    let i = run(&["diff", "--", "-h"]);
    assert_eq!(i.args, vec!["--", "-h"]);
    let i = run(&["show", "HEAD", "--", "--version", "--help"]);
    assert_eq!(i.subcommand, Subcommand::Show);
    assert_eq!(i.args, vec!["HEAD", "--", "--version", "--help"]);
    assert!(matches!(parse(vec!["-h".into(), "--".into()]), Parsed::Help));
}

#[test]
fn own_flags_after_the_separator_reach_git() {
    let i = run(&["diff", "--no-open", "HEAD", "--", "--no-open", "--no-color"]);
    assert!(!i.open_browser);
    assert_eq!(i.args, vec!["HEAD", "--", "--no-open", "--no-color"]);
    assert!(i.ignored.is_empty());
}
