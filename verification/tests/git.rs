//! The git layer: which commands run, and what their output means.

use diffuse::cli::{Invocation, Subcommand};
use diffuse::git::{
    classify, discover, head_commands, parse_numstat_z, plumbing, rev_check_command, sort_entries,
    untracked_entries, untracked_paths, GitError, GitOutput, LineTally, Repo, Runner,
};
use diffuse::model::{FileEntry, LineKind, Status};

fn inv(sub: Subcommand, args: &[&str]) -> Invocation {
    Invocation {
        subcommand: sub,
        args: args.iter().map(|s| s.to_string()).collect(),
        ignored: Vec::new(),
        want_untracked: true,
        open_browser: false,
        inline_all: false,
    }
}

fn runner(sub: Subcommand, args: &[&str]) -> Runner {
    Runner::new(Repo { root: "/repo".to_string() }, inv(sub, args))
}

fn ok(stdout: &str) -> GitOutput {
    GitOutput { success: true, stdout: stdout.to_string(), stderr: String::new() }
}

fn failed(stderr: &str) -> GitOutput {
    GitOutput { success: false, stdout: String::new(), stderr: stderr.to_string() }
}

fn entry(path: &str, adds: u32) -> FileEntry {
    FileEntry {
        path: path.to_string(),
        old_path: None,
        status: Status::Modified,
        additions: adds,
        deletions: 0,
        binary: false,
        untracked: false,
    }
}

#[test]
fn diff_commands_only_protect_the_parser() {
    let r = runner(Subcommand::Diff, &["-w", "main"]);
    assert_eq!(
        r.numstat_command(),
        vec!["-c", "core.quotepath=false", "diff", "--no-color", "--no-ext-diff", "--numstat", "-z", "-w", "main"],
    );
    assert_eq!(
        r.name_status_command(),
        vec!["-c", "core.quotepath=false", "diff", "--no-color", "--no-ext-diff", "--name-status", "-z", "-w", "main"],
    );
    assert_eq!(
        r.whole_patch_command(),
        vec!["-c", "core.quotepath=false", "diff", "--no-color", "--no-ext-diff", "-w", "main"],
    );
}

#[test]
fn show_gets_only_the_same_three_protections() {
    let r = runner(Subcommand::Show, &["abc"]);
    assert_eq!(
        r.numstat_command(),
        vec![
            "-c", "core.quotepath=false", "show", "--no-color", "--no-ext-diff", "--numstat", "-z",
            "abc",
        ],
    );
}

#[test]
fn a_files_patch_replaces_the_pathspec_and_names_both_sides_of_a_rename() {
    let r = runner(Subcommand::Diff, &["main", "--", "src/"]);
    assert_eq!(
        r.patch_command("b.rs", Some("a.rs")),
        vec![
            "--literal-pathspecs", "-c", "core.quotepath=false", "diff", "--no-color", "--no-ext-diff",
            "main", "--", "a.rs", "b.rs",
        ],
    );
    assert_eq!(
        r.patch_command("b.rs", None),
        vec![
            "--literal-pathspecs", "-c", "core.quotepath=false", "diff", "--no-color", "--no-ext-diff",
            "main", "--", "b.rs",
        ],
    );
}

#[test]
fn the_untracked_listing_keeps_the_users_pathspecs() {
    let r = runner(Subcommand::Diff, &["HEAD", "--", "src/"]);
    assert_eq!(r.untracked_command(), vec!["ls-files", "--others", "--exclude-standard", "-z", "--", "src/"]);
    let r = runner(Subcommand::Diff, &["HEAD"]);
    assert_eq!(r.untracked_command(), vec!["ls-files", "--others", "--exclude-standard", "-z"]);
}

#[test]
fn a_failed_command_reports_gits_own_words() {
    let r = runner(Subcommand::Diff, &["nope"]);
    let e = r.validate(&failed("fatal: bad revision 'nope'\n")).unwrap_err();
    assert_eq!(e.message, "git command failed");
    assert_eq!(e.describe(), "fatal: bad revision 'nope'");
    assert!(r.validate(&ok("")).is_ok());
    let e = GitError::could_not_run("no such file");
    assert_eq!(e.describe(), "could not run git: no such file");
}

#[test]
fn discover_trims_the_top_level() {
    let repo = discover(&ok("/home/me/repo\n")).unwrap();
    assert_eq!(repo.root, "/home/me/repo");
    let e = discover(&failed("fatal: not a git repository")).unwrap_err();
    assert_eq!(e.message, "not a git repository");
    assert_eq!(plumbing(&ok("abc1234\n")), Some("abc1234".to_string()));
    assert_eq!(plumbing(&failed("x")), None);
}

#[test]
fn a_patch_is_the_output_or_names_the_file() {
    let r = runner(Subcommand::Diff, &[]);
    assert_eq!(r.patch_for("a.rs", &ok("diff --git a/a.rs b/a.rs\n")).unwrap(), "diff --git a/a.rs b/a.rs\n");
    let e = r.patch_for("a.rs", &failed("boom")).unwrap_err();
    assert_eq!(e.message, "could not diff a.rs");
    assert_eq!(e.stderr, "boom");
}

#[test]
fn head_describes_a_detached_head_by_its_sha() {
    let cmds = head_commands();
    assert_eq!(cmds[0], vec!["rev-parse", "--short", "HEAD"]);
    let r = runner(Subcommand::Diff, &[]);
    let h = r.head(Some("abc1234".into()), None, Some("fix".into())).unwrap();
    assert!(h.detached);
    assert_eq!(h.branch, "detached at abc1234");
    assert_eq!(h.subject, "fix");
    let h = r.head(Some("abc1234".into()), Some("main".into()), None).unwrap();
    assert!(!h.detached);
    assert_eq!(h.branch, "main");
    assert_eq!(h.subject, "");
    assert!(r.head(None, Some("main".into()), None).is_none());
}

#[test]
fn numstat_records_become_entries() {
    let files = parse_numstat_z("3\t1\tsrc/a.rs\0-\t-\timg.png\05\t0\t\0old.rs\0new.rs\0");
    assert_eq!(files.len(), 3);
    assert_eq!((files[0].path.as_str(), files[0].additions, files[0].deletions), ("src/a.rs", 3, 1));
    assert!(!files[0].binary);
    assert!(files[1].binary);
    assert_eq!((files[1].additions, files[1].deletions), (0, 0));
    assert_eq!(files[2].path, "new.rs");
    assert_eq!(files[2].old_path.as_deref(), Some("old.rs"));
    assert_eq!(files[2].status, Status::Modified);
}

#[test]
fn name_status_sets_each_files_status() {
    let mut files = vec![entry("a.rs", 1), entry("new.rs", 2), entry("b.rs", 3), entry("c.rs", 4)];
    classify(&mut files, &ok("M\0a.rs\0R100\0old.rs\0new.rs\0A\0b.rs\0D\0c.rs\0"));
    let st: Vec<Status> = files.iter().map(|f| f.status).collect();
    assert_eq!(st, vec![Status::Modified, Status::Renamed, Status::Added, Status::Deleted]);
    let mut files = vec![entry("a.rs", 1)];
    classify(&mut files, &failed("x"));
    assert_eq!(files[0].status, Status::Modified);
}

#[test]
fn untracked_files_are_all_additions() {
    let paths = untracked_paths(&ok("new.txt\0dir/img.bin\0"));
    assert_eq!(paths, vec!["new.txt", "dir/img.bin"]);
    let files = untracked_entries(vec![
        ("new.txt".into(), Some((3, false))),
        ("gone.txt".into(), None),
        ("dir/img.bin".into(), Some((0, true))),
    ]);
    assert_eq!(files.len(), 2);
    assert_eq!(files[0].status, Status::Untracked);
    assert!(files[0].untracked);
    assert_eq!(files[0].additions, 3);
    assert!(files[1].binary);
}

#[test]
fn the_tally_counts_lines_across_chunks() {
    let mut t = LineTally::start(b"one\ntwo");
    assert!(t.wants_rest());
    t.feed(b" more\nthree");
    t.feed(b"");
    assert_eq!(t.finish(), (3, false));
    let t = LineTally::start(b"a\nb\n");
    assert_eq!(t.finish(), (2, false));
    let t = LineTally::start(b"bin\0ary");
    assert!(!t.wants_rest());
    assert_eq!(t.finish(), (0, true));
    let t = LineTally::start(b"");
    assert_eq!(t.finish(), (0, false));
}

#[test]
fn sorting_is_by_path_and_stable() {
    let mut second = entry("a.rs", 2);
    second.status = Status::Added;
    let sorted = sort_entries(&vec![entry("b.rs", 1), entry("a.rs", 1), entry("B.rs", 1), second]);
    let order: Vec<(&str, Status)> = sorted.iter().map(|f| (f.path.as_str(), f.status)).collect();
    assert_eq!(
        order,
        vec![("B.rs", Status::Modified), ("a.rs", Status::Modified), ("a.rs", Status::Added), ("b.rs", Status::Modified)],
    );
}

#[test]
fn the_file_list_adds_untracked_files_only_when_asked() {
    let r = runner(Subcommand::Diff, &[]);
    let numstat = ok("1\t0\tz.rs\0");
    let status = ok("M\0z.rs\0");
    let extra = vec![FileEntry { status: Status::Untracked, untracked: true, ..entry("a.txt", 2) }];
    let files = r.file_list(&numstat, &status, true, extra.clone()).unwrap();
    let paths: Vec<&str> = files.iter().map(|f| f.path.as_str()).collect();
    assert_eq!(paths, vec!["a.txt", "z.rs"]);
    let files = r.file_list(&numstat, &status, false, extra).unwrap();
    assert_eq!(files.len(), 1);
    let e = r.file_list(&failed("bad"), &status, true, Vec::new()).unwrap_err();
    assert_eq!(e.stderr, "bad");
}

#[test]
fn the_worktree_is_the_right_side_only_for_plain_diffs() {
    assert!(runner(Subcommand::Diff, &[]).worktree_is_right_side(&[]));
    let r = runner(Subcommand::Diff, &["main", "--", "x"]);
    assert_eq!(r.rev_candidates(), vec!["main"]);
    assert!(r.worktree_is_right_side(&[true]));
    assert!(!runner(Subcommand::Diff, &["--cached"]).worktree_is_right_side(&[]));
    assert!(!runner(Subcommand::Diff, &["a..b"]).worktree_is_right_side(&[false]));
    assert!(!runner(Subcommand::Diff, &["a", "b"]).worktree_is_right_side(&[true, true]));
    assert!(!runner(Subcommand::Show, &[]).worktree_is_right_side(&[]));
    assert_eq!(rev_check_command("main"), vec!["rev-parse", "--verify", "--quiet", "main^{commit}"]);
}

#[test]
fn commit_meta_reads_the_fields_and_spots_a_merge() {
    let r = runner(Subcommand::Show, &["-w", "abc"]);
    assert_eq!(
        r.commit_meta_command().unwrap(),
        vec!["show", "-s", "--format=%H%x00%an%x00%aI%x00%s%x00%b%x00%P", "abc"],
    );
    let m = r.commit_meta(Some("f00\0Ann\02024-01-01\0subject\0body text  \n\0p1 p2".into())).unwrap();
    assert_eq!((m.sha.as_str(), m.author.as_str(), m.subject.as_str()), ("f00", "Ann", "subject"));
    assert_eq!(m.body, "body text");
    assert!(m.merge);
    let m = r.commit_meta(Some("f00\0Ann".into())).unwrap();
    assert_eq!(m.date, "");
    assert!(!m.merge);
    assert!(runner(Subcommand::Diff, &[]).commit_meta(Some("x".into())).is_none());
    assert_eq!(runner(Subcommand::Show, &[]).commit_meta_command().unwrap()[3], "HEAD");
}

#[test]
fn an_untracked_file_is_one_hunk_of_additions() {
    let r = runner(Subcommand::Diff, &[]);
    let d = r.untracked_diff("new.txt", b"alpha\nbeta");
    assert_eq!(d.path, "new.txt");
    assert_eq!(d.hunks.len(), 1);
    let h = &d.hunks[0];
    assert_eq!(h.header, "@@ -0,0 +1,2 @@");
    assert_eq!((h.old_start, h.old_lines, h.new_start, h.new_lines), (0, 0, 1, 2));
    assert!(h.lines.iter().all(|l| l.kind == LineKind::Add && l.old_no.is_none()));
    assert_eq!(h.lines[1].new_no, Some(2));
    assert!(!h.lines[0].no_newline);
    assert!(h.lines[1].no_newline);
    let twelve = "x\n".repeat(12);
    assert_eq!(r.untracked_diff("t", twelve.as_bytes()).hunks[0].header, "@@ -0,0 +1,12 @@");
    assert!(r.untracked_diff("b", b"a\0b").binary);
    assert!(r.untracked_diff("e", b"").hunks.is_empty());
}

#[test]
fn undecodable_bytes_are_replaced() {
    let r = runner(Subcommand::Diff, &[]);
    assert_eq!(r.read_untracked(b"a\xffb"), "a\u{FFFD}b");
    let d = r.untracked_diff("f", b"caf\xc3\xa9\n");
    assert_eq!(d.hunks[0].lines[0].content, "café");
}

#[test]
fn the_tally_agrees_with_the_synthesized_diff() {
    let r = runner(Subcommand::Diff, &[]);
    for text in ["a\r\nb", "one\n\ntwo\n", "x", "caf\u{e9}\nna\u{ef}ve\n", "\n\n"] {
        let bytes = text.as_bytes();
        let cut = bytes.len().min(3);
        let mut t = LineTally::start(&bytes[..cut]);
        t.feed(&bytes[cut..]);
        let d = r.untracked_diff("f", bytes);
        let shown = d.hunks.first().map(|h| h.new_lines).unwrap_or(0);
        assert_eq!(t.finish(), (shown, false), "{text:?}");
    }
}
