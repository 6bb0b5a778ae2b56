//! What the server decides: who may ask, and what each answer holds.

use diffuse::highlight::{annotate_with, line_spans};
use diffuse::model::{FileDiff, FileEntry, Hunk, Line, LineKind, Span, Status};
use diffuse::server::{
    apply_ceiling, asset_path, authorized, dress, first_or_empty, hex_token, highlight_cost,
    highlight_plan, host_is_loopback, idle_tick, keep_requested, launch_settings, page_bounds,
    random_token, send_inline, serve_url, totals, untracked_paths_of, IDLE_GRACE_SECS,
    INLINE_LINE_CAP, LINE_CEILING,
};

fn line(kind: LineKind, old_no: Option<u32>, new_no: Option<u32>, content: &str) -> Line {
    Line { kind, old_no, new_no, content: content.to_string(), no_newline: false, words: None, syntax: None }
}

fn file_with_lines(path: &str, n: usize) -> FileDiff {
    let lines = (0..n).map(|i| line(LineKind::Add, None, Some(i as u32 + 1), "x")).collect();
    FileDiff {
        path: path.to_string(),
        hunks: vec![Hunk {
            header: String::new(),
            old_start: 0,
            old_lines: 0,
            new_start: 1,
            new_lines: n as u32,
            section: None,
            lines,
        }],
        ..Default::default()
    }
}

fn entry(path: &str, adds: u32, dels: u32, untracked: bool) -> FileEntry {
    FileEntry {
        path: path.to_string(),
        old_path: None,
        status: if untracked { Status::Untracked } else { Status::Modified },
        additions: adds,
        deletions: dels,
        binary: false,
        untracked,
    }
}

#[test]
fn only_loopback_hosts_are_answered() {
    assert!(host_is_loopback(Some("127.0.0.1:4000")));
    assert!(host_is_loopback(Some("localhost:4000")));
    assert!(host_is_loopback(Some("[::1]:4000")));
    assert!(host_is_loopback(Some("localhost")));
    assert!(!host_is_loopback(Some("evil.example:4000")));
    assert!(!host_is_loopback(Some("[::1]")));
    assert!(!host_is_loopback(None));
}

#[test]
fn a_request_needs_the_token_and_a_loopback_origin() {
    let h = Some("127.0.0.1:4000");
    assert!(authorized("tok", h, None, Some("tok"), None));
    assert!(authorized("tok", h, None, None, Some("tok")));
    assert!(authorized("tok", h, Some("http://localhost:4000"), None, Some("tok")));
    assert!(!authorized("tok", h, Some("http://evil.example"), None, Some("tok")));
    assert!(!authorized("tok", h, None, Some("bad"), Some("tok")));
    assert!(!authorized("tok", h, None, None, None));
    assert!(!authorized("tok", Some("evil.example"), None, Some("tok"), None));
}

#[test]
fn tokens_are_lowercase_hex() {
    assert_eq!(hex_token(&[0x00, 0xab, 0x0f, 0x90]), "00ab0f90");
    let t = random_token().expect("system randomness");
    assert_eq!(t.len(), 32);
    assert!(t.chars().all(|c| c.is_ascii_hexdigit() && !c.is_ascii_uppercase()));
    assert_ne!(t, random_token().unwrap());
}

#[test]
fn totals_and_the_inline_cap() {
    let files = vec![entry("a", 3, 1, false), entry("b", 5, 0, true)];
    assert_eq!(totals(&files), (8, 1));
    assert_eq!(send_inline(false, &files), (true, 9));
    let big = vec![entry("a", INLINE_LINE_CAP as u32, 1, false)];
    assert_eq!(send_inline(false, &big), (false, INLINE_LINE_CAP + 1));
    assert_eq!(send_inline(true, &big).0, true);
    let exact = vec![entry("a", INLINE_LINE_CAP as u32, 0, false)];
    assert!(send_inline(false, &exact).0);
}

#[test]
fn the_highlight_budget_is_spent_in_list_order() {
    assert_eq!(highlight_plan(&vec![3, 5, 2, 1], 6), vec![true, false, true, true]);
    assert_eq!(highlight_plan(&vec![7], 6), vec![false]);
    assert!(highlight_plan(&vec![], 6).is_empty());
    let f = file_with_lines("a", 4);
    assert_eq!(highlight_cost(&f, None), 4);
    assert_eq!(highlight_cost(&f, Some("one\ntwo\n")), 2);
}

#[test]
fn large_files_wait_to_be_asked_for() {
    let mut f = file_with_lines("big", LINE_CEILING + 1);
    assert!(!apply_ceiling(&mut f.clone(), true));
    assert!(apply_ceiling(&mut f, false));
    assert!(f.truncated);
    assert!(f.hunks.is_empty());
    let mut small = file_with_lines("small", LINE_CEILING);
    assert!(!apply_ceiling(&mut small, false));
    assert_eq!(small.hunks[0].lines.len(), LINE_CEILING);
}

#[test]
fn only_the_requested_file_is_kept() {
    let mut renamed = file_with_lines("new.rs", 1);
    renamed.old_path = Some("old.rs".into());
    let files = vec![file_with_lines("other.rs", 1), renamed];
    let kept = keep_requested(files, "old.rs");
    assert_eq!(kept.len(), 1);
    assert_eq!(kept[0].path, "new.rs");
    let f = first_or_empty(kept, "old.rs");
    assert_eq!(f.path, "new.rs");
    let f = first_or_empty(Vec::new(), "gone.rs");
    assert_eq!(f.path, "gone.rs");
    assert!(f.hunks.is_empty() && !f.binary && !f.truncated);
}

#[test]
fn untracked_paths_are_listed_once() {
    let files = vec![entry("n.txt", 1, 0, true), entry("m.rs", 1, 0, false), entry("n.txt", 1, 0, true), entry("o", 1, 0, true)];
    assert_eq!(untracked_paths_of(&files), vec!["n.txt", "o"]);
}

#[test]
fn commit_pages_default_and_cap() {
    assert_eq!(page_bounds(None, None), (0, 200));
    assert_eq!(page_bounds(Some(40), Some(1000)), (40, 500));
    assert_eq!(page_bounds(None, Some(20)), (0, 20));
}

fn piece(text: &str, names: &[&str]) -> (Vec<char>, Vec<Vec<char>>) {
    (text.chars().collect(), names.iter().map(|n| n.chars().collect()).collect())
}

#[test]
fn spans_follow_the_innermost_rule_and_merge_neighbours() {
    let pieces = vec![
        piece("let", &["source.rust", "storage.type.rust"]),
        piece(" ", &["source.rust"]),
        piece("x", &["source.rust", "variable.other.rust"]),
        piece(" = ", &["source.rust", "keyword.operator.assignment.rust"]),
        piece("\"a", &["source.rust", "string.quoted.double.rust", "punctuation.definition.string.begin.rust"]),
        piece("🎉\"", &["source.rust", "string.quoted.double.rust"]),
        piece("\\n", &["source.rust", "string.quoted.double.rust", "constant.character.escape.rust"]),
        piece(";\n", &["source.rust", "punctuation.terminator.rust"]),
    ];
    let spans = line_spans(&pieces);
    let got: Vec<(usize, usize, &str)> = spans.iter().map(|s| (s.start, s.end, s.class)).collect();
    assert_eq!(got, vec![(0, 3, "kw"), (8, 13, "str"), (13, 15, "esc")]);
}

#[test]
fn removals_take_their_classes_from_the_old_text() {
    let mut f = FileDiff {
        path: "a.rs".into(),
        hunks: vec![Hunk {
            header: String::new(),
            old_start: 1,
            old_lines: 1,
            new_start: 1,
            new_lines: 2,
            section: None,
            lines: vec![
                line(LineKind::Del, Some(1), None, "old"),
                line(LineKind::Add, None, Some(1), "new"),
                line(LineKind::Add, None, Some(9), "far"),
            ],
        }],
        ..Default::default()
    };
    let old = vec![vec![Span { start: 0, end: 3, class: "kw" }]];
    let new = vec![vec![], vec![]];
    annotate_with(&mut f, Some(old), Some(new));
    let l = &f.hunks[0].lines;
    assert_eq!(l[0].syntax.as_ref().unwrap()[0].class, "kw");
    assert!(l[1].syntax.is_none());
    assert!(l[2].syntax.is_none());
    let mut combined = FileDiff { combined: true, ..f.clone() };
    combined.hunks[0].lines[0].syntax = None;
    annotate_with(&mut combined, Some(vec![vec![Span { start: 0, end: 1, class: "kw" }]]), None);
    assert!(combined.hunks[0].lines[0].syntax.is_none());
}

#[test]
fn dressing_without_text_only_marks_words() {
    let mut f = FileDiff {
        path: "f.rs".into(),
        hunks: vec![Hunk {
            header: String::new(),
            old_start: 1,
            old_lines: 1,
            new_start: 1,
            new_lines: 1,
            section: None,
            lines: vec![line(LineKind::Del, Some(1), None, "a b c d"), line(LineKind::Add, None, Some(1), "a b x d")],
        }],
        ..Default::default()
    };
    let set = diffuse::highlight::bundled();
    dress(&mut f, &set, None, None);
    let l = &f.hunks[0].lines;
    assert_eq!(l[1].words.as_ref().map(|w| (w[0].start, w[0].end)), Some((4, 5)));
    assert!(l[0].syntax.is_none() && l[1].syntax.is_none());
    dress(&mut f, &set, Some("a b c d\n"), Some("fn x() {}\n"));
    assert!(f.hunks[0].lines[1].syntax.is_some());
}

#[test]
fn the_idle_watch_exits_after_the_grace_period() {
    assert_eq!(idle_tick(5, 1, 1), (0, false));
    assert_eq!(idle_tick(5, 0, 0), (0, false));
    assert_eq!(idle_tick(0, 0, 1), (1, false));
    assert_eq!(idle_tick(IDLE_GRACE_SECS - 1, 0, 2), (IDLE_GRACE_SECS, true));
}

#[test]
fn the_launch_url_carries_the_port_and_token() {
    assert_eq!(serve_url(43210, "ab12"), "http://127.0.0.1:43210/?t=ab12");
    assert_eq!(serve_url(0, "t"), "http://127.0.0.1:0/?t=t");
    let (port, token) = launch_settings(true);
    assert_eq!((port, token.as_deref()), (5177, Some("dev")));
    let (port, token) = launch_settings(false);
    assert_eq!(port, 0);
    assert_eq!(token.unwrap().len(), 32);
}

#[test]
fn asset_paths_drop_leading_slashes() {
    assert_eq!(asset_path("/"), "index.html");
    assert_eq!(asset_path(""), "index.html");
    assert_eq!(asset_path("/assets/app.js"), "assets/app.js");
    assert_eq!(asset_path("//x.css"), "x.css");
}
