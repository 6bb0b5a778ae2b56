//! The parser over patches in the shapes git prints them.

use diffuse::parse::{parse_patch, unquote_path};

/// A plain modification.
const MODIFY: &str = "diff --git a/hello.txt b/hello.txt\n\
index 3b18e51..a042389 100644\n\
--- a/hello.txt\n\
+++ b/hello.txt\n\
@@ -1,3 +1,3 @@\n one\n-two\n+TWO\n three\n";

/// Two hunks, each with the section heading git appends.
const HUNKS_SECTION: &str = "diff --git a/lib.rs b/lib.rs\n\
index 1111111..2222222 100644\n\
--- a/lib.rs\n\
+++ b/lib.rs\n\
@@ -1,4 +1,5 @@ fn first()\n a\n+b\n c\n d\n e\n\
@@ -10,3 +11,3 @@ fn second()\n x\n-y\n+Y\n z\n";

/// Lines that end in a carriage return before the line feed.
const CRLF: &str = "diff --git a/win.txt b/win.txt\n\
index 1111111..2222222 100644\n\
--- a/win.txt\n\
+++ b/win.txt\n\
@@ -1,2 +1,2 @@\n first\r\n-second\r\n+SECOND\r\n";

/// A merge commit's combined diff: one marker column per parent.
const COMBINED: &str = "diff --cc merged.txt\n\
index 1111111,2222222..3333333\n\
--- a/merged.txt\n\
+++ b/merged.txt\n\
@@@ -1,2 -1,2 +1,3 @@@\n  one\n- two\n +deux\n++three\n\
@@@ -8,1 -8,1 +9,2 @@@\n  eight\n++nine\n";

#[test]
fn unquotes_octal_escaped_utf8() {
    // Two octal escapes forming one multi-byte character.
    assert_eq!(unquote_path(r#""caf\303\251.txt""#), "café.txt");
    assert_eq!(unquote_path(r#""with\"quote.txt""#), "with\"quote.txt");
    assert_eq!(unquote_path(r#""tab\there.txt""#), "tab\there.txt");
    assert_eq!(unquote_path("plain.txt"), "plain.txt");
}

/// Line numbers must stay aligned with the hunk header, which is what makes a
/// diff navigable at all.
#[test]
fn line_numbers_track_hunk_headers() {
    for (name, text) in [("modify", MODIFY), ("hunks-section", HUNKS_SECTION), ("crlf", CRLF)] {
        for file in parse_patch(text) {
            for hunk in &file.hunks {
                let olds = hunk.lines.iter().filter_map(|l| l.old_no).collect::<Vec<_>>();
                let news = hunk.lines.iter().filter_map(|l| l.new_no).collect::<Vec<_>>();
                if let Some(&first) = olds.first() {
                    assert_eq!(first, hunk.old_start, "{name}: old start");
                }
                if let Some(&first) = news.first() {
                    assert_eq!(first, hunk.new_start, "{name}: new start");
                }
                assert_eq!(olds.len() as u32, hunk.old_lines, "{name}: old count");
                assert_eq!(news.len() as u32, hunk.new_lines, "{name}: new count");
                for w in olds.windows(2) {
                    assert_eq!(w[1], w[0] + 1, "{name}: old numbering gap");
                }
                for w in news.windows(2) {
                    assert_eq!(w[1], w[0] + 1, "{name}: new numbering gap");
                }
            }
        }
    }
}

/// A combined diff cannot carry a meaningful old-side line number: each `-`
/// marker belongs to a different parent. Reporting none beats reporting a
/// wrong one.
#[test]
fn combined_diff_omits_old_numbers_and_numbers_the_result() {
    let files = parse_patch(COMBINED);
    let file = files.iter().find(|f| f.combined).expect("combined file");
    for hunk in &file.hunks {
        for line in &hunk.lines {
            assert!(line.old_no.is_none(), "combined diff must not guess old numbers");
        }
        let news: Vec<u32> = hunk.lines.iter().filter_map(|l| l.new_no).collect();
        assert_eq!(news.first().copied(), Some(hunk.new_start));
        for w in news.windows(2) {
            assert_eq!(w[1], w[0] + 1, "result side must be contiguous");
        }
    }
}

#[test]
fn a_plain_modification_reports_no_old_path() {
    let files = parse_patch(MODIFY);
    assert_eq!(files.len(), 1);
    assert_eq!(files[0].path, "hello.txt");
    assert_eq!(files[0].old_path, None);
}

#[test]
fn a_rename_keeps_its_old_path() {
    let text = "diff --git a/old name.txt b/new name.txt\n\
similarity index 100%\n\
rename from old name.txt\n\
rename to new name.txt\n";
    let files = parse_patch(text);
    assert_eq!(files.len(), 1);
    assert_eq!(files[0].path, "new name.txt");
    assert_eq!(files[0].old_path.as_deref(), Some("old name.txt"));
    assert!(files[0].hunks.is_empty());
}

#[test]
fn a_missing_newline_marks_the_line_before_it() {
    let text = "diff --git a/f b/f\n--- a/f\n+++ b/f\n@@ -1 +1 @@\n-a\n\\ No newline at end of file\n+b\n";
    let files = parse_patch(text);
    let lines = &files[0].hunks[0].lines;
    assert!(lines[0].no_newline);
    assert!(!lines[1].no_newline);
}

#[test]
fn a_commit_header_before_the_first_file_is_skipped() {
    let header = "commit 0123456789abcdef\nAuthor: A U Thor <a@example.com>\n\n    diff --git in a message\n\n";
    let with = parse_patch(&format!("{header}{MODIFY}"));
    let without = parse_patch(MODIFY);
    assert_eq!(format!("{with:?}"), format!("{without:?}"));
    assert_eq!(with.len(), 1);
    assert_eq!(with[0].path, "hello.txt");
}

#[test]
fn a_merge_hunk_marks_its_file_combined() {
    let text = "diff --git a/m.txt b/m.txt\n@@@ -1,1 -1,1 +1,2 @@@\n  one\n++two\n";
    let files = parse_patch(text);
    assert!(files[0].combined);
    let h = &files[0].hunks[0];
    assert!(h.lines.iter().all(|l| l.old_no.is_none()));
    assert_eq!(h.lines.iter().filter_map(|l| l.new_no).collect::<Vec<_>>(), vec![1, 2]);
}

#[test]
fn numbers_end_where_the_header_counts_end() {
    let files = parse_patch(HUNKS_SECTION);
    let h = &files[0].hunks[1];
    let old: Vec<u32> = h.lines.iter().filter_map(|l| l.old_no).collect();
    let new: Vec<u32> = h.lines.iter().filter_map(|l| l.new_no).collect();
    assert_eq!(old, vec![10, 11, 12]);
    assert_eq!(new, vec![11, 12, 13]);
    assert_eq!(*old.last().unwrap(), h.old_start + h.old_lines - 1);
    assert_eq!(*new.last().unwrap(), h.new_start + h.new_lines - 1);
}

#[test]
fn a_quoted_path_reads_back_as_itself() {
    assert_eq!(unquote_path(r#""a\tb\001c\"d\\e\177.txt""#), "a\tb\u{1}c\"d\\e\u{7f}.txt");
    assert_eq!(unquote_path(r#""caf\303\251 \a\b\f\v\r\n""#), "caf\u{e9} \u{7}\u{8}\u{c}\u{b}\r\n");
    assert_eq!(unquote_path("plain.txt"), "plain.txt");
}
