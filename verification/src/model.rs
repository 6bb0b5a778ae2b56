//! Wire types. The client never sees raw diff text.
//!
//! Each type has a view over mathematical values (character sequences in
//! place of strings), which is what the contracts of the other modules speak of.

use vstd::prelude::*;

verus! {

/// What happened to a file.
#[derive(Debug, Clone, Copy, PartialEq, Eq, Structural)]
pub enum Status {
    Added,
    Deleted,
    Modified,
    Renamed,
    Copied,
    Untracked,
}

/// One row of the file list, with git's own line counts.
#[derive(Debug, Clone)]
pub struct FileEntry {
    pub path: String,
    pub old_path: Option<String>,
    pub status: Status,
    pub additions: u32,
    pub deletions: u32,
    pub binary: bool,
    pub untracked: bool,
}

/// A file list row over character sequences.
pub struct FileEntryView {
    pub path: Seq<char>,
    pub old_path: Option<Seq<char>>,
    pub status: Status,
    pub additions: u32,
    pub deletions: u32,
    pub binary: bool,
    pub untracked: bool,
}

/// The characters of an optional string.
pub open spec fn opt_view(o: Option<String>) -> Option<Seq<char>> {
    match o {
        Some(s) => Some(s@),
        None => None,
    }
}

impl View for FileEntry {
    type V = FileEntryView;

    open spec fn view(&self) -> FileEntryView {
        FileEntryView {
            path: self.path@,
            old_path: opt_view(self.old_path),
            status: self.status,
            additions: self.additions,
            deletions: self.deletions,
            binary: self.binary,
            untracked: self.untracked,
        }
    }
}

/// Whether a diff line is context, an addition or a removal.
#[derive(Debug, Clone, Copy, PartialEq, Eq, Structural)]
pub enum LineKind {
    Context,
    Add,
    Del,
}

/// A half-open `[start, end)` range of UTF-16 code units within a line's
/// content, marking the characters that actually changed.
#[derive(Debug, Clone, Copy, PartialEq, Eq, Structural)]
pub struct Range {
    pub start: usize,
    pub end: usize,
}

/// A run of characters sharing one syntax class. Offsets are UTF-16 code
/// units, like `Range`, so the browser can slice with them directly.
#[derive(Debug, Clone, PartialEq)]
pub struct Span {
    pub start: usize,
    pub end: usize,
    pub class: &'static str,
}

/// A span over character sequences.
pub struct SpanView {
    pub start: usize,
    pub end: usize,
    pub class: Seq<char>,
}

impl View for Span {
    type V = SpanView;

    open spec fn view(&self) -> SpanView {
        SpanView { start: self.start, end: self.end, class: self.class@ }
    }
}

/// The views of a sequence of spans.
pub open spec fn spans_view(s: Seq<Span>) -> Seq<SpanView> {
    s.map_values(|x: Span| x@)
}

/// The view of an optional list of spans.
pub open spec fn opt_spans_view(o: Option<Vec<Span>>) -> Option<Seq<SpanView>> {
    match o {
        Some(v) => Some(spans_view(v@)),
        None => None,
    }
}

/// The view of an optional list of ranges.
pub open spec fn opt_ranges_view(o: Option<Vec<Range>>) -> Option<Seq<Range>> {
    match o {
        Some(v) => Some(v@),
        None => None,
    }
}

/// One line of a hunk, with its numbers on each side.
#[derive(Debug, Clone)]
pub struct Line {
    pub kind: LineKind,
    pub old_no: Option<u32>,
    pub new_no: Option<u32>,
    pub content: String,
    pub no_newline: bool,
    /// Character ranges that differ from the paired line, when word-level
    /// diffing found a confident pairing.
    pub words: Option<Vec<Range>>,
    /// Syntax classes for this line, from highlighting the whole file.
    pub syntax: Option<Vec<Span>>,
}

/// A diff line over character sequences.
pub struct LineView {
    pub kind: LineKind,
    pub old_no: Option<u32>,
    pub new_no: Option<u32>,
    pub content: Seq<char>,
    pub no_newline: bool,
    pub words: Option<Seq<Range>>,
    pub syntax: Option<Seq<SpanView>>,
}

impl View for Line {
    type V = LineView;

    open spec fn view(&self) -> LineView {
        LineView {
            kind: self.kind,
            old_no: self.old_no,
            new_no: self.new_no,
            content: self.content@,
            no_newline: self.no_newline,
            words: opt_ranges_view(self.words),
            syntax: opt_spans_view(self.syntax),
        }
    }
}

/// The views of a sequence of lines.
pub open spec fn lines_view(s: Seq<Line>) -> Seq<LineView> {
    s.map_values(|l: Line| l@)
}

/// One `@@` hunk: its header's numbers and its lines.
#[derive(Debug, Clone)]
pub struct Hunk {
    pub header: String,
    pub old_start: u32,
    pub old_lines: u32,
    pub new_start: u32,
    pub new_lines: u32,
    /// The `@@ ... @@ <section>` trailer git emits, when present.
    pub section: Option<String>,
    pub lines: Vec<Line>,
}

/// A hunk over character sequences.
pub struct HunkView {
    pub header: Seq<char>,
    pub old_start: u32,
    pub old_lines: u32,
    pub new_start: u32,
    pub new_lines: u32,
    pub section: Option<Seq<char>>,
    pub lines: Seq<LineView>,
}

impl View for Hunk {
    type V = HunkView;

    open spec fn view(&self) -> HunkView {
        HunkView {
            header: self.header@,
            old_start: self.old_start,
            old_lines: self.old_lines,
            new_start: self.new_start,
            new_lines: self.new_lines,
            section: opt_view(self.section),
            lines: lines_view(self.lines@),
        }
    }
}

/// The views of a sequence of hunks.
pub open spec fn hunks_view(s: Seq<Hunk>) -> Seq<HunkView> {
    s.map_values(|h: Hunk| h@)
}

/// The parsed diff of one file.
#[derive(Debug, Clone)]
pub struct FileDiff {
    pub path: String,
    pub old_path: Option<String>,
    pub hunks: Vec<Hunk>,
    pub binary: bool,
    /// A combined diff from a merge commit: two columns of markers, rendered
    /// in a degraded read-only form.
    pub combined: bool,
    pub old_mode: Option<String>,
    pub new_mode: Option<String>,
    /// Set when the file exceeded the render ceiling and was not sent.
    pub truncated: bool,
}

/// A file's diff over character sequences.
pub struct FileDiffView {
    pub path: Seq<char>,
    pub old_path: Option<Seq<char>>,
    pub hunks: Seq<HunkView>,
    pub binary: bool,
    pub combined: bool,
    pub old_mode: Option<Seq<char>>,
    pub new_mode: Option<Seq<char>>,
    pub truncated: bool,
}

impl View for FileDiff {
    type V = FileDiffView;

    open spec fn view(&self) -> FileDiffView {
        FileDiffView {
            path: self.path@,
            old_path: opt_view(self.old_path),
            hunks: hunks_view(self.hunks@),
            binary: self.binary,
            combined: self.combined,
            old_mode: opt_view(self.old_mode),
            new_mode: opt_view(self.new_mode),
            truncated: self.truncated,
        }
    }
}

/// The views of a sequence of file diffs.
pub open spec fn files_view(s: Seq<FileDiff>) -> Seq<FileDiffView> {
    s.map_values(|f: FileDiff| f@)
}

/// The view of a file diff with every field at its default: no path, no
/// hunks, every flag off.
pub open spec fn empty_file_view() -> FileDiffView {
    FileDiffView {
        path: Seq::empty(),
        old_path: None,
        hunks: Seq::empty(),
        binary: false,
        combined: false,
        old_mode: None,
        new_mode: None,
        truncated: false,
    }
}

impl Default for FileDiff {
    fn default() -> (f: FileDiff)
        ensures
            f@ == empty_file_view(),
    {
        let f = FileDiff {
            path: String::new(),
            old_path: None,
            hunks: Vec::new(),
            binary: false,
            combined: false,
            old_mode: None,
            new_mode: None,
            truncated: false,
        };
        assert(f@.hunks =~= Seq::<HunkView>::empty());
        f
    }
}

} // verus!
