//! Unified-diff parser.
//!
//! Hand-rolled: this is the core correctness of the product. Stats are *not*
//! derived here — they come from `git diff --numstat -z`, which is
//! authoritative. This module only produces renderable structure.

use vstd::prelude::*;
use vstd::utf8::*;

use crate::model::{
    empty_file_view, files_view, hunks_view, lines_view, FileDiff, FileDiffView, Hunk, HunkView,
    Line, LineKind, LineView,
};
use crate::text::{
    chars_of, same, starts_with, find, find_from, from_utf8_lossy, index_of_exec, index_of_from, lemma_find_from,
    lemma_index_of_from, lemma_run_end, parse_u32, parse_u32_exec, push_utf8, run_end, slice_of,
    string_from, trim, trim_end_char, trim_end_char_exec, trim_exec, trim_start, trim_start_exec,
    lemma_utf8_len_grows, lines_of, utf8_len, utf8_lossy, utf8_width_exec, vecs_view, words, words_of,
};

verus! {

/// Whether a character is an octal digit.
pub open spec fn is_oct(c: char) -> bool {
    '0' <= c && c <= '7'
}

/// The value of an octal digit.
pub open spec fn oct_val(c: char) -> nat {
    (c as u32 - '0' as u32) as nat
}

/// The byte a one-letter C escape stands for.
pub open spec fn simple_escape(c: char) -> Option<u8> {
    if c == 'n' {
        Some(10u8)
    } else if c == 't' {
        Some(9u8)
    } else if c == 'r' {
        Some(13u8)
    } else if c == 'a' {
        Some(7u8)
    } else if c == 'b' {
        Some(8u8)
    } else if c == 'f' {
        Some(12u8)
    } else if c == 'v' {
        Some(11u8)
    } else if c == '"' {
        Some(34u8)
    } else if c == '\\' {
        Some(92u8)
    } else {
        None
    }
}

/// How many more octal digits (at most two) follow the one at `j`.
pub open spec fn octal_extra(s: Seq<char>, j: int) -> int {
    if j + 1 < s.len() && is_oct(s[j + 1]) {
        if j + 2 < s.len() && is_oct(s[j + 2]) {
            2
        } else {
            1
        }
    } else {
        0
    }
}

/// The value of the octal digits `s[j..=j + k]`.
pub open spec fn octal_value(s: Seq<char>, j: int, k: int) -> nat {
    if k == 0 {
        oct_val(s[j])
    } else if k == 1 {
        oct_val(s[j]) * 8 + oct_val(s[j + 1])
    } else {
        oct_val(s[j]) * 64 + oct_val(s[j + 1]) * 8 + oct_val(s[j + 2])
    }
}

/// The bytes that git's C-style escaped text `s[i..]` stands for. A
/// backslash with nothing after it ends the text.
pub open spec fn unescape_from(s: Seq<char>, i: int) -> Seq<u8>
    decreases s.len() - i,
{
    if i < 0 || i >= s.len() {
        Seq::empty()
    } else if s[i] != '\\' {
        encode_utf8(seq![s[i]]) + unescape_from(s, i + 1)
    } else if i + 1 >= s.len() {
        Seq::empty()
    } else {
        let e = s[i + 1];
        match simple_escape(e) {
            Some(b) => seq![b] + unescape_from(s, i + 2),
            None => if is_oct(e) {
                let k = octal_extra(s, i + 1);
                seq![(octal_value(s, i + 1, k) % 256) as u8] + unescape_from(s, i + 2 + k)
            } else {
                encode_utf8(seq![e]) + unescape_from(s, i + 2)
            },
        }
    }
}

/// A path as git prints it, with C-style quoting decoded: text between
/// double quotes stands for the bytes its escapes give, read back as UTF-8
/// with invalid sequences replaced; anything else is the path itself.
pub open spec fn unquote(s: Seq<char>) -> Seq<char> {
    if s.len() >= 2 && s[0] == '"' && s[s.len() - 1] == '"' {
        utf8_lossy(unescape_from(s.subrange(1, s.len() - 1), 0))
    } else {
        s
    }
}

fn unescape(s: &Vec<char>) -> (out: Vec<u8>)
    ensures
        out@ == unescape_from(s@, 0),
{
    let mut out: Vec<u8> = Vec::new();
    let mut i: usize = 0;
    while i < s.len()
        invariant_except_break
            i <= s.len(),
            unescape_from(s@, 0) == out@ + unescape_from(s@, i as int),
        ensures
            unescape_from(s@, 0) == out@,
        decreases s.len() - i,
    {
        let ghost before = out@;
        let c = s[i];
        if c != '\\' {
            push_utf8(&mut out, c);
            i += 1;
            assert(unescape_from(s@, 0) =~= out@ + unescape_from(s@, i as int));
        } else if i + 1 >= s.len() {
            assert(unescape_from(s@, i as int) =~= Seq::<u8>::empty());
            assert(unescape_from(s@, 0) =~= out@);
            break;
        } else {
            let e = s[i + 1];
            let simple: Option<u8> = if e == 'n' {
                Some(10u8)
            } else if e == 't' {
                Some(9u8)
            } else if e == 'r' {
                Some(13u8)
            } else if e == 'a' {
                Some(7u8)
            } else if e == 'b' {
                Some(8u8)
            } else if e == 'f' {
                Some(12u8)
            } else if e == 'v' {
                Some(11u8)
            } else if e == '"' {
                Some(34u8)
            } else if e == '\\' {
                Some(92u8)
            } else {
                None
            };
            assert(simple == simple_escape(e));
            match simple {
                Some(b) => {
                    out.push(b);
                    i += 2;
                    assert(unescape_from(s@, 0) =~= out@ + unescape_from(s@, i as int));
                },
                None => {
                    if '0' <= e && e <= '7' {
                        let mut v: u32 = (e as u32) - ('0' as u32);
                        let mut j = i + 2;
                        if j < s.len() && '0' <= s[j] && s[j] <= '7' {
                            v = v * 8 + ((s[j] as u32) - ('0' as u32));
                            j += 1;
                            if j < s.len() && '0' <= s[j] && s[j] <= '7' {
                                v = v * 8 + ((s[j] as u32) - ('0' as u32));
                                j += 1;
                            }
                        }
                        assert(j == i + 2 + octal_extra(s@, i + 1));
                        assert(v == octal_value(s@, i + 1, octal_extra(s@, i + 1)));
                        out.push((v % 256) as u8);
                        i = j;
                        assert(unescape_from(s@, 0) =~= out@ + unescape_from(s@, i as int));
                    } else {
                        push_utf8(&mut out, e);
                        i += 2;
                        assert(unescape_from(s@, 0) =~= out@ + unescape_from(s@, i as int));
                    }
                },
            }
        }
    }
    out
}

/// Decode git's C-style path quoting. Even with `core.quotepath=false`, paths
/// containing `"`, `\` or control characters arrive quoted. Where the
/// escapes stand for valid UTF-8, the path is exactly its decoding.
pub fn unquote_path(s: &str) -> (r: String)
    ensures
        r@ == unquote(s@),
        s@.len() >= 2 && s@[0] == '"' && s@[s@.len() - 1] == '"' && valid_utf8(
            unescape_from(s@.subrange(1, s@.len() - 1), 0),
        ) ==> r@ == decode_utf8(unescape_from(s@.subrange(1, s@.len() - 1), 0)),
{
    let v = chars_of(s);
    unquote_chars(&v)
}

fn unquote_chars(v: &Vec<char>) -> (r: String)
    ensures
        r@ == unquote(v@),
        v@.len() >= 2 && v@[0] == '"' && v@[v@.len() - 1] == '"' && valid_utf8(
            unescape_from(v@.subrange(1, v@.len() - 1), 0),
        ) ==> r@ == decode_utf8(unescape_from(v@.subrange(1, v@.len() - 1), 0)),
{
    if v.len() >= 2 && v[0] == '"' && v[v.len() - 1] == '"' {
        let inner = slice_of(v, 1, v.len() - 1);
        let bytes = unescape(&inner);
        from_utf8_lossy(bytes.as_slice())
    } else {
        string_from(v.as_slice())
    }
}

/// A path with git's `a/` or `b/` side prefix removed.
pub open spec fn strip_side(p: Seq<char>) -> Seq<char> {
    if p.len() >= 2 && (p[0] == 'a' || p[0] == 'b') && p[1] == '/' {
        p.skip(2)
    } else {
        p
    }
}

/// A path from a header line: unquoted, then its side prefix removed.
pub open spec fn header_path(p: Seq<char>) -> Seq<char> {
    strip_side(unquote(p))
}

fn header_path_exec(p: &Vec<char>) -> (r: Vec<char>)
    ensures
        r@ == header_path(p@),
{
    let u = unquote_chars(p);
    let c = chars_of(u.as_str());
    if c.len() >= 2 && (c[0] == 'a' || c[0] == 'b') && c[1] == '/' {
        slice_of(&c, 2, c.len())
    } else {
        c
    }
}

/// In `s[i..]`, the index of the first double quote not escaped by a
/// backslash.
pub open spec fn quote_end(s: Seq<char>, i: int) -> Option<int>
    decreases s.len() - i,
{
    if i < 0 || i >= s.len() {
        None
    } else if s[i] == '\\' {
        if i + 1 >= s.len() {
            None
        } else {
            quote_end(s, i + 2)
        }
    } else if s[i] == '"' {
        Some(i)
    } else {
        quote_end(s, i + 1)
    }
}

/// A space whose encoding starts exactly at the middle byte of `s`, which
/// splits `s` in two halves of equal byte length.
pub open spec fn middle_space(s: Seq<char>, j: int) -> bool {
    0 <= j < s.len() && s[j] == ' ' && utf8_len(s.take(j)) == utf8_len(s) / 2
}

/// Split the text after `diff --git ` into its two paths. Paths may contain
/// spaces: a quoted left path ends at its closing quote; otherwise, when the
/// text starts with `a/`, the split is at the first ` b/`; failing both, a
/// space at the middle byte splits it, so that `--no-prefix` output still
/// renders.
pub open spec fn split_git_header(rest: Seq<char>) -> Option<(Seq<char>, Seq<char>)> {
    if rest.len() > 0 && rest[0] == '"' {
        match quote_end(rest.drop_first(), 0) {
            Some(e) => Some(
                (header_path(rest.take(e + 2)), header_path(trim_start(rest.skip(e + 2)))),
            ),
            None => None,
        }
    } else if rest.len() >= 2 && rest[0] == 'a' && rest[1] == '/' && find_from(
        rest,
        " b/"@,
        0,
    ) is Some {
        let at = find_from(rest, " b/"@, 0)->0;
        Some((header_path(rest.take(at)), header_path(rest.skip(at + 1))))
    } else if exists|j: int| middle_space(rest, j) {
        let j = choose|j: int| middle_space(rest, j);
        Some((header_path(rest.take(j)), header_path(rest.skip(j + 1))))
    } else {
        None
    }
}

fn split_git_header_exec(rest: &Vec<char>) -> (r: Option<(Vec<char>, Vec<char>)>)
    ensures
        match r {
            Some((a, b)) => split_git_header(rest@) == Some((a@, b@)),
            None => split_git_header(rest@) is None,
        },
{
    if rest.len() > 0 && rest[0] == '"' {
        let ghost stripped = rest@.drop_first();
        let mut i: usize = 1;
        let mut end: Option<usize> = None;
        while i < rest.len()
            invariant_except_break
                1 <= i <= rest.len(),
                rest.len() > 0,
                stripped == rest@.drop_first(),
                quote_end(stripped, 0) == quote_end(stripped, i - 1),
                end is None,
            ensures
                stripped == rest@.drop_first(),
                match end {
                    Some(e) => 1 <= e < rest.len() && quote_end(stripped, 0) == Some(e - 1),
                    None => quote_end(stripped, 0) is None,
                },
            decreases rest.len() - i,
        {
            if rest[i] == '\\' {
                if i + 1 >= rest.len() {
                    break;
                }
                i += 2;
            } else if rest[i] == '"' {
                end = Some(i);
                break;
            } else {
                i += 1;
            }
        }
        match end {
            Some(e) => {
                let left = slice_of(rest, 0, e + 1);
                let tail = slice_of(rest, e + 1, rest.len());
                let right = trim_start_exec(&tail);
                assert(left@ == rest@.take(e + 1));
                assert(tail@ == rest@.skip(e + 1));
                Some((header_path_exec(&left), header_path_exec(&right)))
            },
            None => None,
        }
    } else {
        let sep = chars_of(" b/");
        if rest.len() >= 2 && rest[0] == 'a' && rest[1] == '/' {
            match find(rest, &sep, 0) {
                Some(at) => {
                    proof {
                        lemma_find_from(rest@, sep@, 0);
                    }
                    let left = slice_of(rest, 0, at);
                    let right = slice_of(rest, at + 1, rest.len());
                    return Some((header_path_exec(&left), header_path_exec(&right)));
                },
                None => {},
            }
        }
        // The middle byte, and the character whose encoding starts there.

        let mut total: u128 = 0;
        let mut k: usize = 0;
        while k < rest.len()
            invariant
                k <= rest.len(),
                total == utf8_len(rest@.take(k as int)),
                total <= 4 * k,
            decreases rest.len() - k,
        {
            assert(rest@.take(k + 1).drop_last() =~= rest@.take(k as int));
            total = total + utf8_width_exec(rest[k]);
            k += 1;
        }
        assert(rest@.take(rest.len() as int) =~= rest@);
        let half = total / 2;
        let mut off: u128 = 0;
        let mut j: usize = 0;
        while j < rest.len() && off < half
            invariant
                j <= rest.len(),
                off == utf8_len(rest@.take(j as int)),
                off <= 4 * j,
                forall|t: int| 0 <= t < j ==> utf8_len(rest@.take(t)) < half,
            decreases rest.len() - j,
        {
            assert(rest@.take(j + 1).drop_last() =~= rest@.take(j as int));
            off = off + utf8_width_exec(rest[j]);
            j += 1;
        }
        if j < rest.len() && off == half && rest[j] == ' ' {
            assert(middle_space(rest@, j as int));
            proof {
                assert forall|t: int| middle_space(rest@, t) implies t == j by {
                    if t < j {
                        lemma_utf8_len_grows(rest@, t, j as int);
                    } else if t > j {
                        lemma_utf8_len_grows(rest@, j as int, t);
                    }
                }
            }
            let left = slice_of(rest, 0, j);
            let right = slice_of(rest, j + 1, rest.len());
            Some((header_path_exec(&left), header_path_exec(&right)))
        } else {
            proof {
                assert forall|t: int| !middle_space(rest@, t) by {
                    if 0 <= t < rest.len() {
                        if t < j {
                        } else if t > j {
                            lemma_utf8_len_grows(rest@, j as int, t);
                        }
                    }
                }
            }
            None
        }
    }
}

/// What a hunk header says.
pub struct HeaderSpec {
    pub old_start: u32,
    pub old_lines: u32,
    pub new_start: u32,
    pub new_lines: u32,
    pub section: Option<Seq<char>>,
    pub parents: nat,
}

/// `start,count` after a `-` or `+`: an unparsable start is 0, an
/// unparsable count is 0, and a missing count means exactly one line.
pub open spec fn range_field(nums: Seq<char>) -> (u32, u32) {
    let c1 = index_of_from(nums, ',', 0);
    let start = match parse_u32(nums.take(c1)) {
        Some(v) => v,
        None => 0u32,
    };
    let count = if c1 >= nums.len() {
        1u32
    } else {
        let rest = nums.skip(c1 + 1);
        match parse_u32(rest.take(index_of_from(rest, ',', 0))) {
            Some(v) => v,
            None => 0u32,
        }
    };
    (start, count)
}

/// Reading the words of a header range: the first `-` word gives the old
/// range, the last `+` word the new one (`0,1` when there is none).
pub open spec fn scan_fields(words: Seq<Seq<char>>) -> (Option<(u32, u32)>, (u32, u32))
    decreases words.len(),
{
    if words.len() == 0 {
        (None, (0u32, 1u32))
    } else {
        let (first_old, new) = scan_fields(words.drop_last());
        let w = words.last();
        if w.len() > 0 && w[0] == '-' {
            (
                if first_old is None {
                    Some(range_field(w.skip(1)))
                } else {
                    first_old
                },
                new,
            )
        } else if w.len() > 0 && w[0] == '+' {
            (first_old, range_field(w.skip(1)))
        } else {
            (first_old, new)
        }
    }
}

/// The closing marker of a header opened by `k` at-signs: `k` at-signs and a
/// space.
pub open spec fn closing_marker(k: nat) -> Seq<char> {
    Seq::new(k + 1, |t: int| if t < k { '@' } else { ' ' })
}

/// `@@ -12,7 +12,9 @@ section` or, for merge commits, `@@@ -1,7 -1,7 +1,9 @@@`:
/// a header opens with two or more at-signs, one more than the number of
/// parents.
pub open spec fn hunk_header(line: Seq<char>) -> Option<HeaderSpec> {
    let k = run_end(line, '@', 0);
    if k < 2 {
        None
    } else {
        let (body, section) = match find_from(line, closing_marker(k as nat), k) {
            Some(a) => {
                let sec = trim(line.skip(a + k + 1));
                (
                    trim(line.subrange(k, a)),
                    if sec.len() == 0 {
                        None
                    } else {
                        Some(sec)
                    },
                )
            },
            None => (trim(trim_end_char(trim(line.skip(k)), '@')), None),
        };
        let (first_old, new) = scan_fields(words_of(body));
        let (os, ol) = match first_old {
            Some(p) => p,
            None => (0u32, 0u32),
        };
        Some(
            HeaderSpec {
                old_start: os,
                old_lines: ol,
                new_start: new.0,
                new_lines: new.1,
                section,
                parents: (k - 1) as nat,
            },
        )
    }
}

struct HunkHeader {
    old_start: u32,
    old_lines: u32,
    new_start: u32,
    new_lines: u32,
    section: Option<Vec<char>>,
    parents: usize,
}

impl HunkHeader {
    spec fn view(&self) -> HeaderSpec {
        HeaderSpec {
            old_start: self.old_start,
            old_lines: self.old_lines,
            new_start: self.new_start,
            new_lines: self.new_lines,
            section: match self.section {
                Some(v) => Some(v@),
                None => None,
            },
            parents: self.parents as nat,
        }
    }
}

fn range_field_exec(nums: &Vec<char>) -> (r: (u32, u32))
    ensures
        r == range_field(nums@),
{
    let c1 = index_of_exec(nums, ',', 0);
    let head = slice_of(nums, 0, c1);
    let start = match parse_u32_exec(&head) {
        Some(v) => v,
        None => 0u32,
    };
    let count = if c1 >= nums.len() {
        1u32
    } else {
        proof {
            lemma_index_of_from(nums@, ',', 0);
        }
        let rest = slice_of(nums, c1 + 1, nums.len());
        assert(rest@ == nums@.skip(c1 + 1));
        let c2 = index_of_exec(&rest, ',', 0);
        proof {
            lemma_index_of_from(rest@, ',', 0);
        }
        let second = slice_of(&rest, 0, c2);
        match parse_u32_exec(&second) {
            Some(v) => v,
            None => 0u32,
        }
    };
    (start, count)
}

fn parse_hunk_header(line: &Vec<char>) -> (r: Option<HunkHeader>)
    ensures
        match r {
            Some(h) => hunk_header(line@) == Some(h.view()),
            None => hunk_header(line@) is None,
        },
{
    let mut k: usize = 0;
    while k < line.len() && line[k] == '@'
        invariant
            k <= line.len(),
            run_end(line@, '@', 0) == run_end(line@, '@', k as int),
        decreases line.len() - k,
    {
        k += 1;
    }
    if k < 2 {
        return None;
    }
    proof {
        lemma_run_end(line@, '@', 0);
    }
    let mut closing: Vec<char> = Vec::new();
    let mut t: usize = 0;
    while t < k
        invariant
            t <= k,
            closing@ == Seq::new(t as nat, |x: int| '@'),
        decreases k - t,
    {
        closing.push('@');
        t += 1;
        assert(closing@ =~= Seq::new(t as nat, |x: int| '@'));
    }
    closing.push(' ');
    assert(closing@ =~= closing_marker(k as nat));
    let (body, section) = match find(line, &closing, k) {
        Some(a) => {
            proof {
                lemma_find_from(line@, closing@, k as int);
            }
            let mid = slice_of(line, k, a);
            let after = slice_of(line, a + k + 1, line.len());
            let sec = trim_exec(&after);
            (trim_exec(&mid), if sec.len() == 0 {
                None
            } else {
                Some(sec)
            })
        },
        None => {
            let after = slice_of(line, k, line.len());
            let t1 = trim_exec(&after);
            let t2 = trim_end_char_exec(&t1, '@');
            (trim_exec(&t2), None)
        },
    };
    let ws = words(&body);
    let mut first_old: Option<(u32, u32)> = None;
    let mut new: (u32, u32) = (0, 1);
    let mut i: usize = 0;
    while i < ws.len()
        invariant
            i <= ws.len(),
            vecs_view(ws@) == words_of(body@),
            (first_old, new) == scan_fields(vecs_view(ws@).take(i as int)),
        decreases ws.len() - i,
    {
        let w = &ws[i];
        proof {
            assert(vecs_view(ws@).take(i + 1).drop_last() =~= vecs_view(ws@).take(i as int));
            assert(vecs_view(ws@)[i as int] == w@);
        }
        if w.len() > 0 && w[0] == '-' {
            if first_old.is_none() {
                let nums = slice_of(w, 1, w.len());
                first_old = Some(range_field_exec(&nums));
            }
        } else if w.len() > 0 && w[0] == '+' {
            let nums = slice_of(w, 1, w.len());
            new = range_field_exec(&nums);
        }
        i += 1;
    }
    assert(vecs_view(ws@).take(ws.len() as int) =~= vecs_view(ws@));
    let (os, ol) = match first_old {
        Some(p) => p,
        None => (0u32, 0u32),
    };
    Some(
        HunkHeader {
            old_start: os,
            old_lines: ol,
            new_start: new.0,
            new_lines: new.1,
            section,
            parents: k - 1,
        },
    )
}

/// The parser's state between lines.
pub struct PatchState {
    pub files: Seq<FileDiffView>,
    pub cur: Option<FileDiffView>,
    pub hunk: Option<HunkView>,
    pub old_no: u32,
    pub new_no: u32,
    pub parents: nat,
    pub in_binary: bool,
}

/// Nothing read yet.
pub open spec fn initial_state() -> PatchState {
    PatchState {
        files: Seq::empty(),
        cur: None,
        hunk: None,
        old_no: 0,
        new_no: 0,
        parents: 1,
        in_binary: false,
    }
}

/// The next line number, wrapping as release builds do.
pub open spec fn next_no(n: u32) -> u32 {
    if n == u32::MAX {
        0
    } else {
        (n + 1) as u32
    }
}

/// The open hunk, if any, joins the open file's hunks.
pub open spec fn close_hunk(st: PatchState) -> PatchState {
    match st.hunk {
        Some(h) => match st.cur {
            Some(f) => PatchState {
                cur: Some(FileDiffView { hunks: f.hunks.push(h), ..f }),
                hunk: None,
                ..st
            },
            None => PatchState { hunk: None, ..st },
        },
        None => st,
    }
}

/// The open file, if any, joins the finished files.
pub open spec fn flush_file(st: PatchState) -> PatchState {
    match st.cur {
        Some(f) => PatchState { files: st.files.push(f), cur: None, ..st },
        None => st,
    }
}

/// `diff --git <rest>` opens a file.
pub open spec fn open_git_file(st: PatchState, rest: Seq<char>) -> PatchState {
    let st1 = flush_file(close_hunk(st));
    let (old, new) = match split_git_header(rest) {
        Some(p) => p,
        None => (Seq::empty(), Seq::empty()),
    };
    PatchState {
        cur: Some(FileDiffView { path: new, old_path: Some(old), ..empty_file_view() }),
        in_binary: false,
        parents: 1,
        ..st1
    }
}

/// `diff --cc <path>` or `diff --combined <path>` opens a combined file.
pub open spec fn open_combined_file(st: PatchState, rest: Seq<char>) -> PatchState {
    let st1 = flush_file(close_hunk(st));
    PatchState {
        cur: Some(FileDiffView { path: unquote(rest), combined: true, ..empty_file_view() }),
        in_binary: false,
        ..st1
    }
}

/// A hunk header opens a hunk and resets the line counters.
pub open spec fn open_hunk(st: PatchState, raw: Seq<char>, h: HeaderSpec) -> PatchState {
    let st1 = close_hunk(st);
    let f = st1.cur->0;
    PatchState {
        cur: Some(
            if h.parents > 1 {
                FileDiffView { combined: true, ..f }
            } else {
                f
            },
        ),
        hunk: Some(
            HunkView {
                header: raw,
                old_start: h.old_start,
                old_lines: h.old_lines,
                new_start: h.new_start,
                new_lines: h.new_lines,
                section: h.section,
                lines: Seq::empty(),
            },
        ),
        old_no: h.old_start,
        new_no: h.new_start,
        parents: h.parents,
        ..st1
    }
}

/// The state with its current file replaced.
pub open spec fn set_file(st: PatchState, f: FileDiffView) -> PatchState {
    PatchState { cur: Some(f), ..st }
}

/// A line of the per-file header block, before any hunk.
pub open spec fn file_header_line(st: PatchState, raw: Seq<char>) -> PatchState {
    let f = st.cur->0;
    if "old mode "@.is_prefix_of(raw) {
        set_file(st, FileDiffView { old_mode: Some(trim(raw.skip("old mode "@.len() as int))), ..f })
    } else if "new mode "@.is_prefix_of(raw) {
        set_file(st, FileDiffView { new_mode: Some(trim(raw.skip("new mode "@.len() as int))), ..f })
    } else if "new file mode "@.is_prefix_of(raw) {
        set_file(
            st,
            FileDiffView {
                new_mode: Some(trim(raw.skip("new file mode "@.len() as int))),
                old_path: None,
                ..f
            },
        )
    } else if "deleted file mode "@.is_prefix_of(raw) {
        set_file(
            st,
            FileDiffView { old_mode: Some(trim(raw.skip("deleted file mode "@.len() as int))), ..f },
        )
    } else if "rename from "@.is_prefix_of(raw) {
        set_file(
            st,
            FileDiffView { old_path: Some(unquote(raw.skip("rename from "@.len() as int))), ..f },
        )
    } else if "rename to "@.is_prefix_of(raw) {
        set_file(st, FileDiffView { path: unquote(raw.skip("rename to "@.len() as int)), ..f })
    } else if "copy from "@.is_prefix_of(raw) {
        set_file(
            st,
            FileDiffView { old_path: Some(unquote(raw.skip("copy from "@.len() as int))), ..f },
        )
    } else if "copy to "@.is_prefix_of(raw) {
        set_file(st, FileDiffView { path: unquote(raw.skip("copy to "@.len() as int)), ..f })
    } else if "Binary files "@.is_prefix_of(raw) || "GIT binary patch"@.is_prefix_of(raw) {
        PatchState { cur: Some(FileDiffView { binary: true, ..f }), in_binary: true, ..st }
    } else if "--- "@.is_prefix_of(raw) {
        let p = raw.skip("--- "@.len() as int);
        if p != "/dev/null"@ {
            set_file(st, FileDiffView { old_path: Some(header_path(p)), ..f })
        } else {
            set_file(st, FileDiffView { old_path: None, ..f })
        }
    } else if "+++ "@.is_prefix_of(raw) {
        let p = raw.skip("+++ "@.len() as int);
        if p != "/dev/null"@ {
            set_file(st, FileDiffView { path: header_path(p), ..f })
        } else {
            st
        }
    } else {
        st
    }
}

/// `\ No newline at end of file` annotates the preceding line.
pub open spec fn mark_no_newline(st: PatchState) -> PatchState {
    let h = st.hunk->0;
    if h.lines.len() > 0 {
        let last = h.lines.last();
        PatchState {
            hunk: Some(
                HunkView {
                    lines: h.lines.update(
                        h.lines.len() - 1,
                        LineView { no_newline: true, ..last },
                    ),
                    ..h
                },
            ),
            ..st
        }
    } else {
        st
    }
}

/// A content line of the open hunk. In a combined diff each `-` belongs to
/// one specific parent, so no old-side number is reported.
pub open spec fn add_line(st: PatchState, kind: LineKind, content: Seq<char>) -> PatchState {
    let (o, n, old2, new2) = match kind {
        LineKind::Context => (
            Some(st.old_no),
            Some(st.new_no),
            next_no(st.old_no),
            next_no(st.new_no),
        ),
        LineKind::Del => (Some(st.old_no), None, next_no(st.old_no), st.new_no),
        LineKind::Add => (None, Some(st.new_no), st.old_no, next_no(st.new_no)),
    };
    let h = st.hunk->0;
    let line = LineView {
        kind,
        old_no: if st.parents > 1 {
            None
        } else {
            o
        },
        new_no: n,
        content,
        no_newline: false,
        words: None,
        syntax: None,
    };
    PatchState {
        hunk: Some(HunkView { lines: h.lines.push(line), ..h }),
        old_no: old2,
        new_no: new2,
        ..st
    }
}

/// The number of marker columns a line carries: one per parent.
pub open spec fn marker_count(st: PatchState, raw: Seq<char>) -> int {
    if st.parents < raw.len() {
        st.parents as int
    } else {
        raw.len() as int
    }
}

/// A line inside a hunk, classified by its marker columns.
pub open spec fn hunk_line(st: PatchState, raw: Seq<char>) -> PatchState {
    let n = marker_count(st, raw);
    let markers = raw.take(n);
    let content = raw.skip(n);
    if markers.contains('+') {
        add_line(st, LineKind::Add, content)
    } else if markers.contains('-') {
        add_line(st, LineKind::Del, content)
    } else if markers.len() > 0 && forall|i: int| 0 <= i < markers.len() ==> markers[i] == ' ' {
        add_line(st, LineKind::Context, content)
    } else {
        st
    }
}

/// One line of the patch. Anything before the first `diff` line (a commit
/// header from `git show`) is skipped.
pub open spec fn step(st: PatchState, raw: Seq<char>) -> PatchState {
    if "diff --git "@.is_prefix_of(raw) {
        open_git_file(st, raw.skip("diff --git "@.len() as int))
    } else if "diff --cc "@.is_prefix_of(raw) {
        open_combined_file(st, raw.skip("diff --cc "@.len() as int))
    } else if "diff --combined "@.is_prefix_of(raw) {
        open_combined_file(st, raw.skip("diff --combined "@.len() as int))
    } else if st.cur is None {
        st
    } else if hunk_header(raw) is Some {
        open_hunk(st, raw, hunk_header(raw)->0)
    } else if st.hunk is None {
        file_header_line(st, raw)
    } else if st.in_binary {
        st
    } else if raw.len() > 0 && raw[0] == '\\' {
        mark_no_newline(st)
    } else {
        hunk_line(st, raw)
    }
}

/// The state after reading `lines` in order.
pub open spec fn run(lines: Seq<Seq<char>>) -> PatchState
    decreases lines.len(),
{
    if lines.len() == 0 {
        initial_state()
    } else {
        step(run(lines.drop_last()), lines.last())
    }
}

/// A rename with no content change still reports its old path; an ordinary
/// modification does not.
pub open spec fn drop_same_old_path(f: FileDiffView) -> FileDiffView {
    if f.old_path == Some(f.path) {
        FileDiffView { old_path: None, ..f }
    } else {
        f
    }
}

/// The files of a patch.
pub open spec fn parse_patch_spec(text: Seq<char>) -> Seq<FileDiffView> {
    let st = flush_file(close_hunk(run(lines_of(text))));
    st.files.map_values(|f: FileDiffView| drop_same_old_path(f))
}

/// The literal prefixes the parser looks for, as characters.
struct Prefixes {
    git: Vec<char>,
    cc: Vec<char>,
    combined: Vec<char>,
    old_mode: Vec<char>,
    new_mode: Vec<char>,
    new_file_mode: Vec<char>,
    deleted_file_mode: Vec<char>,
    rename_from: Vec<char>,
    rename_to: Vec<char>,
    copy_from: Vec<char>,
    copy_to: Vec<char>,
    binary_files: Vec<char>,
    git_binary: Vec<char>,
    minus: Vec<char>,
    plus: Vec<char>,
    dev_null: Vec<char>,
}

impl Prefixes {
    spec fn wf(&self) -> bool {
        &&& self.git@ == "diff --git "@
        &&& self.cc@ == "diff --cc "@
        &&& self.combined@ == "diff --combined "@
        &&& self.old_mode@ == "old mode "@
        &&& self.new_mode@ == "new mode "@
        &&& self.new_file_mode@ == "new file mode "@
        &&& self.deleted_file_mode@ == "deleted file mode "@
        &&& self.rename_from@ == "rename from "@
        &&& self.rename_to@ == "rename to "@
        &&& self.copy_from@ == "copy from "@
        &&& self.copy_to@ == "copy to "@
        &&& self.binary_files@ == "Binary files "@
        &&& self.git_binary@ == "GIT binary patch"@
        &&& self.minus@ == "--- "@
        &&& self.plus@ == "+++ "@
        &&& self.dev_null@ == "/dev/null"@
    }

    fn new() -> (p: Prefixes)
        ensures
            p.wf(),
    {
        Prefixes {
            git: chars_of("diff --git "),
            cc: chars_of("diff --cc "),
            combined: chars_of("diff --combined "),
            old_mode: chars_of("old mode "),
            new_mode: chars_of("new mode "),
            new_file_mode: chars_of("new file mode "),
            deleted_file_mode: chars_of("deleted file mode "),
            rename_from: chars_of("rename from "),
            rename_to: chars_of("rename to "),
            copy_from: chars_of("copy from "),
            copy_to: chars_of("copy to "),
            binary_files: chars_of("Binary files "),
            git_binary: chars_of("GIT binary patch"),
            minus: chars_of("--- "),
            plus: chars_of("+++ "),
            dev_null: chars_of("/dev/null"),
        }
    }
}

/// `s` after the prefix `p`, which it starts with.
fn after(s: &Vec<char>, p: &Vec<char>) -> (r: Vec<char>)
    requires
        p@.is_prefix_of(s@),
    ensures
        r@ == s@.skip(p@.len() as int),
{
    slice_of(s, p.len(), s.len())
}

/// The view of an optional file diff.
pub open spec fn opt_file_view(o: Option<FileDiff>) -> Option<FileDiffView> {
    match o {
        Some(f) => Some(f@),
        None => None,
    }
}

/// The view of an optional hunk.
pub open spec fn opt_hunk_view(o: Option<Hunk>) -> Option<HunkView> {
    match o {
        Some(h) => Some(h@),
        None => None,
    }
}

struct Builder {
    files: Vec<FileDiff>,
    cur: Option<FileDiff>,
    hunk: Option<Hunk>,
    old_no: u32,
    new_no: u32,
    parents: usize,
    in_binary: bool,
}

impl Builder {
    spec fn view(&self) -> PatchState {
        PatchState {
            files: files_view(self.files@),
            cur: opt_file_view(self.cur),
            hunk: opt_hunk_view(self.hunk),
            old_no: self.old_no,
            new_no: self.new_no,
            parents: self.parents as nat,
            in_binary: self.in_binary,
        }
    }

    fn close_hunk(&mut self)
        ensures
            final(self).view() == close_hunk(old(self).view()),
    {
        if let Some(h) = self.hunk.take() {
            if let Some(mut f) = self.cur.take() {
                let ghost before = f.hunks@;
                f.hunks.push(h);
                assert(hunks_view(f.hunks@) =~= hunks_view(before).push(h@));
                self.cur = Some(f);
            }
        }
    }

    fn flush_file(&mut self)
        ensures
            final(self).view() == flush_file(old(self).view()),
    {
        if let Some(f) = self.cur.take() {
            let ghost before = self.files@;
            self.files.push(f);
            assert(files_view(self.files@) =~= files_view(before).push(f@));
        }
    }
}

fn new_file(path: Vec<char>, old_path: Option<Vec<char>>, combined: bool) -> (f: FileDiff)
    ensures
        f@ == (FileDiffView {
            path: path@,
            old_path: match old_path {
                Some(o) => Some(o@),
                None => None,
            },
            combined,
            ..empty_file_view()
        }),
{
    let f = FileDiff {
        path: string_from(path.as_slice()),
        old_path: match old_path {
            Some(o) => Some(string_from(o.as_slice())),
            None => None,
        },
        hunks: Vec::new(),
        binary: false,
        combined,
        old_mode: None,
        new_mode: None,
        truncated: false,
    };
    assert(f@.hunks =~= Seq::<HunkView>::empty());
    f
}

impl Builder {
    fn open_git_file(&mut self, rest: &Vec<char>)
        ensures
            final(self).view() == open_git_file(old(self).view(), rest@),
    {
        self.close_hunk();
        self.flush_file();
        let (old, new) = match split_git_header_exec(rest) {
            Some(p) => p,
            None => (Vec::new(), Vec::new()),
        };
        proof {
            if split_git_header(rest@) is None {
                assert(old@ =~= Seq::<char>::empty());
                assert(new@ =~= Seq::<char>::empty());
            }
        }
        self.cur = Some(new_file(new, Some(old), false));
        self.in_binary = false;
        self.parents = 1;
    }

    fn open_combined_file(&mut self, rest: &Vec<char>)
        ensures
            final(self).view() == open_combined_file(old(self).view(), rest@),
    {
        self.close_hunk();
        self.flush_file();
        let p = unquote_chars(rest);
        let pv = chars_of(p.as_str());
        self.cur = Some(new_file(pv, None, true));
        self.in_binary = false;
    }

    fn open_hunk(&mut self, raw: &Vec<char>, h: HunkHeader)
        requires
            old(self).cur is Some,
        ensures
            final(self).view() == open_hunk(old(self).view(), raw@, h.view()),
    {
        self.close_hunk();
        let mut f = self.cur.take().unwrap();
        if h.parents > 1 {
            f.combined = true;
        }
        self.cur = Some(f);
        self.old_no = h.old_start;
        self.new_no = h.new_start;
        self.parents = h.parents;
        let hk = Hunk {
            header: string_from(raw.as_slice()),
            old_start: h.old_start,
            old_lines: h.old_lines,
            new_start: h.new_start,
            new_lines: h.new_lines,
            section: match h.section {
                Some(v) => Some(string_from(v.as_slice())),
                None => None,
            },
            lines: Vec::new(),
        };
        assert(hk@.lines =~= Seq::<LineView>::empty());
        self.hunk = Some(hk);
    }

    fn file_header_line(&mut self, raw: &Vec<char>, px: &Prefixes)
        requires
            old(self).cur is Some,
            px.wf(),
        ensures
            final(self).view() == file_header_line(old(self).view(), raw@),
    {
        let mut f = self.cur.take().unwrap();
        if starts_with(raw, &px.old_mode) {
            f.old_mode = Some(string_from(trim_exec(&after(raw, &px.old_mode)).as_slice()));
        } else if starts_with(raw, &px.new_mode) {
            f.new_mode = Some(string_from(trim_exec(&after(raw, &px.new_mode)).as_slice()));
        } else if starts_with(raw, &px.new_file_mode) {
            f.new_mode = Some(string_from(trim_exec(&after(raw, &px.new_file_mode)).as_slice()));
            f.old_path = None;
        } else if starts_with(raw, &px.deleted_file_mode) {
            f.old_mode = Some(
                string_from(trim_exec(&after(raw, &px.deleted_file_mode)).as_slice()),
            );
        } else if starts_with(raw, &px.rename_from) {
            f.old_path = Some(unquote_chars(&after(raw, &px.rename_from)));
        } else if starts_with(raw, &px.rename_to) {
            f.path = unquote_chars(&after(raw, &px.rename_to));
        } else if starts_with(raw, &px.copy_from) {
            f.old_path = Some(unquote_chars(&after(raw, &px.copy_from)));
        } else if starts_with(raw, &px.copy_to) {
            f.path = unquote_chars(&after(raw, &px.copy_to));
        } else if starts_with(raw, &px.binary_files) || starts_with(raw, &px.git_binary) {
            f.binary = true;
            self.in_binary = true;
        } else if starts_with(raw, &px.minus) {
            let p = after(raw, &px.minus);
            if !same(&p, &px.dev_null) {
                f.old_path = Some(string_from(header_path_exec(&p).as_slice()));
            } else {
                f.old_path = None;
            }
        } else if starts_with(raw, &px.plus) {
            let p = after(raw, &px.plus);
            if !same(&p, &px.dev_null) {
                f.path = string_from(header_path_exec(&p).as_slice());
            }
        }
        self.cur = Some(f);
    }

    fn mark_no_newline(&mut self)
        requires
            old(self).hunk is Some,
        ensures
            final(self).view() == mark_no_newline(old(self).view()),
    {
        let mut h = self.hunk.take().unwrap();
        if h.lines.len() > 0 {
            let ghost before = h.lines@;
            let mut last = h.lines.pop().unwrap();
            last.no_newline = true;
            h.lines.push(last);
            assert(lines_view(h.lines@) =~= lines_view(before).update(
                before.len() - 1,
                last@,
            ));
        }
        self.hunk = Some(h);
    }

    fn add_line(&mut self, kind: LineKind, content: Vec<char>)
        requires
            old(self).hunk is Some,
        ensures
            final(self).view() == add_line(old(self).view(), kind, content@),
    {
        let (o, n) = match kind {
            LineKind::Context => {
                let v = (Some(self.old_no), Some(self.new_no));
                self.old_no = if self.old_no == u32::MAX {
                    0
                } else {
                    self.old_no + 1
                };
                self.new_no = if self.new_no == u32::MAX {
                    0
                } else {
                    self.new_no + 1
                };
                v
            },
            LineKind::Del => {
                let v = (Some(self.old_no), None);
                self.old_no = if self.old_no == u32::MAX {
                    0
                } else {
                    self.old_no + 1
                };
                v
            },
            LineKind::Add => {
                let v = (None, Some(self.new_no));
                self.new_no = if self.new_no == u32::MAX {
                    0
                } else {
                    self.new_no + 1
                };
                v
            },
        };
        let o = if self.parents > 1 {
            None
        } else {
            o
        };
        let line = Line {
            kind,
            old_no: o,
            new_no: n,
            content: string_from(content.as_slice()),
            no_newline: false,
            words: None,
            syntax: None,
        };
        let mut h = self.hunk.take().unwrap();
        let ghost before = h.lines@;
        h.lines.push(line);
        assert(lines_view(h.lines@) =~= lines_view(before).push(line@));
        self.hunk = Some(h);
    }

    fn hunk_line(&mut self, raw: &Vec<char>)
        requires
            old(self).hunk is Some,
        ensures
            final(self).view() == hunk_line(old(self).view(), raw@),
    {
        let n = if self.parents < raw.len() {
            self.parents
        } else {
            raw.len()
        };
        let mut plus = false;
        let mut minus = false;
        let mut all_space = true;
        let mut i: usize = 0;
        while i < n
            invariant
                n <= raw.len(),
                i <= n,
                plus == raw@.take(i as int).contains('+'),
                minus == raw@.take(i as int).contains('-'),
                all_space == forall|t: int| 0 <= t < i ==> raw@[t] == ' ',
            decreases n - i,
        {
            let c = raw[i];
            proof {
                let a = raw@.take(i as int);
                let b = raw@.take(i + 1);
                assert(b =~= a.push(c));
                if a.contains('+') {
                    let t = choose|t: int| 0 <= t < a.len() && a[t] == '+';
                    assert(b[t] == '+');
                }
                if a.contains('-') {
                    let t = choose|t: int| 0 <= t < a.len() && a[t] == '-';
                    assert(b[t] == '-');
                }
                if c == '+' {
                    assert(b[i as int] == '+');
                }
                if c == '-' {
                    assert(b[i as int] == '-');
                }
                if b.contains('+') && c != '+' {
                    let t = choose|t: int| 0 <= t < b.len() && b[t] == '+';
                    assert(a[t] == '+');
                }
                if b.contains('-') && c != '-' {
                    let t = choose|t: int| 0 <= t < b.len() && b[t] == '-';
                    assert(a[t] == '-');
                }
            }
            if c == '+' {
                plus = true;
            }
            if c == '-' {
                minus = true;
            }
            if c != ' ' {
                all_space = false;
            }
            i += 1;
        }
        let ghost markers = raw@.take(n as int);
        proof {
            assert(markers.len() == n);
            if all_space {
                assert forall|t: int| 0 <= t < markers.len() implies markers[t] == ' ' by {
                    assert(markers[t] == raw@[t]);
                }
            } else {
                let t = choose|t: int| !(0 <= t < i ==> raw@[t] == ' ');
                assert(markers[t] != ' ');
            }
        }
        let content = slice_of(raw, n, raw.len());
        if plus {
            self.add_line(LineKind::Add, content);
        } else if minus {
            self.add_line(LineKind::Del, content);
        } else if n > 0 && all_space {
            self.add_line(LineKind::Context, content);
        }
    }

    fn step(&mut self, raw: &Vec<char>, px: &Prefixes)
        requires
            px.wf(),
        ensures
            final(self).view() == step(old(self).view(), raw@),
    {
        if starts_with(raw, &px.git) {
            self.open_git_file(&after(raw, &px.git));
        } else if starts_with(raw, &px.cc) {
            self.open_combined_file(&after(raw, &px.cc));
        } else if starts_with(raw, &px.combined) {
            self.open_combined_file(&after(raw, &px.combined));
        } else if self.cur.is_none() {
        } else {
            match parse_hunk_header(raw) {
                Some(h) => {
                    self.open_hunk(raw, h);
                },
                None => {
                    if self.hunk.is_none() {
                        self.file_header_line(raw, px);
                    } else if self.in_binary {
                    } else if raw.len() > 0 && raw[0] == '\\' {
                        self.mark_no_newline();
                    } else {
                        self.hunk_line(raw);
                    }
                },
            }
        }
    }
}

/// The files of a unified diff, in order. Line numbers follow the hunk
/// headers; `\ No newline at end of file` marks the line before it; a
/// combined diff reports no old-side numbers.
pub fn parse_patch(text: &str) -> (files: Vec<FileDiff>)
    ensures
        files_view(files@) == parse_patch_spec(text@),
{
    let px = Prefixes::new();
    let chars = chars_of(text);
    let ls = crate::text::lines(&chars);
    let mut b = Builder {
        files: Vec::new(),
        cur: None,
        hunk: None,
        old_no: 0,
        new_no: 0,
        parents: 1,
        in_binary: false,
    };
    assert(b.view().files =~= Seq::<FileDiffView>::empty());
    let mut i: usize = 0;
    while i < ls.len()
        invariant
            px.wf(),
            i <= ls.len(),
            vecs_view(ls@) == lines_of(text@),
            b.view() == run(vecs_view(ls@).take(i as int)),
        decreases ls.len() - i,
    {
        proof {
            assert(vecs_view(ls@).take(i + 1).drop_last() =~= vecs_view(ls@).take(i as int));
        }
        b.step(&ls[i], &px);
        i += 1;
    }
    assert(vecs_view(ls@).take(ls.len() as int) =~= vecs_view(ls@));
    b.close_hunk();
    b.flush_file();
    let ghost flushed = b.files@;
    let mut files = b.files;
    let mut k: usize = 0;
    while k < files.len()
        invariant
            files.len() == flushed.len(),
            k <= files.len(),
            forall|t: int| 0 <= t < k ==> files@[t]@ == drop_same_old_path(flushed[t]@),
            forall|t: int| k <= t < files.len() ==> files@[t] == flushed[t],
        decreases files.len() - k,
    {
        let same_path = match &files[k].old_path {
            Some(o) => {
                let ov = chars_of(o.as_str());
                let pv = chars_of(files[k].path.as_str());
                same(&ov, &pv)
            },
            None => false,
        };
        if same_path {
            files[k].old_path = None;
        }
        k += 1;
    }
    assert(files_view(files@) =~= files_view(flushed).map_values(
        |f: FileDiffView| drop_same_old_path(f),
    ));
    files
}

/// `start + k` as a 32-bit line number, wrapping as release builds do.
pub open spec fn wrap_add(start: u32, k: int) -> u32 {
    ((start as int + k) % 0x1_0000_0000) as u32
}

/// `n` consecutive line numbers from `start`.
pub open spec fn counting(start: u32, n: nat) -> Seq<u32> {
    Seq::new(n, |i: int| wrap_add(start, i))
}

/// The old-side numbers that a hunk's lines carry, in order.
pub open spec fn old_numbers(lines: Seq<LineView>) -> Seq<u32>
    decreases lines.len(),
{
    if lines.len() == 0 {
        Seq::empty()
    } else {
        match lines.last().old_no {
            Some(v) => old_numbers(lines.drop_last()).push(v),
            None => old_numbers(lines.drop_last()),
        }
    }
}

/// The new-side numbers that a hunk's lines carry, in order.
pub open spec fn new_numbers(lines: Seq<LineView>) -> Seq<u32>
    decreases lines.len(),
{
    if lines.len() == 0 {
        Seq::empty()
    } else {
        match lines.last().new_no {
            Some(v) => new_numbers(lines.drop_last()).push(v),
            None => new_numbers(lines.drop_last()),
        }
    }
}

/// The number of parents a hunk's header line announces.
pub open spec fn parents_of(h: HunkView) -> nat {
    match hunk_header(h.header) {
        Some(hs) => hs.parents,
        None => 0,
    }
}

/// A hunk whose numbering follows its header: old-side numbers run
/// consecutively from the old start, new-side numbers from the new start,
/// and a hunk of a combined diff carries no old-side number.
pub open spec fn numbered(h: HunkView) -> bool {
    &&& old_numbers(h.lines) == counting(h.old_start, old_numbers(h.lines).len())
    &&& new_numbers(h.lines) == counting(h.new_start, new_numbers(h.lines).len())
    &&& parents_of(h) > 1 ==> old_numbers(h.lines).len() == 0
}

/// Every hunk of the file numbers its lines from its header.
pub open spec fn file_numbered(f: FileDiffView) -> bool {
    forall|j: int| 0 <= j < f.hunks.len() ==> numbered(#[trigger] f.hunks[j])
}

/// Every file numbers its lines from its hunk headers.
pub open spec fn files_numbered(fs: Seq<FileDiffView>) -> bool {
    forall|i: int| 0 <= i < fs.len() ==> file_numbered(#[trigger] fs[i])
}

spec fn state_numbered(st: PatchState) -> bool {
    &&& files_numbered(st.files)
    &&& (st.cur matches Some(f) ==> file_numbered(f))
    &&& (st.hunk matches Some(h) ==> {
        &&& numbered(h)
        &&& st.parents == parents_of(h)
        &&& st.new_no == wrap_add(h.new_start, new_numbers(h.lines).len() as int)
        &&& st.parents <= 1 ==> st.old_no == wrap_add(
            h.old_start,
            old_numbers(h.lines).len() as int,
        )
    })
}

pub(crate) proof fn lemma_next_no(start: u32, k: int)
    requires
        0 <= k,
    ensures
        next_no(wrap_add(start, k)) == wrap_add(start, k + 1),
{
    let m: int = 0x1_0000_0000;
    let x = start as int + k;
    assert(x % m == m - 1 ==> (x + 1) % m == 0) by (nonlinear_arith)
        requires
            m == 0x1_0000_0000,
            x >= 0,
    ;
    assert(x % m != m - 1 ==> (x + 1) % m == x % m + 1) by (nonlinear_arith)
        requires
            m == 0x1_0000_0000,
            x >= 0,
    ;
}

proof fn lemma_counting_push(start: u32, n: nat)
    ensures
        counting(start, n).push(wrap_add(start, n as int)) =~= counting(start, n + 1),
{
}

proof fn lemma_close_hunk_numbered(st: PatchState)
    requires
        state_numbered(st),
    ensures
        files_numbered(close_hunk(st).files),
        close_hunk(st).cur matches Some(f) ==> file_numbered(f),
        close_hunk(st).hunk is None,
{
    if let Some(h) = st.hunk {
        if let Some(f) = st.cur {
            let g = close_hunk(st).cur->0;
            assert forall|j: int| 0 <= j < g.hunks.len() implies numbered(#[trigger] g.hunks[j]) by {
                if j < f.hunks.len() {
                    assert(g.hunks[j] == f.hunks[j]);
                }
            }
        }
    }
}

proof fn lemma_flush_numbered(st: PatchState)
    requires
        files_numbered(st.files),
        st.cur matches Some(f) ==> file_numbered(f),
    ensures
        files_numbered(flush_file(st).files),
{
    if let Some(f) = st.cur {
        let fs = flush_file(st).files;
        assert forall|i: int| 0 <= i < fs.len() implies file_numbered(#[trigger] fs[i]) by {
            if i < st.files.len() {
                assert(fs[i] == st.files[i]);
            }
        }
    }
}

proof fn lemma_add_line_numbered(st: PatchState, kind: LineKind, content: Seq<char>)
    requires
        state_numbered(st),
        st.hunk is Some,
    ensures
        state_numbered(add_line(st, kind, content)),
{
    let h = st.hunk->0;
    let st2 = add_line(st, kind, content);
    let h2 = st2.hunk->0;
    let line = h2.lines.last();
    assert(h2.lines.drop_last() =~= h.lines);
    assert(h2.header == h.header);
    let on = old_numbers(h.lines);
    let nn = new_numbers(h.lines);
    if line.old_no is Some {
        assert(old_numbers(h2.lines) == on.push(st.old_no));
        lemma_counting_push(h.old_start, on.len());
        lemma_next_no(h.old_start, on.len() as int);
    } else {
        assert(old_numbers(h2.lines) == on);
    }
    if line.new_no is Some {
        assert(new_numbers(h2.lines) == nn.push(st.new_no));
        lemma_counting_push(h.new_start, nn.len());
        lemma_next_no(h.new_start, nn.len() as int);
    } else {
        assert(new_numbers(h2.lines) == nn);
    }
}

proof fn lemma_step_numbered(st: PatchState, raw: Seq<char>)
    requires
        state_numbered(st),
    ensures
        state_numbered(step(st, raw)),
{
    if "diff --git "@.is_prefix_of(raw) || "diff --cc "@.is_prefix_of(raw)
        || "diff --combined "@.is_prefix_of(raw) {
        lemma_close_hunk_numbered(st);
        lemma_flush_numbered(close_hunk(st));
        let st2 = step(st, raw);
        assert(st2.cur->0.hunks.len() == 0);
    } else if st.cur is None {
    } else if hunk_header(raw) is Some {
        lemma_close_hunk_numbered(st);
        let st2 = step(st, raw);
        let h = st2.hunk->0;
        assert(old_numbers(h.lines) =~= counting(h.old_start, 0));
        assert(new_numbers(h.lines) =~= counting(h.new_start, 0));
        assert(wrap_add(h.old_start, 0) == h.old_start);
        assert(wrap_add(h.new_start, 0) == h.new_start);
        let f = st2.cur->0;
        assert(f.hunks == close_hunk(st).cur->0.hunks);
    } else if st.hunk is None {
        let st2 = step(st, raw);
        assert(st2.cur->0.hunks == st.cur->0.hunks);
    } else if st.in_binary {
    } else if raw.len() > 0 && raw[0] == '\\' {
        let h = st.hunk->0;
        if h.lines.len() > 0 {
            let h2 = step(st, raw).hunk->0;
            assert(h2.lines.drop_last() =~= h.lines.drop_last());
            assert(old_numbers(h2.lines) == old_numbers(h.lines));
            assert(new_numbers(h2.lines) == new_numbers(h.lines));
        }
    } else {
        let n = marker_count(st, raw);
        let markers = raw.take(n);
        let content = raw.skip(n);
        if markers.contains('+') {
            lemma_add_line_numbered(st, LineKind::Add, content);
        } else if markers.contains('-') {
            lemma_add_line_numbered(st, LineKind::Del, content);
        } else if markers.len() > 0 && forall|i: int|
            0 <= i < markers.len() ==> markers[i] == ' ' {
            lemma_add_line_numbered(st, LineKind::Context, content);
        }
    }
}

proof fn lemma_run_numbered(lines: Seq<Seq<char>>)
    ensures
        state_numbered(run(lines)),
    decreases lines.len(),
{
    if lines.len() == 0 {
        assert(files_numbered(run(lines).files));
    } else {
        lemma_run_numbered(lines.drop_last());
        lemma_step_numbered(run(lines.drop_last()), lines.last());
    }
}

/// Line numbers stay aligned with the hunk headers: in every hunk of every
/// parsed file, the old-side numbers run consecutively from the header's old
/// start and the new-side numbers from its new start (wrapping past the
/// largest 32-bit number), and a hunk of a combined diff carries no old-side
/// number, since each `-` there belongs to a different parent.
pub proof fn law_line_numbers_follow_headers(text: Seq<char>)
    ensures
        files_numbered(parse_patch_spec(text)),
{
    let st = run(lines_of(text));
    lemma_run_numbered(lines_of(text));
    lemma_close_hunk_numbered(st);
    lemma_flush_numbered(close_hunk(st));
    let fs = flush_file(close_hunk(st)).files;
    let out = parse_patch_spec(text);
    assert forall|i: int| 0 <= i < out.len() implies file_numbered(#[trigger] out[i]) by {
        assert(out[i].hunks == fs[i].hunks);
        assert(file_numbered(fs[i]));
    }
}

/// A file's old path is only reported when it differs from its path.
pub proof fn law_old_path_differs(text: Seq<char>)
    ensures
        forall|i: int|
            0 <= i < parse_patch_spec(text).len() ==> parse_patch_spec(text)[i].old_path
                != Some(#[trigger] parse_patch_spec(text)[i].path),
{
}

/// Every hunk of the file that a header of three or more at-signs opened
/// (a merge's hunk) marks the file combined.
pub open spec fn file_merges_marked(f: FileDiffView) -> bool {
    forall|j: int| 0 <= j < f.hunks.len() && parents_of(#[trigger] f.hunks[j]) > 1 ==> f.combined
}

spec fn state_merges_marked(st: PatchState) -> bool {
    &&& forall|i: int| 0 <= i < st.files.len() ==> file_merges_marked(#[trigger] st.files[i])
    &&& (st.cur matches Some(f) ==> file_merges_marked(f))
    &&& (st.hunk matches Some(h) ==> st.cur is Some && (parents_of(h) > 1 ==> st.cur->0.combined))
}

proof fn lemma_close_flush_marked(st: PatchState)
    requires
        state_merges_marked(st),
    ensures
        state_merges_marked(close_hunk(st)),
        state_merges_marked(flush_file(close_hunk(st))),
{
    let s1 = close_hunk(st);
    if let Some(h) = st.hunk {
        let f = st.cur->0;
        let f2 = s1.cur->0;
        assert forall|j: int| 0 <= j < f2.hunks.len() && parents_of(#[trigger] f2.hunks[j]) > 1 implies f2.combined by {
            if j < f.hunks.len() {
                assert(f2.hunks[j] == f.hunks[j]);
            }
        }
    }
    let s2 = flush_file(s1);
    assert forall|i: int| 0 <= i < s2.files.len() implies file_merges_marked(#[trigger] s2.files[i]) by {
        if i < s1.files.len() {
            assert(s2.files[i] == s1.files[i]);
        }
    }
}

proof fn lemma_step_marked(st: PatchState, raw: Seq<char>)
    requires
        state_merges_marked(st),
    ensures
        state_merges_marked(step(st, raw)),
{
    lemma_close_flush_marked(st);
    if "diff --git "@.is_prefix_of(raw) || "diff --cc "@.is_prefix_of(raw)
        || "diff --combined "@.is_prefix_of(raw) {
        let st2 = step(st, raw);
        assert(st2.cur->0.hunks.len() == 0);
    } else if st.cur is None {
    } else if hunk_header(raw) is Some {
        let st2 = step(st, raw);
        let h = st2.hunk->0;
        assert(parents_of(h) == hunk_header(raw)->0.parents);
        let f1 = close_hunk(st).cur->0;
        let f2 = st2.cur->0;
        assert(f2.hunks == f1.hunks);
        assert(f1.combined ==> f2.combined);
    } else if st.hunk is None {
        let st2 = step(st, raw);
        assert(st2.cur->0.hunks == st.cur->0.hunks);
        assert(st2.cur->0.combined == st.cur->0.combined);
    } else if st.in_binary {
    } else if raw.len() > 0 && raw[0] == '\\' {
        let st2 = step(st, raw);
        assert(st2.hunk->0.header == st.hunk->0.header);
    } else {
        let st2 = step(st, raw);
        assert(st2.hunk->0.header == st.hunk->0.header);
    }
}

proof fn lemma_run_marked(lines: Seq<Seq<char>>)
    ensures
        state_merges_marked(run(lines)),
    decreases lines.len(),
{
    if lines.len() > 0 {
        lemma_run_marked(lines.drop_last());
        lemma_step_marked(run(lines.drop_last()), lines.last());
    }
}

/// A merge's hunk, one whose header opens with three or more at-signs,
/// marks its file combined, and carries no old-side line number.
pub proof fn law_merge_hunks_mark_file_combined(text: Seq<char>)
    ensures
        forall|i: int, j: int|
            0 <= i < parse_patch_spec(text).len() && 0 <= j < parse_patch_spec(text)[i].hunks.len()
                && parents_of(#[trigger] parse_patch_spec(text)[i].hunks[j]) > 1 ==> parse_patch_spec(
                text,
            )[i].combined && old_numbers(parse_patch_spec(text)[i].hunks[j].lines).len() == 0,
{
    law_line_numbers_follow_headers(text);
    let st = run(lines_of(text));
    lemma_run_marked(lines_of(text));
    lemma_close_flush_marked(st);
    let fs = flush_file(close_hunk(st)).files;
    let out = parse_patch_spec(text);
    assert forall|i: int, j: int|
        0 <= i < out.len() && 0 <= j < out[i].hunks.len() && parents_of(#[trigger] out[i].hunks[j]) > 1 implies out[i].combined
            && old_numbers(out[i].hunks[j].lines).len() == 0 by {
        assert(out[i].hunks == fs[i].hunks);
        assert(out[i].combined == fs[i].combined);
        assert(file_merges_marked(fs[i]));
        assert(file_numbered(out[i]));
        assert(numbered(out[i].hunks[j]));
    }
}

/// Whether a patch line opens a file.
pub open spec fn opens_file(raw: Seq<char>) -> bool {
    "diff --git "@.is_prefix_of(raw) || "diff --cc "@.is_prefix_of(raw)
        || "diff --combined "@.is_prefix_of(raw)
}

proof fn lemma_run_skips(lines: Seq<Seq<char>>)
    requires
        forall|k: int| 0 <= k < lines.len() ==> !opens_file(#[trigger] lines[k]),
    ensures
        run(lines) == initial_state(),
    decreases lines.len(),
{
    if lines.len() > 0 {
        lemma_run_skips(lines.drop_last());
        assert(!opens_file(lines[lines.len() - 1]));
    }
}

proof fn lemma_run_after(pre: Seq<Seq<char>>, lines: Seq<Seq<char>>)
    requires
        run(pre) == initial_state(),
    ensures
        run(pre + lines) == run(lines),
    decreases lines.len(),
{
    if lines.len() == 0 {
        assert(pre + lines =~= pre);
    } else {
        lemma_run_after(pre, lines.drop_last());
        assert((pre + lines).drop_last() =~= pre + lines.drop_last());
        assert((pre + lines).last() == lines.last());
    }
}

/// A header before the first file, such as the commit `git show` prints,
/// is skipped: where `h` is empty or ends with a line feed and none of its
/// lines opens a file, `h` followed by `t` parses as `t` alone.
pub proof fn law_leading_header_skipped(h: Seq<char>, t: Seq<char>)
    requires
        h.len() == 0 || h.last() == '\n',
        forall|k: int| 0 <= k < lines_of(h).len() ==> !opens_file(#[trigger] lines_of(h)[k]),
    ensures
        parse_patch_spec(h + t) == parse_patch_spec(t),
{
    crate::text::lemma_lines_concat(h, t);
    lemma_run_skips(lines_of(h));
    lemma_run_after(lines_of(h), lines_of(t));
}

/// The lines of a hunk that stand on the old side (context and removals).
pub open spec fn old_side_count(lines: Seq<LineView>) -> nat
    decreases lines.len(),
{
    if lines.len() == 0 {
        0
    } else {
        old_side_count(lines.drop_last()) + if lines.last().kind != LineKind::Add {
            1nat
        } else {
            0nat
        }
    }
}

/// The lines of a hunk that stand on the new side (context and additions).
pub open spec fn new_side_count(lines: Seq<LineView>) -> nat
    decreases lines.len(),
{
    if lines.len() == 0 {
        0
    } else {
        new_side_count(lines.drop_last()) + if lines.last().kind != LineKind::Del {
            1nat
        } else {
            0nat
        }
    }
}

spec fn sides_ok(h: HunkView) -> bool {
    forall|k: int|
        0 <= k < h.lines.len() ==> ((#[trigger] h.lines[k]).new_no is Some <==> h.lines[k].kind
            != LineKind::Del) && (parents_of(h) <= 1 ==> (h.lines[k].old_no is Some
            <==> h.lines[k].kind != LineKind::Add))
}

spec fn file_sides_ok(f: FileDiffView) -> bool {
    forall|j: int| 0 <= j < f.hunks.len() ==> sides_ok(#[trigger] f.hunks[j])
}

spec fn state_sides_ok(st: PatchState) -> bool {
    &&& forall|i: int| 0 <= i < st.files.len() ==> file_sides_ok(#[trigger] st.files[i])
    &&& (st.cur matches Some(f) ==> file_sides_ok(f))
    &&& (st.hunk matches Some(h) ==> sides_ok(h) && st.parents == parents_of(h))
}

proof fn lemma_close_flush_sides(st: PatchState)
    requires
        state_sides_ok(st),
    ensures
        state_sides_ok(close_hunk(st)),
        state_sides_ok(flush_file(close_hunk(st))),
{
    let s1 = close_hunk(st);
    if let Some(h) = st.hunk {
        if let Some(f) = st.cur {
            let f2 = s1.cur->0;
            assert forall|j: int| 0 <= j < f2.hunks.len() implies sides_ok(#[trigger] f2.hunks[j]) by {
                if j < f.hunks.len() {
                    assert(f2.hunks[j] == f.hunks[j]);
                }
            }
        }
    }
    let s2 = flush_file(s1);
    assert forall|i: int| 0 <= i < s2.files.len() implies file_sides_ok(#[trigger] s2.files[i]) by {
        if i < s1.files.len() {
            assert(s2.files[i] == s1.files[i]);
        }
    }
}

proof fn lemma_add_line_sides(st: PatchState, kind: LineKind, content: Seq<char>)
    requires
        state_sides_ok(st),
        st.hunk is Some,
    ensures
        state_sides_ok(add_line(st, kind, content)),
{
    let h = st.hunk->0;
    let h2 = add_line(st, kind, content).hunk->0;
    assert(h2.header == h.header);
    assert forall|k: int| 0 <= k < h2.lines.len() implies ((#[trigger] h2.lines[k]).new_no is Some
        <==> h2.lines[k].kind != LineKind::Del) && (parents_of(h2) <= 1 ==> (h2.lines[k].old_no is Some
        <==> h2.lines[k].kind != LineKind::Add)) by {
        if k < h.lines.len() {
            assert(h2.lines[k] == h.lines[k]);
        }
    }
}

proof fn lemma_step_sides(st: PatchState, raw: Seq<char>)
    requires
        state_sides_ok(st),
    ensures
        state_sides_ok(step(st, raw)),
{
    lemma_close_flush_sides(st);
    if opens_file(raw) {
        let st2 = step(st, raw);
        assert(st2.cur->0.hunks.len() == 0);
    } else if st.cur is None {
    } else if hunk_header(raw) is Some {
        let st2 = step(st, raw);
        assert(st2.hunk->0.lines.len() == 0);
        assert(st2.cur->0.hunks == close_hunk(st).cur->0.hunks);
    } else if st.hunk is None {
        let st2 = step(st, raw);
        assert(st2.cur->0.hunks == st.cur->0.hunks);
    } else if st.in_binary {
    } else if raw.len() > 0 && raw[0] == '\\' {
        let h = st.hunk->0;
        let h2 = step(st, raw).hunk->0;
        assert(h2.header == h.header);
        assert forall|k: int| 0 <= k < h2.lines.len() implies ((#[trigger] h2.lines[k]).new_no is Some
            <==> h2.lines[k].kind != LineKind::Del) && (parents_of(h2) <= 1 ==> (h2.lines[k].old_no
            is Some <==> h2.lines[k].kind != LineKind::Add)) by {
            assert(h2.lines[k].kind == h.lines[k].kind && h2.lines[k].old_no == h.lines[k].old_no
                && h2.lines[k].new_no == h.lines[k].new_no);
        }
    } else {
        let n = marker_count(st, raw);
        let markers = raw.take(n);
        let content = raw.skip(n);
        if markers.contains('+') {
            lemma_add_line_sides(st, LineKind::Add, content);
        } else if markers.contains('-') {
            lemma_add_line_sides(st, LineKind::Del, content);
        } else if markers.len() > 0 && forall|i: int| 0 <= i < markers.len() ==> markers[i] == ' ' {
            lemma_add_line_sides(st, LineKind::Context, content);
        }
    }
}

proof fn lemma_run_sides(lines: Seq<Seq<char>>)
    ensures
        state_sides_ok(run(lines)),
    decreases lines.len(),
{
    if lines.len() > 0 {
        lemma_run_sides(lines.drop_last());
        lemma_step_sides(run(lines.drop_last()), lines.last());
    }
}

proof fn lemma_side_counts(h: HunkView, n: int)
    requires
        sides_ok(h),
        0 <= n <= h.lines.len(),
    ensures
        new_numbers(h.lines.take(n)).len() == new_side_count(h.lines.take(n)),
        parents_of(h) <= 1 ==> old_numbers(h.lines.take(n)).len() == old_side_count(h.lines.take(n)),
    decreases n,
{
    if n > 0 {
        lemma_side_counts(h, n - 1);
        assert(h.lines.take(n).drop_last() =~= h.lines.take(n - 1));
        assert(h.lines.take(n).last() == h.lines[n - 1]);
    }
}

/// Each hunk numbers as many lines on each side as it holds there: the new
/// side counts its context and added lines from the header's new start,
/// and, outside a merge's hunk, the old side its context and removed lines
/// from the header's old start. So where a hunk holds as many of them as
/// its header announces, its numbers end at start + count - 1.
pub proof fn law_hunk_numbers_count_lines(text: Seq<char>)
    ensures
        forall|i: int, j: int|
            0 <= i < parse_patch_spec(text).len() && 0 <= j < parse_patch_spec(text)[i].hunks.len()
                ==> {
                let h = #[trigger] parse_patch_spec(text)[i].hunks[j];
                &&& new_numbers(h.lines) == counting(h.new_start, new_side_count(h.lines))
                &&& parents_of(h) <= 1 ==> old_numbers(h.lines) == counting(
                    h.old_start,
                    old_side_count(h.lines),
                )
            },
{
    law_line_numbers_follow_headers(text);
    let st = run(lines_of(text));
    lemma_run_sides(lines_of(text));
    lemma_close_flush_sides(st);
    let fs = flush_file(close_hunk(st)).files;
    let out = parse_patch_spec(text);
    assert forall|i: int, j: int|
        0 <= i < out.len() && 0 <= j < out[i].hunks.len() implies {
        let h = #[trigger] out[i].hunks[j];
        &&& new_numbers(h.lines) == counting(h.new_start, new_side_count(h.lines))
        &&& parents_of(h) <= 1 ==> old_numbers(h.lines) == counting(h.old_start, old_side_count(h.lines))
    } by {
        let h = out[i].hunks[j];
        assert(out[i].hunks == fs[i].hunks);
        assert(file_sides_ok(fs[i]));
        assert(sides_ok(h));
        assert(file_numbered(out[i]));
        assert(numbered(h));
        lemma_side_counts(h, h.lines.len() as int);
        assert(h.lines.take(h.lines.len() as int) =~= h.lines);
    }
}

/// An octal digit.
pub open spec fn oct_digit(d: nat) -> char {
    if d == 0 {
        '0'
    } else if d == 1 {
        '1'
    } else if d == 2 {
        '2'
    } else if d == 3 {
        '3'
    } else if d == 4 {
        '4'
    } else if d == 5 {
        '5'
    } else if d == 6 {
        '6'
    } else {
        '7'
    }
}

/// A byte as git writes it in octal: a backslash and three digits.
pub open spec fn octal_byte(b: u8) -> Seq<char> {
    seq!['\\', oct_digit((b / 64) as nat), oct_digit(((b / 8) % 8) as nat), oct_digit((b % 8) as nat)]
}

/// Bytes written in octal, one after another.
pub open spec fn octal_bytes(bs: Seq<u8>) -> Seq<char>
    decreases bs.len(),
{
    if bs.len() == 0 {
        Seq::empty()
    } else {
        octal_byte(bs[0]) + octal_bytes(bs.drop_first())
    }
}

/// How git writes one character of a path inside double quotes: a quote or
/// a backslash behind a backslash, the usual control characters by their
/// letter (`\a \b \t \n \v \f \r`), and anything else either as it is
/// or, where `octal` (as git does for other control characters, and with
/// `core.quotepath=true` for characters beyond ASCII), as the octal of each
/// of its UTF-8 bytes.
pub open spec fn git_escape(c: char, octal: bool) -> Seq<char> {
    let v = c as u32;
    if c == '"' || c == '\\' {
        seq!['\\', c]
    } else if v == 7 {
        seq!['\\', 'a']
    } else if v == 8 {
        seq!['\\', 'b']
    } else if v == 9 {
        seq!['\\', 't']
    } else if v == 10 {
        seq!['\\', 'n']
    } else if v == 11 {
        seq!['\\', 'v']
    } else if v == 12 {
        seq!['\\', 'f']
    } else if v == 13 {
        seq!['\\', 'r']
    } else if octal {
        octal_bytes(encode_utf8(seq![c]))
    } else {
        seq![c]
    }
}

/// A path as git writes it between the double quotes, each character
/// written as `octal` chooses for it.
pub open spec fn git_quoted(p: Seq<char>, octal: Seq<bool>) -> Seq<char>
    decreases p.len(),
{
    if p.len() == 0 {
        Seq::empty()
    } else {
        git_escape(p[0], octal[0]) + git_quoted(p.drop_first(), octal.drop_first())
    }
}

proof fn lemma_unescape_shift(a: Seq<char>, t: Seq<char>, j: int)
    requires
        0 <= j,
    ensures
        unescape_from(a + t, a.len() + j) == unescape_from(t, j),
    decreases t.len() - j,
{
    let s = a + t;
    let i = a.len() + j;
    if j < t.len() {
        assert(s[i] == t[j]);
        if j + 1 < t.len() {
            assert(s[i + 1] == t[j + 1]);
        }
        if j + 2 < t.len() {
            assert(s[i + 2] == t[j + 2]);
        }
        if j + 3 < t.len() {
            assert(s[i + 3] == t[j + 3]);
        }
        lemma_unescape_shift(a, t, j + 1);
        if j + 2 <= t.len() {
            lemma_unescape_shift(a, t, j + 2);
        }
        if j + 1 < t.len() && t[j] == '\\' && simple_escape(t[j + 1]) is None && is_oct(t[j + 1]) {
            let k = octal_extra(t, j + 1);
            assert(octal_extra(s, i + 1) == k);
            assert(octal_value(s, i + 1, k) == octal_value(t, j + 1, k));
            lemma_unescape_shift(a, t, j + 2 + k);
        }
    }
}

proof fn lemma_oct_digit(d: nat)
    requires
        d < 8,
    ensures
        is_oct(oct_digit(d)),
        oct_val(oct_digit(d)) == d,
        oct_digit(d) != '\\',
{
}

proof fn lemma_octal_byte(b: u8, t: Seq<char>)
    ensures
        unescape_from(octal_byte(b) + t, 0) == seq![b] + unescape_from(t, 0),
{
    let e = octal_byte(b);
    let s = e + t;
    let (d0, d1, d2) = ((b / 64) as nat, ((b / 8) % 8) as nat, (b % 8) as nat);
    assert(d0 < 8) by (nonlinear_arith)
        requires
            d0 == b / 64,
            b < 256,
    ;
    lemma_oct_digit(d0);
    lemma_oct_digit(d1);
    lemma_oct_digit(d2);
    assert(s[0] == '\\' && s[1] == e[1] && s[2] == e[2] && s[3] == e[3]);
    assert(octal_extra(s, 1) == 2);
    assert(d0 * 64 + d1 * 8 + d2 == b) by (nonlinear_arith)
        requires
            d0 == b / 64,
            d1 == (b / 8) % 8,
            d2 == b % 8,
            b < 256,
    ;
    assert(octal_value(s, 1, 2) == b);
    assert(simple_escape(oct_digit(d0)) is None);
    lemma_unescape_shift(e, t, 0);
}

proof fn lemma_octal_bytes(bs: Seq<u8>, t: Seq<char>)
    ensures
        unescape_from(octal_bytes(bs) + t, 0) == bs + unescape_from(t, 0),
    decreases bs.len(),
{
    if bs.len() > 0 {
        lemma_octal_bytes(bs.drop_first(), t);
        assert(octal_bytes(bs) + t =~= octal_byte(bs[0]) + (octal_bytes(bs.drop_first()) + t));
        lemma_octal_byte(bs[0], octal_bytes(bs.drop_first()) + t);
        assert(seq![bs[0]] + (bs.drop_first() + unescape_from(t, 0)) =~= bs + unescape_from(t, 0));
    } else {
        assert(octal_bytes(bs) + t =~= t);
        assert(bs + unescape_from(t, 0) =~= unescape_from(t, 0));
    }
}

proof fn lemma_escape_one(c: char, octal: bool, t: Seq<char>)
    ensures
        unescape_from(git_escape(c, octal) + t, 0) == encode_utf8(seq![c]) + unescape_from(t, 0),
{
    let e = git_escape(c, octal);
    let s = e + t;
    let v = c as u32;
    lemma_unescape_shift(e, t, 0);
    assert(encode_utf8(seq![c]) == encode_scalar(v) + encode_utf8(seq![c].drop_first()));
    assert(seq![c].drop_first() =~= Seq::<char>::empty());
    if c == '"' || c == '\\' || (v >= 7 && v <= 13) {
        assert(s[0] == e[0]);
        assert(s[1] == e[1]);
        assert(has_width_1_encoding(v));
        assert(v & 0x7f == v) by (bit_vector)
            requires
                v < 0x80,
        ;
    } else if octal {
        lemma_octal_bytes(encode_utf8(seq![c]), t);
    } else {
        assert(s[0] == e[0]);
        assert(e =~= seq![c]);
    }
}

/// Decoding git's quoting gives back the path: however git writes each
/// character of a path (by a backslash escape, as the octal of its bytes,
/// or as it is), the escapes stand for exactly the path's UTF-8 bytes,
/// which are valid UTF-8 and decode to the path again. With
/// `unquote_path`'s contract, a path git quotes reads back as itself.
pub proof fn law_git_quoting_round_trips(p: Seq<char>, octal: Seq<bool>)
    ensures
        unescape_from(git_quoted(p, octal), 0) == encode_utf8(p),
        valid_utf8(encode_utf8(p)),
        decode_utf8(encode_utf8(p)) == p,
    decreases p.len(),
{
    encode_utf8_valid_utf8(p);
    encode_utf8_decode_utf8(p);
    if p.len() > 0 {
        law_git_quoting_round_trips(p.drop_first(), octal.drop_first());
        lemma_escape_one(p[0], octal[0], git_quoted(p.drop_first(), octal.drop_first()));
        assert(encode_utf8(seq![p[0]]) =~= encode_scalar(p[0] as u32)) by {
            assert(seq![p[0]].drop_first() =~= Seq::<char>::empty());
            assert(encode_utf8(Seq::<char>::empty()) =~= Seq::<u8>::empty());
        }
    }
}

/// Whether a line of a file's header block marks the file binary.
pub open spec fn binary_line(raw: Seq<char>) -> bool {
    "Binary files "@.is_prefix_of(raw) || "GIT binary patch"@.is_prefix_of(raw)
}

/// How many of the first `k` lines open a file.
pub open spec fn opens_before(lines: Seq<Seq<char>>, k: int) -> nat
    decreases k,
{
    if k <= 0 {
        0
    } else {
        opens_before(lines, k - 1) + if opens_file(lines[k - 1]) {
            1nat
        } else {
            0nat
        }
    }
}

/// Whether line `j` lies in the header block of the file that line `o`
/// opens: after it, with no line between that opens a file or a hunk.
pub open spec fn in_header_block(lines: Seq<Seq<char>>, o: int, j: int) -> bool {
    &&& 0 <= o < j < lines.len()
    &&& opens_file(lines[o])
    &&& forall|t: int| o < t < j ==> !opens_file(#[trigger] lines[t]) && hunk_header(lines[t]) is None
}

proof fn lemma_binary_line(raw: Seq<char>)
    requires
        binary_line(raw),
    ensures
        !opens_file(raw),
        hunk_header(raw) is None,
        file_header_line_is_binary(raw),
{
    reveal_strlit("Binary files ");
    reveal_strlit("GIT binary patch");
    reveal_strlit("diff --git ");
    reveal_strlit("diff --cc ");
    reveal_strlit("diff --combined ");
    reveal_strlit("old mode ");
    reveal_strlit("new mode ");
    reveal_strlit("new file mode ");
    reveal_strlit("deleted file mode ");
    reveal_strlit("rename from ");
    reveal_strlit("rename to ");
    reveal_strlit("copy from ");
    reveal_strlit("copy to ");
    assert(("Binary files "@)[0] == 'B' && ("GIT binary patch"@)[0] == 'G');
    if "Binary files "@.is_prefix_of(raw) {
        assert(raw.subrange(0, "Binary files "@.len() as int)[0] == raw[0]);
    } else {
        assert(raw.subrange(0, "GIT binary patch"@.len() as int)[0] == raw[0]);
    }
    assert(raw[0] == 'B' || raw[0] == 'G');
    assert(("diff --git "@)[0] == 'd' && ("diff --cc "@)[0] == 'd' && ("diff --combined "@)[0] == 'd');
    assert(("old mode "@)[0] == 'o' && ("new mode "@)[0] == 'n' && ("new file mode "@)[0] == 'n');
    assert(("deleted file mode "@)[0] == 'd' && ("rename from "@)[0] == 'r' && ("rename to "@)[0] == 'r');
    assert(("copy from "@)[0] == 'c' && ("copy to "@)[0] == 'c');
    assert(run_end(raw, '@', 0) == 0);
}

/// A binary line is none of the header lines `file_header_line` reads
/// before it.
pub open spec fn file_header_line_is_binary(raw: Seq<char>) -> bool {
    &&& !"old mode "@.is_prefix_of(raw) && !"new mode "@.is_prefix_of(raw)
    &&& !"new file mode "@.is_prefix_of(raw) && !"deleted file mode "@.is_prefix_of(raw)
    &&& !"rename from "@.is_prefix_of(raw) && !"rename to "@.is_prefix_of(raw)
    &&& !"copy from "@.is_prefix_of(raw) && !"copy to "@.is_prefix_of(raw)
}

proof fn lemma_opens_before_grows(lines: Seq<Seq<char>>, a: int, b: int)
    requires
        0 <= a <= b,
    ensures
        opens_before(lines, a) <= opens_before(lines, b),
    decreases b - a,
{
    if a < b {
        lemma_opens_before_grows(lines, a, b - 1);
    }
}

/// Between an opening line `o` and `k` with no other opening line, one
/// more file has been opened than before `o`.
proof fn lemma_opens_before_last(lines: Seq<Seq<char>>, o: int, k: int)
    requires
        0 <= o < k <= lines.len(),
        opens_file(lines[o]),
        forall|t: int| o < t < k ==> !opens_file(#[trigger] lines[t]),
    ensures
        opens_before(lines, k) == opens_before(lines, o) + 1,
    decreases k - o,
{
    if k > o + 1 {
        lemma_opens_before_last(lines, o, k - 1);
        assert(!opens_file(lines[k - 1]));
    }
}

/// What reading the first `k` lines keeps track of: one file per opening
/// line, the last still open; a file whose header block (so far) holds a
/// binary line is binary; and no hunk is open while a header block is.
spec fn binary_inv(lines: Seq<Seq<char>>, k: int, st: PatchState) -> bool {
    &&& st.files.len() + (if st.cur is Some { 1int } else { 0int }) == opens_before(lines, k)
    &&& (st.cur is Some <==> opens_before(lines, k) > 0)
    &&& forall|o: int, j: int|
        j < k && #[trigger] in_header_block(lines, o, j) && binary_line(lines[j]) ==> {
            let idx = opens_before(lines, o) as int;
            if idx < st.files.len() {
                st.files[idx].binary
            } else {
                st.cur is Some && st.cur->0.binary
            }
        }
    &&& forall|o: int|
        0 <= o < k && opens_file(#[trigger] lines[o]) && (forall|t: int|
            o < t < k ==> !opens_file(#[trigger] lines[t]) && hunk_header(lines[t]) is None)
            ==> st.hunk is None
}

#[verifier::rlimit(40)]
proof fn lemma_step_binary(lines: Seq<Seq<char>>, k: int)
    requires
        0 <= k < lines.len(),
        binary_inv(lines, k, run(lines.take(k))),
    ensures
        binary_inv(lines, k + 1, run(lines.take(k + 1))),
{
    let st = run(lines.take(k));
    let raw = lines[k];
    assert(lines.take(k + 1).drop_last() =~= lines.take(k));
    assert(lines.take(k + 1).last() == raw);
    let st2 = run(lines.take(k + 1));
    assert(st2 == step(st, raw));
    if opens_file(raw) {
        let s1 = flush_file(close_hunk(st));
        assert(st2.files == s1.files);
        assert(st2.hunk is None && st2.cur is Some && !st2.cur->0.binary || st2.cur is Some);
        assert forall|o: int, j: int|
            j < k + 1 && #[trigger] in_header_block(lines, o, j) && binary_line(lines[j]) implies {
                let idx = opens_before(lines, o) as int;
                if idx < st2.files.len() {
                    st2.files[idx].binary
                } else {
                    st2.cur is Some && st2.cur->0.binary
                }
            } by {
            if j == k {
                lemma_binary_line(raw);
            }
            assert(j < k);
            lemma_opens_before_grows(lines, o + 1, k);
            let idx = opens_before(lines, o) as int;
            assert(opens_before(lines, o + 1) == idx + 1);
            if idx < st.files.len() {
                assert(st2.files[idx] == st.files[idx]);
            } else {
                assert(st.cur is Some);
                assert(st2.files[idx] == close_hunk(st).cur->0);
            }
        }
        assert forall|o: int|
            0 <= o < k + 1 && opens_file(#[trigger] lines[o]) && (forall|t: int|
                o < t < k + 1 ==> !opens_file(#[trigger] lines[t]) && hunk_header(lines[t]) is None)
                implies st2.hunk is None by {
            if o < k {
                assert(!opens_file(lines[k]));
            }
        }
    } else {
        assert(opens_before(lines, k + 1) == opens_before(lines, k));
        if st.cur is None {
            assert(st2 == st);
            assert forall|o: int, j: int|
                j < k + 1 && #[trigger] in_header_block(lines, o, j) && binary_line(lines[j]) implies false by {
                lemma_opens_before_grows(lines, o + 1, k);
            }
            assert forall|o: int|
                0 <= o < k + 1 && opens_file(#[trigger] lines[o]) implies false by {
                lemma_opens_before_grows(lines, o + 1, k);
            }
        } else {
            // A line that opens no file keeps the finished files and only
            // ever marks the open file binary.
            assert(st2.files == st.files);
            assert(st2.cur is Some);
            assert(st.cur->0.binary ==> st2.cur->0.binary);
            assert forall|o: int, j: int|
                j < k + 1 && #[trigger] in_header_block(lines, o, j) && binary_line(lines[j]) implies {
                    let idx = opens_before(lines, o) as int;
                    if idx < st2.files.len() {
                        st2.files[idx].binary
                    } else {
                        st2.cur is Some && st2.cur->0.binary
                    }
                } by {
                if j == k {
                    lemma_binary_line(raw);
                    assert(forall|t: int| o < t < k ==> !opens_file(#[trigger] lines[t]) && hunk_header(lines[t]) is None);
                    assert(st.hunk is None);
                    lemma_opens_before_last(lines, o, k);
                    assert(st2.cur->0.binary);
                }
            }
            assert forall|o: int|
                0 <= o < k + 1 && opens_file(#[trigger] lines[o]) && (forall|t: int|
                    o < t < k + 1 ==> !opens_file(#[trigger] lines[t]) && hunk_header(lines[t]) is None)
                    implies st2.hunk is None by {
                assert(o < k);
                assert(forall|t: int| o < t < k ==> !opens_file(#[trigger] lines[t]) && hunk_header(lines[t]) is None);
                assert(st.hunk is None);
                assert(hunk_header(raw) is None);
            }
        }
    }
}

proof fn lemma_run_binary(lines: Seq<Seq<char>>, k: int)
    requires
        0 <= k <= lines.len(),
    ensures
        binary_inv(lines, k, run(lines.take(k))),
    decreases k,
{
    if k == 0 {
        assert(lines.take(0) =~= Seq::<Seq<char>>::empty());
    } else {
        lemma_run_binary(lines, k - 1);
        lemma_step_binary(lines, k - 1);
    }
}

/// A file whose header block, between its `diff` line and its first hunk,
/// holds a `Binary files ...` or `GIT binary patch` line is parsed as
/// binary: the file that the `o`-th line opens, the `n`-th file opened
/// where `n` lines before it open files, comes out with `binary` set.
pub proof fn law_binary_marks_file(text: Seq<char>, o: int, j: int)
    requires
        in_header_block(lines_of(text), o, j),
        binary_line(lines_of(text)[j]),
    ensures
        opens_before(lines_of(text), o) < parse_patch_spec(text).len(),
        parse_patch_spec(text)[opens_before(lines_of(text), o) as int].binary,
{
    let lines = lines_of(text);
    lemma_run_binary(lines, lines.len() as int);
    assert(lines.take(lines.len() as int) =~= lines);
    let st = run(lines);
    lemma_opens_before_grows(lines, o + 1, lines.len() as int);
    assert(in_header_block(lines, o, j));
    let fs = flush_file(close_hunk(st)).files;
    let idx = opens_before(lines, o) as int;
    assert(idx < fs.len());
    if idx < st.files.len() {
        assert(fs[idx] == st.files[idx]);
    } else {
        assert(fs[idx] == close_hunk(st).cur->0);
    }
}

} // verus!
