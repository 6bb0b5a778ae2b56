//! Character-level text handling shared by the parsers: conversions between
//! strings and character vectors, prefix and substring search, whitespace
//! trimming as `str::trim` does it, and unsigned decimal parsing as
//! `u32::from_str` does it.

use vstd::prelude::*;
use vstd::std_specs::iter::IteratorSpec;
use vstd::utf8::*;

verus! {

/// Unicode `White_Space`, the property `char::is_whitespace` tests.
pub open spec fn is_ws(c: char) -> bool {
    ||| ('\u{9}' <= c && c <= '\u{d}')
    ||| c == ' '
    ||| c == '\u{85}'
    ||| c == '\u{a0}'
    ||| c == '\u{1680}'
    ||| ('\u{2000}' <= c && c <= '\u{200a}')
    ||| c == '\u{2028}'
    ||| c == '\u{2029}'
    ||| c == '\u{202f}'
    ||| c == '\u{205f}'
    ||| c == '\u{3000}'
}

pub fn is_whitespace(c: char) -> (b: bool)
    ensures
        b == is_ws(c),
{
    ('\u{9}' <= c && c <= '\u{d}') || c == ' ' || c == '\u{85}' || c == '\u{a0}' || c
        == '\u{1680}' || ('\u{2000}' <= c && c <= '\u{200a}') || c == '\u{2028}' || c
        == '\u{2029}' || c == '\u{202f}' || c == '\u{205f}' || c == '\u{3000}'
}

/// The characters of a string slice, in order.
pub fn chars_of(s: &str) -> (v: Vec<char>)
    ensures
        v@ == s@,
{
    let mut out: Vec<char> = Vec::new();
    for c in it: s.chars()
        invariant
            out@ == it.seq().take(it.index() as int),
    {
        out.push(c);
    }
    out
}

/// Collects characters into a `String` (`String::from_iter` over the
/// slice); what the string holds is exactly those characters.
#[verifier::external_body]
pub(crate) fn string_from(v: &[char]) -> (s: String)
    ensures
        s@ == v@,
{
    String::from_iter(v.iter())
}

/// A copy of `s[from..to]`.
pub fn slice_of(s: &Vec<char>, from: usize, to: usize) -> (r: Vec<char>)
    requires
        from <= to <= s.len(),
    ensures
        r@ == s@.subrange(from as int, to as int),
{
    let mut r: Vec<char> = Vec::new();
    let mut i = from;
    while i < to
        invariant
            from <= i <= to <= s.len(),
            r@ == s@.subrange(from as int, i as int),
        decreases to - i,
    {
        r.push(s[i]);
        i += 1;
        assert(r@ =~= s@.subrange(from as int, i as int));
    }
    r
}

/// Whether `p` occurs in `s` starting at index `i`.
pub open spec fn occurs_at(s: Seq<char>, p: Seq<char>, i: int) -> bool {
    0 <= i && i + p.len() <= s.len() && s.subrange(i, i + p.len()) =~= p
}

pub fn occurs_at_exec(s: &Vec<char>, p: &Vec<char>, i: usize) -> (b: bool)
    ensures
        b == occurs_at(s@, p@, i as int),
{
    if i > s.len() || p.len() > s.len() - i {
        return false;
    }
    let mut k: usize = 0;
    while k < p.len()
        invariant
            i + p.len() <= s.len(),
            k <= p.len(),
            forall|t: int| 0 <= t < k ==> s@[i + t] == p@[t],
        decreases p.len() - k,
    {
        if s[i + k] != p[k] {
            return false;
        }
        k += 1;
    }
    assert(s@.subrange(i as int, i + p.len()) =~= p@);
    true
}

pub fn starts_with(s: &Vec<char>, p: &Vec<char>) -> (b: bool)
    ensures
        b == p@.is_prefix_of(s@),
{
    let b = occurs_at_exec(s, p, 0);
    assert(b == p@.is_prefix_of(s@)) by {
        if p@.len() <= s@.len() {
            assert(s@.subrange(0, p@.len() as int) =~= s@.subrange(0, 0 + p@.len() as int));
        }
    }
    b
}

/// Whether two character sequences are equal.
pub fn same(a: &Vec<char>, b: &Vec<char>) -> (r: bool)
    ensures
        r == (a@ == b@),
{
    if a.len() != b.len() {
        return false;
    }
    let r = occurs_at_exec(a, b, 0);
    if r {
        assert(a@ =~= a@.subrange(0, b@.len() as int));
    }
    r
}

/// The first index at or after `from` where `p` occurs in `s`.
pub open spec fn find_from(s: Seq<char>, p: Seq<char>, from: int) -> Option<int>
    decreases s.len() - from,
{
    if from < 0 || from + p.len() > s.len() {
        None
    } else if occurs_at(s, p, from) {
        Some(from)
    } else {
        find_from(s, p, from + 1)
    }
}

pub proof fn lemma_find_from(s: Seq<char>, p: Seq<char>, from: int)
    requires
        0 <= from,
    ensures
        match find_from(s, p, from) {
            Some(i) => from <= i && occurs_at(s, p, i) && forall|j: int|
                from <= j < i ==> !occurs_at(s, p, j),
            None => forall|j: int| from <= j ==> !occurs_at(s, p, j),
        },
    decreases s.len() - from,
{
    if from + p.len() > s.len() {
    } else if occurs_at(s, p, from) {
    } else {
        lemma_find_from(s, p, from + 1);
    }
}

pub fn find(s: &Vec<char>, p: &Vec<char>, from: usize) -> (r: Option<usize>)
    ensures
        match r {
            Some(i) => find_from(s@, p@, from as int) == Some(i as int),
            None => find_from(s@, p@, from as int) is None,
        },
{
    let mut i = from;
    while i <= s.len() && p.len() <= s.len() - i
        invariant
            from <= i,
            find_from(s@, p@, from as int) == find_from(s@, p@, i as int),
        decreases s.len() + 1 - i,
    {
        if occurs_at_exec(s, p, i) {
            return Some(i);
        }
        i += 1;
    }
    None
}

/// Index of the first character at or after `i` that is not whitespace.
pub open spec fn ws_start(s: Seq<char>, i: int) -> int
    decreases s.len() - i,
{
    if 0 <= i < s.len() && is_ws(s[i]) {
        ws_start(s, i + 1)
    } else {
        i
    }
}

/// End of `s[..j]` once trailing whitespace is removed.
pub open spec fn ws_end(s: Seq<char>, j: int) -> int
    decreases j,
{
    if 0 < j <= s.len() && is_ws(s[j - 1]) {
        ws_end(s, j - 1)
    } else {
        j
    }
}

pub proof fn lemma_ws_start_bounds(s: Seq<char>, i: int)
    requires
        0 <= i <= s.len(),
    ensures
        i <= ws_start(s, i) <= s.len(),
        ws_start(s, i) < s.len() ==> !is_ws(s[ws_start(s, i)]),
        forall|k: int| i <= k < ws_start(s, i) ==> is_ws(s[k]),
    decreases s.len() - i,
{
    if i < s.len() && is_ws(s[i]) {
        lemma_ws_start_bounds(s, i + 1);
    }
}

/// `str::trim_start`.
pub open spec fn trim_start(s: Seq<char>) -> Seq<char> {
    s.subrange(ws_start(s, 0), s.len() as int)
}

/// `str::trim_end`.
pub open spec fn trim_end(s: Seq<char>) -> Seq<char> {
    s.subrange(0, ws_end(s, s.len() as int))
}

/// `str::trim`.
pub open spec fn trim(s: Seq<char>) -> Seq<char> {
    trim_end(trim_start(s))
}

pub fn trim_start_exec(s: &Vec<char>) -> (r: Vec<char>)
    ensures
        r@ == trim_start(s@),
{
    let mut i: usize = 0;
    while i < s.len() && is_whitespace(s[i])
        invariant
            i <= s.len(),
            ws_start(s@, 0) == ws_start(s@, i as int),
        decreases s.len() - i,
    {
        i += 1;
    }
    slice_of(s, i, s.len())
}

pub fn trim_end_exec(s: &Vec<char>) -> (r: Vec<char>)
    ensures
        r@ == trim_end(s@),
{
    let mut j: usize = s.len();
    while j > 0 && is_whitespace(s[j - 1])
        invariant
            j <= s.len(),
            ws_end(s@, s.len() as int) == ws_end(s@, j as int),
        decreases j,
    {
        j -= 1;
    }
    slice_of(s, 0, j)
}

pub fn trim_exec(s: &Vec<char>) -> (r: Vec<char>)
    ensures
        r@ == trim(s@),
{
    let t = trim_start_exec(s);
    trim_end_exec(&t)
}

/// End of `s[..j]` once trailing copies of `c` are removed.
pub open spec fn strip_end_of(s: Seq<char>, c: char, j: int) -> int
    decreases j,
{
    if 0 < j <= s.len() && s[j - 1] == c {
        strip_end_of(s, c, j - 1)
    } else {
        j
    }
}

/// `str::trim_end_matches` with a single character.
pub open spec fn trim_end_char(s: Seq<char>, c: char) -> Seq<char> {
    s.subrange(0, strip_end_of(s, c, s.len() as int))
}

pub fn trim_end_char_exec(s: &Vec<char>, c: char) -> (r: Vec<char>)
    ensures
        r@ == trim_end_char(s@, c),
{
    let mut j: usize = s.len();
    while j > 0 && s[j - 1] == c
        invariant
            j <= s.len(),
            strip_end_of(s@, c, s.len() as int) == strip_end_of(s@, c, j as int),
        decreases j,
    {
        j -= 1;
    }
    slice_of(s, 0, j)
}

pub open spec fn is_digit(c: char) -> bool {
    '0' <= c && c <= '9'
}

/// The value of a run of decimal digits.
pub open spec fn digits_value(s: Seq<char>) -> nat
    decreases s.len(),
{
    if s.len() == 0 {
        0
    } else {
        digits_value(s.drop_last()) * 10 + ((s.last() as u32 - '0' as u32) as nat)
    }
}

pub open spec fn all_digits(s: Seq<char>) -> bool {
    forall|i: int| 0 <= i < s.len() ==> is_digit(s[i])
}

/// `u32::from_str`: an optional `+`, then one or more decimal digits whose
/// value fits in 32 bits.
pub open spec fn parse_u32(s: Seq<char>) -> Option<u32> {
    let d = if s.len() > 1 && s[0] == '+' {
        s.drop_first()
    } else {
        s
    };
    if d.len() > 0 && all_digits(d) && digits_value(d) <= u32::MAX {
        Some(digits_value(d) as u32)
    } else {
        None
    }
}

pub fn parse_u32_exec(s: &Vec<char>) -> (r: Option<u32>)
    ensures
        r == parse_u32(s@),
{
    let start: usize = if s.len() > 1 && s[0] == '+' {
        1
    } else {
        0
    };
    let ghost d = if s@.len() > 1 && s@[0] == '+' {
        s@.drop_first()
    } else {
        s@
    };
    assert(d =~= s@.subrange(start as int, s.len() as int));
    if start >= s.len() {
        return None;
    }
    // The value so far, capped just past the largest `u32`.
    let cap: u64 = 0x1_0000_0000;
    let mut v: u64 = 0;
    let mut i = start;
    while i < s.len()
        invariant
            start <= i <= s.len(),
            d =~= s@.subrange(start as int, s.len() as int),
            d == (if s@.len() > 1 && s@[0] == '+' {
                s@.drop_first()
            } else {
                s@
            }),
            cap == 0x1_0000_0000,
            all_digits(s@.subrange(start as int, i as int)),
            v as int == if digits_value(s@.subrange(start as int, i as int)) < cap {
                digits_value(s@.subrange(start as int, i as int)) as int
            } else {
                cap as int
            },
        decreases s.len() - i,
    {
        let c = s[i];
        if !('0' <= c && c <= '9') {
            assert(!all_digits(d)) by {
                assert(d[i - start] == c);
            }
            return None;
        }
        let dv = (c as u32 - '0' as u32) as u64;
        let ghost prev = s@.subrange(start as int, i as int);
        let ghost next = s@.subrange(start as int, i + 1);
        assert(next.drop_last() =~= prev);
        assert(digits_value(next) == digits_value(prev) * 10 + dv);
        let w = v * 10 + dv;
        v = if w < cap {
            w
        } else {
            cap
        };
        i += 1;
        assert(all_digits(next)) by {
            assert forall|t: int| 0 <= t < next.len() implies is_digit(next[t]) by {
                if t < prev.len() {
                    assert(next[t] == prev[t]);
                }
            }
        }
    }
    if v < cap {
        Some(v as u32)
    } else {
        None
    }
}

/// Index of the first line feed at or after `i`, or the end of `s`.
pub open spec fn line_break(s: Seq<char>, i: int) -> int
    decreases s.len() - i,
{
    if 0 <= i < s.len() && s[i] != '\n' {
        line_break(s, i + 1)
    } else {
        i
    }
}

pub proof fn lemma_line_break(s: Seq<char>, i: int)
    requires
        0 <= i <= s.len(),
    ensures
        i <= line_break(s, i) <= s.len(),
        line_break(s, i) < s.len() ==> s[line_break(s, i)] == '\n',
        forall|k: int| i <= k < line_break(s, i) ==> s[k] != '\n',
    decreases s.len() - i,
{
    if i < s.len() && s[i] != '\n' {
        lemma_line_break(s, i + 1);
    }
}

/// A line as `str::lines` yields it: the line feed is dropped, and so is a
/// carriage return just before it; a final line with no line feed is kept
/// exactly.
pub open spec fn line_at(s: Seq<char>, i: int) -> Seq<char> {
    let e = line_break(s, i);
    let l = s.subrange(i, e);
    if e < s.len() && l.len() > 0 && l.last() == '\r' {
        l.drop_last()
    } else {
        l
    }
}

/// `str::lines` over `s[i..]`.
pub open spec fn lines_from(s: Seq<char>, i: int) -> Seq<Seq<char>>
    decreases s.len() - i,
{
    if i < 0 || i >= s.len() {
        Seq::empty()
    } else {
        proof {
            lemma_line_break(s, i);
        }
        if line_break(s, i) < s.len() {
            seq![line_at(s, i)] + lines_from(s, line_break(s, i) + 1)
        } else {
            seq![line_at(s, i)]
        }
    }
}

/// `str::lines`.
pub open spec fn lines_of(s: Seq<char>) -> Seq<Seq<char>> {
    lines_from(s, 0)
}

/// Line breaks of `t` sit in `a + t` shifted by the length of `a`.
proof fn lemma_line_break_shift(a: Seq<char>, t: Seq<char>, j: int)
    requires
        0 <= j <= t.len(),
    ensures
        line_break(a + t, a.len() + j) == a.len() + line_break(t, j),
    decreases t.len() - j,
{
    if j < t.len() {
        assert((a + t)[a.len() + j] == t[j]);
        if t[j] != '\n' {
            lemma_line_break_shift(a, t, j + 1);
        }
    }
}

/// The lines of `t` from `j` are those of `a + t` from `a.len() + j`.
pub proof fn lemma_lines_shift(a: Seq<char>, t: Seq<char>, j: int)
    requires
        0 <= j,
    ensures
        lines_from(a + t, a.len() + j) == lines_from(t, j),
    decreases t.len() - j,
{
    if j < t.len() {
        lemma_line_break_shift(a, t, j);
        lemma_line_break(t, j);
        let e = line_break(t, j);
        assert((a + t).subrange(a.len() + j, a.len() + e) =~= t.subrange(j, e));
        assert(line_at(a + t, a.len() + j) == line_at(t, j));
        if e < t.len() {
            lemma_lines_shift(a, t, e + 1);
            assert(a.len() + e + 1 == line_break(a + t, a.len() + j) + 1);
        }
    }
}

/// Within `a`, which ends with a line feed, the line breaks of `a + t` are
/// those of `a`.
proof fn lemma_line_break_prefix(a: Seq<char>, t: Seq<char>, i: int)
    requires
        0 <= i < a.len(),
        a.last() == '\n',
    ensures
        line_break(a + t, i) == line_break(a, i),
        line_break(a, i) < a.len(),
    decreases a.len() - i,
{
    assert((a + t)[i] == a[i]);
    if a[i] != '\n' {
        lemma_line_break_prefix(a, t, i + 1);
    }
}

/// The lines of `a + t`, where `a` is empty or ends with a line feed, are
/// the lines of `a` followed by those of `t`.
pub proof fn lemma_lines_concat(a: Seq<char>, t: Seq<char>)
    requires
        a.len() == 0 || a.last() == '\n',
    ensures
        lines_of(a + t) == lines_of(a) + lines_of(t),
{
    lemma_lines_from_concat(a, t, 0);
    lemma_lines_shift(a, t, 0);
}

proof fn lemma_lines_from_concat(a: Seq<char>, t: Seq<char>, i: int)
    requires
        a.len() == 0 || a.last() == '\n',
        0 <= i <= a.len(),
    ensures
        lines_from(a + t, i) == lines_from(a, i) + lines_from(a + t, a.len() as int),
    decreases a.len() - i,
{
    if i < a.len() {
        lemma_line_break_prefix(a, t, i);
        lemma_line_break(a, i);
        let e = line_break(a, i);
        assert((a + t).subrange(i, e) =~= a.subrange(i, e));
        assert(line_at(a + t, i) == line_at(a, i));
        lemma_lines_from_concat(a, t, e + 1);
        if e + 1 == a.len() {
            assert(lines_from(a, e + 1) =~= Seq::<Seq<char>>::empty());
        }
        assert(lines_from(a + t, i) =~= seq![line_at(a, i)] + lines_from(a + t, e + 1));
        assert(lines_from(a, i) =~= seq![line_at(a, i)] + lines_from(a, e + 1));
    } else {
        assert(lines_from(a, i) =~= Seq::<Seq<char>>::empty());
    }
}

/// The views of a sequence of character vectors.
pub open spec fn vecs_view(v: Seq<Vec<char>>) -> Seq<Seq<char>> {
    v.map_values(|x: Vec<char>| x@)
}

/// The lines of `s`, as `str::lines` splits them.
pub fn lines(s: &Vec<char>) -> (v: Vec<Vec<char>>)
    ensures
        vecs_view(v@) == lines_of(s@),
{
    let mut out: Vec<Vec<char>> = Vec::new();
    let mut i: usize = 0;
    while i < s.len()
        invariant_except_break
            i <= s.len(),
            vecs_view(out@) + lines_from(s@, i as int) == lines_of(s@),
        ensures
            vecs_view(out@) == lines_of(s@),
        decreases s.len() - i,
    {
        let mut e = i;
        while e < s.len() && s[e] != '\n'
            invariant
                i <= e <= s.len(),
                line_break(s@, i as int) == line_break(s@, e as int),
            decreases s.len() - e,
        {
            e += 1;
        }
        proof {
            lemma_line_break(s@, i as int);
        }
        let end = if e < s.len() && e > i && s[e - 1] == '\r' {
            e - 1
        } else {
            e
        };
        let l = slice_of(s, i, end);
        let ghost before = out@;
        out.push(l);
        proof {
            assert(l@ == line_at(s@, i as int));
            assert(vecs_view(out@) =~= vecs_view(before).push(l@));
        }
        if e >= s.len() {
            assert(lines_from(s@, i as int) == seq![line_at(s@, i as int)]);
            assert(vecs_view(out@) =~= vecs_view(before) + lines_from(s@, i as int));
            break;
        }
        proof {
            assert(lines_from(s@, i as int) == seq![line_at(s@, i as int)] + lines_from(
                s@,
                e + 1,
            ));
            assert(vecs_view(out@) + lines_from(s@, e + 1) =~= vecs_view(before) + lines_from(
                s@,
                i as int,
            ));
        }
        i = e + 1;
        proof {
            if i >= s.len() {
                assert(lines_from(s@, i as int) =~= Seq::<Seq<char>>::empty());
                assert(vecs_view(out@) =~= vecs_view(out@) + lines_from(s@, i as int));
            }
        }
    }
    proof {
        if s.len() == 0 {
            assert(lines_of(s@) =~= Seq::<Seq<char>>::empty());
            assert(vecs_view(out@) =~= Seq::<Seq<char>>::empty());
        }
    }
    out
}

/// Index of the first character at or after `i` that is not `c`.
pub open spec fn run_end(s: Seq<char>, c: char, i: int) -> int
    decreases s.len() - i,
{
    if 0 <= i < s.len() && s[i] == c {
        run_end(s, c, i + 1)
    } else {
        i
    }
}

pub proof fn lemma_run_end(s: Seq<char>, c: char, i: int)
    requires
        0 <= i <= s.len(),
    ensures
        i <= run_end(s, c, i) <= s.len(),
        forall|k: int| i <= k < run_end(s, c, i) ==> s[k] == c,
        run_end(s, c, i) < s.len() ==> s[run_end(s, c, i)] != c,
    decreases s.len() - i,
{
    if i < s.len() && s[i] == c {
        lemma_run_end(s, c, i + 1);
    }
}

/// Index of the first `c` at or after `i`, or the end of `s`.
pub open spec fn index_of_from(s: Seq<char>, c: char, i: int) -> int
    decreases s.len() - i,
{
    if 0 <= i < s.len() && s[i] != c {
        index_of_from(s, c, i + 1)
    } else {
        i
    }
}

pub proof fn lemma_index_of_from(s: Seq<char>, c: char, i: int)
    requires
        0 <= i <= s.len(),
    ensures
        i <= index_of_from(s, c, i) <= s.len(),
        forall|k: int| i <= k < index_of_from(s, c, i) ==> s[k] != c,
        index_of_from(s, c, i) < s.len() ==> s[index_of_from(s, c, i)] == c,
    decreases s.len() - i,
{
    if i < s.len() && s[i] != c {
        lemma_index_of_from(s, c, i + 1);
    }
}

pub fn index_of_exec(s: &Vec<char>, c: char, i: usize) -> (r: usize)
    requires
        i <= s.len(),
    ensures
        r == index_of_from(s@, c, i as int),
        i <= r <= s.len(),
{
    let mut k = i;
    while k < s.len() && s[k] != c
        invariant
            i <= k <= s.len(),
            index_of_from(s@, c, i as int) == index_of_from(s@, c, k as int),
        decreases s.len() - k,
    {
        k += 1;
    }
    k
}

/// Index of the first whitespace character at or after `i`, or the end.
pub open spec fn word_end(s: Seq<char>, i: int) -> int
    decreases s.len() - i,
{
    if 0 <= i < s.len() && !is_ws(s[i]) {
        word_end(s, i + 1)
    } else {
        i
    }
}

pub proof fn lemma_word_end(s: Seq<char>, i: int)
    requires
        0 <= i <= s.len(),
    ensures
        i <= word_end(s, i) <= s.len(),
        forall|k: int| i <= k < word_end(s, i) ==> !is_ws(s[k]),
        i < s.len() && !is_ws(s[i]) ==> word_end(s, i) > i,
        word_end(s, i) < s.len() ==> is_ws(s[word_end(s, i)]),
    decreases s.len() - i,
{
    if i < s.len() && !is_ws(s[i]) {
        lemma_word_end(s, i + 1);
    }
}

/// `str::split_whitespace` over `s[i..]`.
pub open spec fn words_from(s: Seq<char>, i: int) -> Seq<Seq<char>>
    decreases s.len() - i,
{
    if i < 0 || i > s.len() {
        Seq::empty()
    } else {
        proof {
            lemma_ws_start_bounds(s, i);
        }
        let j = ws_start(s, i);
        if j >= s.len() {
            Seq::empty()
        } else {
            proof {
                lemma_word_end(s, j);
            }
            let e = word_end(s, j);
            seq![s.subrange(j, e)] + words_from(s, e)
        }
    }
}

/// `str::split_whitespace`.
pub open spec fn words_of(s: Seq<char>) -> Seq<Seq<char>> {
    words_from(s, 0)
}

pub fn words(s: &Vec<char>) -> (v: Vec<Vec<char>>)
    ensures
        vecs_view(v@) == words_of(s@),
{
    let mut out: Vec<Vec<char>> = Vec::new();
    let mut i: usize = 0;
    loop
        invariant
            i <= s.len(),
            vecs_view(out@) + words_from(s@, i as int) == words_of(s@),
        decreases s.len() - i,
    {
        let mut j = i;
        while j < s.len() && is_whitespace(s[j])
            invariant
                i <= j <= s.len(),
                ws_start(s@, i as int) == ws_start(s@, j as int),
            decreases s.len() - j,
        {
            j += 1;
        }
        if j >= s.len() {
            assert(words_from(s@, i as int) =~= Seq::<Seq<char>>::empty());
            assert(vecs_view(out@) =~= vecs_view(out@) + words_from(s@, i as int));
            return out;
        }
        let mut e = j;
        while e < s.len() && !is_whitespace(s[e])
            invariant
                j <= e <= s.len(),
                word_end(s@, j as int) == word_end(s@, e as int),
            decreases s.len() - e,
        {
            e += 1;
        }
        proof {
            lemma_word_end(s@, j as int);
        }
        let w = slice_of(s, j, e);
        let ghost before = out@;
        out.push(w);
        proof {
            assert(vecs_view(out@) =~= vecs_view(before).push(w@));
            assert(words_from(s@, i as int) == seq![w@] + words_from(s@, e as int));
            assert(vecs_view(out@) + words_from(s@, e as int) =~= vecs_view(before)
                + words_from(s@, i as int));
        }
        i = e;
    }
}

/// The number of bytes UTF-8 takes for `c`.
pub open spec fn utf8_width(c: char) -> nat {
    if (c as u32) <= 0x7F {
        1
    } else if (c as u32) <= 0x7FF {
        2
    } else if (c as u32) <= 0xFFFF {
        3
    } else {
        4
    }
}

/// The number of bytes UTF-8 takes for `s`.
pub open spec fn utf8_len(s: Seq<char>) -> nat
    decreases s.len(),
{
    if s.len() == 0 {
        0
    } else {
        utf8_len(s.drop_last()) + utf8_width(s.last())
    }
}

pub proof fn lemma_utf8_len_grows(s: Seq<char>, j: int, k: int)
    requires
        0 <= j < k <= s.len(),
    ensures
        utf8_len(s.take(j)) < utf8_len(s.take(k)),
    decreases k - j,
{
    assert(s.take(k).drop_last() =~= s.take(k - 1));
    if j < k - 1 {
        lemma_utf8_len_grows(s, j, k - 1);
    }
}

pub fn utf8_width_exec(c: char) -> (w: u128)
    ensures
        w == utf8_width(c),
{
    let v = c as u32;
    if v <= 0x7F {
        1
    } else if v <= 0x7FF {
        2
    } else if v <= 0xFFFF {
        3
    } else {
        4
    }
}

pub proof fn lemma_utf8_len_at_least(s: Seq<char>)
    ensures
        utf8_len(s) >= s.len(),
    decreases s.len(),
{
    if s.len() > 0 {
        lemma_utf8_len_at_least(s.drop_last());
    }
}

/// `str::split` at each `c` over `s[i..]`: the pieces between separators,
/// one more than there are separators.
pub open spec fn split_from(s: Seq<char>, c: char, i: int) -> Seq<Seq<char>>
    decreases s.len() + 1 - i,
{
    if i < 0 || i > s.len() {
        Seq::empty()
    } else {
        proof {
            lemma_index_of_from(s, c, i);
        }
        let e = index_of_from(s, c, i);
        if e >= s.len() {
            seq![s.subrange(i, s.len() as int)]
        } else {
            seq![s.subrange(i, e)] + split_from(s, c, e + 1)
        }
    }
}

/// `str::split` at each `c`.
pub open spec fn split_on(s: Seq<char>, c: char) -> Seq<Seq<char>> {
    split_from(s, c, 0)
}

/// Where `f` holds no `c`, `f`, a `c` and `t` split at `c` into `f`
/// followed by the pieces of `t`; and `f` alone is one piece.
pub proof fn lemma_split_field(f: Seq<char>, c: char, t: Seq<char>)
    requires
        !f.contains(c),
    ensures
        split_on(f + seq![c] + t, c) == seq![f] + split_on(t, c),
        split_on(f, c) == seq![f],
{
    let s = f + seq![c] + t;
    lemma_index_of_from(s, c, 0);
    lemma_index_of_from(f, c, 0);
    let e = index_of_from(s, c, 0);
    if e < f.len() {
        assert(s[e] == f[e]);
    }
    assert(s[f.len() as int] == c);
    assert(e == f.len());
    assert(s.subrange(0, e) =~= f);
    lemma_split_shift(f + seq![c], t, c, 0);
    assert((f + seq![c]).len() == f.len() + 1);
    if index_of_from(f, c, 0) < f.len() {
        assert(f.contains(c));
    }
    assert(f.subrange(0, f.len() as int) =~= f);
}

/// The pieces of `t` from `j` are those of `a + t` from `a.len() + j`.
pub proof fn lemma_split_shift(a: Seq<char>, t: Seq<char>, c: char, j: int)
    requires
        0 <= j,
    ensures
        split_from(a + t, c, a.len() + j) == split_from(t, c, j),
    decreases t.len() + 1 - j,
{
    if j <= t.len() {
        lemma_index_of_shift(a, t, c, j);
        lemma_index_of_from(t, c, j);
        let e = index_of_from(t, c, j);
        if e >= t.len() {
            assert((a + t).subrange(a.len() + j, (a + t).len() as int) =~= t.subrange(j, t.len() as int));
        } else {
            assert((a + t).subrange(a.len() + j, a.len() + e) =~= t.subrange(j, e));
            lemma_split_shift(a, t, c, e + 1);
        }
    }
}

proof fn lemma_index_of_shift(a: Seq<char>, t: Seq<char>, c: char, j: int)
    requires
        0 <= j <= t.len(),
    ensures
        index_of_from(a + t, c, a.len() + j) == a.len() + index_of_from(t, c, j),
    decreases t.len() - j,
{
    if j < t.len() {
        assert((a + t)[a.len() + j] == t[j]);
        if t[j] != c {
            lemma_index_of_shift(a, t, c, j + 1);
        }
    }
}

/// The nonempty pieces of `str::split` at each `c`, in order.
pub open spec fn nonempty_pieces(s: Seq<char>, c: char) -> Seq<Seq<char>> {
    split_on(s, c).filter(|p: Seq<char>| p.len() > 0)
}

pub fn split_exec(s: &Vec<char>, c: char) -> (v: Vec<Vec<char>>)
    ensures
        vecs_view(v@) == split_on(s@, c),
{
    let mut out: Vec<Vec<char>> = Vec::new();
    let mut i: usize = 0;
    loop
        invariant
            i <= s.len(),
            vecs_view(out@) + split_from(s@, c, i as int) == split_on(s@, c),
        decreases s.len() - i,
    {
        let e = index_of_exec(s, c, i);
        proof {
            lemma_index_of_from(s@, c, i as int);
        }
        let piece = slice_of(s, i, e);
        let ghost before = out@;
        out.push(piece);
        assert(vecs_view(out@) =~= vecs_view(before).push(piece@));
        if e >= s.len() {
            assert(split_from(s@, c, i as int) == seq![piece@]);
            assert(vecs_view(out@) =~= vecs_view(before) + split_from(s@, c, i as int));
            return out;
        }
        assert(split_from(s@, c, i as int) == seq![piece@] + split_from(s@, c, e + 1));
        assert(vecs_view(out@) + split_from(s@, c, e + 1) =~= vecs_view(before) + split_from(
            s@,
            c,
            i as int,
        ));
        i = e + 1;
    }
}

/// The nonempty pieces of `s` split at each `c`.
pub fn nonempty_pieces_exec(s: &Vec<char>, c: char) -> (v: Vec<Vec<char>>)
    ensures
        vecs_view(v@) == nonempty_pieces(s@, c),
{
    let all = split_exec(s, c);
    let ghost pieces = vecs_view(all@);
    let mut out: Vec<Vec<char>> = Vec::new();
    let mut k: usize = 0;
    while k < all.len()
        invariant
            k <= all.len(),
            pieces == vecs_view(all@),
            vecs_view(out@) == pieces.take(k as int).filter(|p: Seq<char>| p.len() > 0),
        decreases all.len() - k,
    {
        proof {
            let t = pieces.take(k + 1);
            assert(t.drop_last() =~= pieces.take(k as int));
            assert(t.last() == all@[k as int]@);
            reveal(Seq::filter);
        }
        let ghost before = out@;
        if all[k].len() > 0 {
            let p = slice_of(&all[k], 0, all[k].len());
            out.push(p);
            assert(p@ =~= all@[k as int]@);
            assert(vecs_view(out@) =~= vecs_view(before).push(p@));
        }
        k += 1;
    }
    assert(pieces.take(all.len() as int) =~= pieces);
    out
}

/// The number of bytes UTF-8 takes for `s`, as `str::len` counts them.
pub fn utf8_len_exec(s: &Vec<char>) -> (n: u128)
    ensures
        n == utf8_len(s@),
        n <= 4 * s.len(),
{
    let mut total: u128 = 0;
    let mut k: usize = 0;
    while k < s.len()
        invariant
            k <= s.len(),
            total == utf8_len(s@.take(k as int)),
            total <= 4 * k,
        decreases s.len() - k,
    {
        assert(s@.take(k + 1).drop_last() =~= s@.take(k as int));
        total = total + utf8_width_exec(s[k]);
        k += 1;
    }
    assert(s@.take(s.len() as int) =~= s@);
    total
}

/// Appends the UTF-8 encoding of `c`.
pub fn push_utf8(out: &mut Vec<u8>, c: char)
    ensures
        final(out)@ == old(out)@ + encode_utf8(seq![c]),
{
    broadcast use vstd::utf8::char_is_scalar;

    let v = c as u32;
    proof {
        assert(is_scalar(v));
        assert(seq![c].drop_first() =~= Seq::<char>::empty());
        assert(encode_utf8(seq![c]) =~= encode_scalar(v) + encode_utf8(Seq::<char>::empty()));
        assert(encode_utf8(seq![c]) =~= encode_scalar(v));
    }
    if v <= 0x7F {
        out.push((v & 0x7F) as u8);
    } else if v <= 0x7FF {
        out.push(0xC0 | ((v >> 6) & 0x1F) as u8);
        out.push(0x80 | (v & 0x3F) as u8);
    } else if v <= 0xFFFF {
        out.push(0xE0 | ((v >> 12) & 0x0F) as u8);
        out.push(0x80 | ((v >> 6) & 0x3F) as u8);
        out.push(0x80 | (v & 0x3F) as u8);
    } else {
        out.push(0xF0 | ((v >> 18) & 0x7) as u8);
        out.push(0x80 | ((v >> 12) & 0x3F) as u8);
        out.push(0x80 | ((v >> 6) & 0x3F) as u8);
        out.push(0x80 | (v & 0x3F) as u8);
    }
    assert(final(out)@ =~= old(out)@ + encode_utf8(seq![c]));
}

/// What `String::from_utf8_lossy` makes of a byte sequence: the bytes decoded
/// as UTF-8, with each invalid sequence replaced by U+FFFD.
pub uninterp spec fn utf8_lossy(bytes: Seq<u8>) -> Seq<char>;

/// `String::from_utf8_lossy`, made owned. Claimed of it: the result is the
/// named decoding of exactly these bytes, and a valid UTF-8 sequence is
/// decoded unchanged, as its documentation says.
#[verifier::external_body]
pub(crate) fn from_utf8_lossy(bytes: &[u8]) -> (s: String)
    ensures
        s@ == utf8_lossy(bytes@),
        valid_utf8(bytes@) ==> s@ == decode_utf8(bytes@),
{
    String::from_utf8_lossy(bytes).into_owned()
}

/// The digit for `d < 10`.
pub open spec fn digit_char(d: nat) -> char {
    ((d + 48) as u32) as char
}

/// `n` in decimal, as `format!("{n}")` writes it.
pub open spec fn decimal(n: nat) -> Seq<char>
    decreases n,
{
    if n < 10 {
        seq![digit_char(n)]
    } else {
        decimal(n / 10).push(digit_char(n % 10))
    }
}

fn push_decimal(out: &mut Vec<char>, n: u32)
    ensures
        final(out)@ == old(out)@ + decimal(n as nat),
    decreases n,
{
    if n >= 10 {
        push_decimal(out, n / 10);
    }
    let d: u8 = (n % 10) as u8;
    let c = (d + 48) as char;
    assert(c == digit_char((n % 10) as nat));
    out.push(c);
}

/// The decimal digits of `n`.
pub fn decimal_exec(n: u32) -> (v: Vec<char>)
    ensures
        v@ == decimal(n as nat),
{
    let mut v: Vec<char> = Vec::new();
    push_decimal(&mut v, n);
    assert(v@ =~= Seq::<char>::empty() + decimal(n as nat));
    v
}

/// The index of the last `c` in `s[..j]`, or -1.
pub open spec fn last_index(s: Seq<char>, c: char, j: int) -> int
    decreases j,
{
    if j <= 0 || j > s.len() {
        -1
    } else if s[j - 1] == c {
        j - 1
    } else {
        last_index(s, c, j - 1)
    }
}

pub proof fn lemma_last_index(s: Seq<char>, c: char, j: int)
    requires
        0 <= j <= s.len(),
    ensures
        -1 <= last_index(s, c, j) < j,
        last_index(s, c, j) >= 0 ==> s[last_index(s, c, j)] == c,
    decreases j,
{
    if j > 0 && s[j - 1] != c {
        lemma_last_index(s, c, j - 1);
    }
}

pub fn last_index_exec(s: &Vec<char>, c: char) -> (r: Option<usize>)
    ensures
        match r {
            Some(k) => k < s.len() && last_index(s@, c, s.len() as int) == k,
            None => last_index(s@, c, s.len() as int) == -1,
        },
{
    let mut j = s.len();
    while j > 0
        invariant
            j <= s.len(),
            last_index(s@, c, s.len() as int) == last_index(s@, c, j as int),
        decreases j,
    {
        if s[j - 1] == c {
            return Some(j - 1);
        }
        j -= 1;
    }
    None
}

} // verus!
