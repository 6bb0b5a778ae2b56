//! Word-level intra-line diffing.
//!
//! Highlights the characters that actually changed within a modified line.
//! Offsets are emitted in **UTF-16 code units**, not character indices, so
//! the browser can slice strings directly — the two disagree for anything
//! outside the BMP, and an emoji in a line would otherwise shift every
//! highlight.

use vstd::prelude::*;

use crate::model::{lines_view, Hunk, Line, LineKind, LineView, Range};
use crate::text::{chars_of, lemma_utf8_len_at_least, same, slice_of, utf8_len, utf8_len_exec, vecs_view};

verus! {

/// Lines longer than this many bytes are left unhighlighted; the pairing is
/// rarely meaningful and the cost is quadratic.
pub const MAX_LINE: usize = 1000;

/// Whether `char::is_alphanumeric` holds of `c` (Unicode `Alphabetic` or
/// `Numeric`).
pub uninterp spec fn alphanumeric(c: char) -> bool;

/// `char::is_alphanumeric`: its answer is the named property of `c`, and
/// among ASCII characters exactly the letters and the digits have it (the
/// only ASCII characters that are Unicode `Alphabetic` or `Numeric`).
#[verifier::external_body]
fn is_alphanumeric(c: char) -> (b: bool)
    ensures
        b == alphanumeric(c),
        (c as u32) < 128 ==> (b <==> ('a' <= c && c <= 'z') || ('A' <= c && c <= 'Z') || ('0' <= c
            && c <= '9')),
{
    c.is_alphanumeric()
}

/// Characters that build words; every other character is a token of its own.
pub open spec fn word_char(c: char) -> bool {
    alphanumeric(c) || c == '_'
}

/// The number of UTF-16 code units `char::len_utf16` gives for `c`.
pub open spec fn utf16_width(c: char) -> nat {
    if (c as u32) >= 0x10000 {
        2
    } else {
        1
    }
}

/// The number of UTF-16 code units of `s`.
pub open spec fn utf16_len(s: Seq<char>) -> nat
    decreases s.len(),
{
    if s.len() == 0 {
        0
    } else {
        utf16_len(s.drop_last()) + utf16_width(s.last())
    }
}

/// A token: its characters, and where it sits in the line, in UTF-16 units.
pub struct TokenView {
    pub text: Seq<char>,
    pub at: nat,
    pub len: nat,
}

/// Index of the end of the run of word characters starting at `i`.
pub open spec fn word_run_end(s: Seq<char>, i: int) -> int
    decreases s.len() - i,
{
    if 0 <= i < s.len() && word_char(s[i]) {
        word_run_end(s, i + 1)
    } else {
        i
    }
}

pub proof fn lemma_word_run_end(s: Seq<char>, i: int)
    requires
        0 <= i <= s.len(),
    ensures
        i <= word_run_end(s, i) <= s.len(),
        i < s.len() && word_char(s[i]) ==> word_run_end(s, i) > i,
        forall|k: int| i <= k < word_run_end(s, i) ==> word_char(s[k]),
        word_run_end(s, i) < s.len() ==> !word_char(s[word_run_end(s, i)]),
    decreases s.len() - i,
{
    if i < s.len() && word_char(s[i]) {
        lemma_word_run_end(s, i + 1);
    }
}

/// The tokens of `s[i..]`: each maximal run of word characters is one
/// token, and every other character is a token by itself.
pub open spec fn tokens_from(s: Seq<char>, i: int) -> Seq<TokenView>
    decreases s.len() - i,
{
    if i < 0 || i >= s.len() {
        Seq::empty()
    } else if word_char(s[i]) {
        proof {
            lemma_word_run_end(s, i);
        }
        let e = word_run_end(s, i);
        seq![
            TokenView {
                text: s.subrange(i, e),
                at: utf16_len(s.take(i)),
                len: utf16_len(s.subrange(i, e)),
            },
        ] + tokens_from(s, e)
    } else {
        seq![TokenView { text: seq![s[i]], at: utf16_len(s.take(i)), len: utf16_width(s[i]) }]
            + tokens_from(s, i + 1)
    }
}

/// Words and single punctuation characters, the granularity that reads best
/// in a diff.
pub open spec fn tokens_of(s: Seq<char>) -> Seq<TokenView> {
    tokens_from(s, 0)
}

pub proof fn lemma_utf16_len_split(s: Seq<char>, i: int, j: int)
    requires
        0 <= i <= j <= s.len(),
    ensures
        utf16_len(s.take(j)) == utf16_len(s.take(i)) + utf16_len(s.subrange(i, j)),
        utf16_len(s.subrange(i, j)) <= 2 * (j - i),
        utf16_len(s.subrange(i, j)) >= j - i,
    decreases j - i,
{
    if i < j {
        lemma_utf16_len_split(s, i, j - 1);
        assert(s.take(j).drop_last() =~= s.take(j - 1));
        assert(s.subrange(i, j).drop_last() =~= s.subrange(i, j - 1));
    } else {
        assert(s.subrange(i, j) =~= Seq::<char>::empty());
    }
}

struct Token {
    text: Vec<char>,
    at: usize,
    len: usize,
}

impl Token {
    spec fn view(&self) -> TokenView {
        TokenView { text: self.text@, at: self.at as nat, len: self.len as nat }
    }
}

spec fn tokens_view(v: Seq<Token>) -> Seq<TokenView> {
    v.map_values(|t: Token| t.view())
}

pub(crate) fn utf16_width_exec(c: char) -> (w: usize)
    ensures
        w == utf16_width(c),
{
    if (c as u32) >= 0x10000 {
        2
    } else {
        1
    }
}

fn tokenize(s: &Vec<char>) -> (out: Vec<Token>)
    requires
        s.len() <= MAX_LINE,
    ensures
        tokens_view(out@) == tokens_of(s@),
        forall|k: int| 0 <= k < out.len() ==> out@[k].at + out@[k].len <= 2 * s.len(),
        out.len() <= s.len(),
{
    let mut out: Vec<Token> = Vec::new();
    let mut i: usize = 0;
    let mut at: usize = 0;
    while i < s.len()
        invariant
            i <= s.len() <= MAX_LINE,
            at == utf16_len(s@.take(i as int)),
            at <= 2 * i,
            tokens_view(out@) + tokens_from(s@, i as int) == tokens_of(s@),
            forall|k: int| 0 <= k < out.len() ==> out@[k].at + out@[k].len <= 2 * i,
            out.len() <= i,
        decreases s.len() - i,
    {
        let ghost before = out@;
        let c = s[i];
        if is_alphanumeric(c) || c == '_' {
            let mut e = i;
            let mut w: usize = 0;
            while e < s.len() && (is_alphanumeric(s[e]) || s[e] == '_')
                invariant
                    i <= e <= s.len() <= MAX_LINE,
                    word_run_end(s@, i as int) == word_run_end(s@, e as int),
                    w == utf16_len(s@.subrange(i as int, e as int)),
                    w <= 2 * (e - i),
                decreases s.len() - e,
            {
                assert(s@.subrange(i as int, e + 1).drop_last() =~= s@.subrange(
                    i as int,
                    e as int,
                ));
                w = w + utf16_width_exec(s[e]);
                e += 1;
            }
            proof {
                lemma_word_run_end(s@, i as int);
                lemma_utf16_len_split(s@, i as int, e as int);
            }
            let t = Token { text: slice_of(s, i, e), at, len: w };
            out.push(t);
            proof {
                assert(tokens_view(out@) =~= tokens_view(before).push(t.view()));
            }
            at = at + w;
            i = e;
        } else {
            let t = Token { text: slice_of(s, i, i + 1), at, len: utf16_width_exec(c) };
            assert(t.text@ =~= seq![c]);
            out.push(t);
            proof {
                assert(tokens_view(out@) =~= tokens_view(before).push(t.view()));
                lemma_utf16_len_split(s@, i as int, i + 1);
                assert(s@.subrange(i as int, i + 1) =~= seq![c]);
                assert(seq![c].drop_last() =~= Seq::<char>::empty());
                assert(utf16_len(Seq::<char>::empty()) == 0);
                assert(seq![c].last() == c);
                assert(utf16_len(seq![c]) == utf16_width(c));
                assert(utf16_len(s@.take(i + 1)) == at + utf16_width(c));
            }
            at = at + utf16_width_exec(c);
            i = i + 1;
        }
    }
    assert(tokens_from(s@, i as int) =~= Seq::<TokenView>::empty());
    assert(tokens_view(out@) =~= tokens_view(out@) + tokens_from(s@, i as int));
    out
}

/// Length of the longest common subsequence of `a[i..]` and `b[j..]`.
pub open spec fn lcs(a: Seq<Seq<char>>, b: Seq<Seq<char>>, i: int, j: int) -> nat
    decreases a.len() - i + b.len() - j,
{
    if i < 0 || j < 0 || i >= a.len() || j >= b.len() {
        0
    } else if a[i] == b[j] {
        1 + lcs(a, b, i + 1, j + 1)
    } else {
        let x = lcs(a, b, i + 1, j);
        let y = lcs(a, b, i, j + 1);
        if x >= y {
            x
        } else {
            y
        }
    }
}

pub proof fn lemma_lcs_bound(a: Seq<Seq<char>>, b: Seq<Seq<char>>, i: int, j: int)
    requires
        0 <= i <= a.len(),
        0 <= j <= b.len(),
    ensures
        lcs(a, b, i, j) <= a.len() - i,
    decreases a.len() - i + b.len() - j,
{
    if i < a.len() && j < b.len() {
        if a[i] == b[j] {
            lemma_lcs_bound(a, b, i + 1, j + 1);
        } else {
            lemma_lcs_bound(a, b, i + 1, j);
            lemma_lcs_bound(a, b, i, j + 1);
        }
    }
}

/// `n` flags, all set.
pub open spec fn all_set(n: int) -> Seq<bool> {
    Seq::new(if n < 0 {
        0
    } else {
        n as nat
    }, |k: int| true)
}

/// Walking the longest-common-subsequence table from `(i, j)`: equal items
/// are kept, otherwise the step goes the way that keeps the longer common
/// subsequence, preferring to drop from `a` on a tie. The flags mark the
/// items of `a[i..]` and `b[j..]` that were not kept.
pub open spec fn trace(a: Seq<Seq<char>>, b: Seq<Seq<char>>, i: int, j: int) -> (
    Seq<bool>,
    Seq<bool>,
)
    decreases a.len() - i + b.len() - j,
{
    if i < 0 || j < 0 || i >= a.len() || j >= b.len() {
        (all_set(a.len() - i), all_set(b.len() - j))
    } else if a[i] == b[j] {
        let (x, y) = trace(a, b, i + 1, j + 1);
        (seq![false] + x, seq![false] + y)
    } else if lcs(a, b, i + 1, j) >= lcs(a, b, i, j + 1) {
        let (x, y) = trace(a, b, i + 1, j);
        (seq![true] + x, y)
    } else {
        let (x, y) = trace(a, b, i, j + 1);
        (x, seq![true] + y)
    }
}

/// The texts of a sequence of tokens.
pub open spec fn texts(ts: Seq<TokenView>) -> Seq<Seq<char>> {
    ts.map_values(|t: TokenView| t.text)
}

/// Longest common subsequence over token texts; flags the tokens left out of
/// it. Inputs are pre-trimmed by common prefix and suffix, so the table
/// stays small in practice.
fn lcs_flags(a: &Vec<Vec<char>>, b: &Vec<Vec<char>>) -> (r: (Vec<bool>, Vec<bool>))
    requires
        a.len() <= MAX_LINE,
        b.len() <= MAX_LINE,
    ensures
        (r.0@, r.1@) == trace(vecs_view(a@), vecs_view(b@), 0, 0),
{
    let ghost ta = vecs_view(a@);
    let ghost tb = vecs_view(b@);
    let n = a.len();
    let m = b.len();
    // dp[i][j] is the LCS length of a[i..] and b[j..].
    let mut dp: Vec<Vec<u16>> = Vec::new();
    let mut k: usize = 0;
    while k <= n
        invariant
            k <= n + 1,
            n <= MAX_LINE,
            m <= MAX_LINE,
            dp.len() == k,
            forall|r: int| 0 <= r < k ==> (#[trigger] dp@[r])@.len() == m + 1,
            forall|r: int, c: int| 0 <= r < k && 0 <= c <= m ==> #[trigger] dp@[r]@[c] == 0,
        decreases n + 1 - k,
    {
        let mut row: Vec<u16> = Vec::new();
        let mut c: usize = 0;
        while c <= m
            invariant
                c <= m + 1,
                m <= MAX_LINE,
                row.len() == c,
                forall|t: int| 0 <= t < c ==> row@[t] == 0,
            decreases m + 1 - c,
        {
            row.push(0);
            c += 1;
        }
        dp.push(row);
        k += 1;
    }
    proof {
        assert forall|c: int| 0 <= c <= m implies lcs(ta, tb, n as int, c) == 0 by {}
    }
    let mut i: usize = n;
    while i > 0
        invariant
            i <= n <= MAX_LINE,
            m <= MAX_LINE,
            n == a.len(),
            m == b.len(),
            ta == vecs_view(a@),
            tb == vecs_view(b@),
            dp.len() == n + 1,
            forall|r: int| 0 <= r <= n ==> (#[trigger] dp@[r])@.len() == m + 1,
            forall|r: int, c: int|
                i <= r <= n && 0 <= c <= m ==> #[trigger] dp@[r]@[c] == lcs(ta, tb, r, c),
        decreases i,
    {
        i -= 1;
        let mut row: Vec<u16> = Vec::new();
        let mut c: usize = 0;
        while c <= m
            invariant
                c <= m + 1,
                m <= MAX_LINE,
                row.len() == c,
            decreases m + 1 - c,
        {
            row.push(0);
            c += 1;
        }
        proof {
            assert(lcs(ta, tb, i as int, m as int) == 0);
        }
        row.set(m, 0);
        let mut j: usize = m;
        while j > 0
            invariant
                j <= m <= MAX_LINE,
                i < n <= MAX_LINE,
                n == a.len(),
                m == b.len(),
                ta == vecs_view(a@),
                tb == vecs_view(b@),
                row.len() == m + 1,
                dp.len() == n + 1,
                forall|r: int| 0 <= r <= n ==> (#[trigger] dp@[r])@.len() == m + 1,
                forall|r: int, c: int|
                    i + 1 <= r <= n && 0 <= c <= m ==> #[trigger] dp@[r]@[c] == lcs(
                        ta,
                        tb,
                        r,
                        c,
                    ),
                forall|c: int| j <= c <= m ==> row@[c] == lcs(ta, tb, i as int, c),
            decreases j,
        {
            j -= 1;
            proof {
                lemma_lcs_bound(ta, tb, i + 1, j + 1);
                lemma_lcs_bound(ta, tb, i + 1, j as int);
                lemma_lcs_bound(ta, tb, i as int, j + 1);
                assert(ta[i as int] == a@[i as int]@);
                assert(tb[j as int] == b@[j as int]@);
                assert(dp@[i + 1]@[j + 1] == lcs(ta, tb, i + 1, j + 1));
                assert(dp@[i + 1]@[j as int] == lcs(ta, tb, i + 1, j as int));
            }
            let v: u16 = if same(&a[i], &b[j]) {
                dp[i + 1][j + 1] + 1
            } else {
                let x = dp[i + 1][j];
                let y = row[j + 1];
                if x >= y {
                    x
                } else {
                    y
                }
            };
            row.set(j, v);
        }
        dp.set(i, row);
    }
    // Walk the table, keeping what the longest common subsequence keeps.
    let mut ka: Vec<bool> = Vec::new();
    let mut kb: Vec<bool> = Vec::new();
    let mut x: usize = 0;
    let mut y: usize = 0;
    while x < n && y < m
        invariant
            x <= n <= MAX_LINE,
            y <= m <= MAX_LINE,
            n == a.len(),
            m == b.len(),
            ta == vecs_view(a@),
            tb == vecs_view(b@),
            ka.len() == x,
            kb.len() == y,
            dp.len() == n + 1,
            forall|r: int| 0 <= r <= n ==> (#[trigger] dp@[r])@.len() == m + 1,
            forall|r: int, c: int|
                0 <= r <= n && 0 <= c <= m ==> #[trigger] dp@[r]@[c] == lcs(ta, tb, r, c),
            trace(ta, tb, 0, 0) == (
                ka@ + trace(ta, tb, x as int, y as int).0,
                kb@ + trace(ta, tb, x as int, y as int).1,
            ),
        decreases n - x + m - y,
    {
        proof {
            assert(ta[x as int] == a@[x as int]@);
            assert(tb[y as int] == b@[y as int]@);
            assert(dp@[x + 1]@[y as int] == lcs(ta, tb, x + 1, y as int));
            assert(dp@[x as int]@[y + 1] == lcs(ta, tb, x as int, y + 1));
        }
        if same(&a[x], &b[y]) {
            ka.push(false);
            kb.push(false);
            x += 1;
            y += 1;
            proof {
                assert(ka@ + trace(ta, tb, x as int, y as int).0 =~= ka@.drop_last() + (seq![false]
                    + trace(ta, tb, x as int, y as int).0));
                assert(kb@ + trace(ta, tb, x as int, y as int).1 =~= kb@.drop_last() + (seq![false]
                    + trace(ta, tb, x as int, y as int).1));
            }
        } else if dp[x + 1][y] >= dp[x][y + 1] {
            ka.push(true);
            x += 1;
            proof {
                assert(ka@ + trace(ta, tb, x as int, y as int).0 =~= ka@.drop_last() + (seq![true]
                    + trace(ta, tb, x as int, y as int).0));
            }
        } else {
            kb.push(true);
            y += 1;
            proof {
                assert(kb@ + trace(ta, tb, x as int, y as int).1 =~= kb@.drop_last() + (seq![true]
                    + trace(ta, tb, x as int, y as int).1));
            }
        }
    }
    let ghost (rest_a, rest_b) = trace(ta, tb, x as int, y as int);
    assert(rest_a == all_set(n - x) && rest_b == all_set(m - y));
    while x < n
        invariant
            x <= n,
            ka.len() == x,
            trace(ta, tb, 0, 0).0 == ka@ + all_set(n - x),
        decreases n - x,
    {
        ka.push(true);
        x += 1;
        assert(ka@ + all_set(n - x) =~= ka@.drop_last() + all_set(n - x + 1));
    }
    while y < m
        invariant
            y <= m,
            kb.len() == y,
            trace(ta, tb, 0, 0).1 == kb@ + all_set(m - y),
        decreases m - y,
    {
        kb.push(true);
        y += 1;
        assert(kb@ + all_set(m - y) =~= kb@.drop_last() + all_set(m - y + 1));
    }
    assert(ka@ =~= ka@ + all_set(0));
    assert(kb@ =~= kb@ + all_set(0));
    (ka, kb)
}

/// How many items `a` and `b` share from index `k` on, counted from the front.
pub open spec fn common_prefix(a: Seq<Seq<char>>, b: Seq<Seq<char>>, k: int) -> int
    decreases a.len() - k,
{
    if 0 <= k < a.len() && k < b.len() && a[k] == b[k] {
        common_prefix(a, b, k + 1)
    } else {
        k
    }
}

/// How many items `a` and `b` share counted from the back, starting after
/// the last `k`.
pub open spec fn common_suffix(a: Seq<Seq<char>>, b: Seq<Seq<char>>, k: int) -> int
    decreases a.len() - k,
{
    if 0 <= k < a.len() && k < b.len() && a[a.len() - 1 - k] == b[b.len() - 1 - k] {
        common_suffix(a, b, k + 1)
    } else {
        k
    }
}

proof fn lemma_common_prefix(a: Seq<Seq<char>>, b: Seq<Seq<char>>, k: int)
    requires
        0 <= k <= a.len(),
        k <= b.len(),
    ensures
        k <= common_prefix(a, b, k) <= a.len(),
        common_prefix(a, b, k) <= b.len(),
    decreases a.len() - k,
{
    if k < a.len() && k < b.len() && a[k] == b[k] {
        lemma_common_prefix(a, b, k + 1);
    }
}

proof fn lemma_common_suffix(a: Seq<Seq<char>>, b: Seq<Seq<char>>, k: int)
    requires
        0 <= k <= a.len(),
        k <= b.len(),
    ensures
        k <= common_suffix(a, b, k) <= a.len(),
        common_suffix(a, b, k) <= b.len(),
    decreases a.len() - k,
{
    if k < a.len() && k < b.len() && a[a.len() - 1 - k] == b[b.len() - 1 - k] {
        lemma_common_suffix(a, b, k + 1);
    }
}

/// The range a token covers.
pub open spec fn token_range(t: TokenView) -> Range {
    Range { start: t.at as usize, end: (t.at + t.len) as usize }
}

/// The ranges of the flagged tokens, in order.
pub open spec fn flagged_ranges(ts: Seq<TokenView>, flags: Seq<bool>) -> Seq<Range>
    decreases ts.len(),
{
    if ts.len() == 0 || flags.len() == 0 {
        Seq::empty()
    } else {
        let rest = flagged_ranges(ts.drop_last(), flags.drop_last());
        if flags.last() {
            rest.push(token_range(ts.last()))
        } else {
            rest
        }
    }
}

/// The total number of units the ranges cover.
pub open spec fn span(rs: Seq<Range>) -> int
    decreases rs.len(),
{
    if rs.len() == 0 {
        0
    } else {
        span(rs.drop_last()) + (rs.last().end - rs.last().start)
    }
}

/// Ranges in order, with each range that starts at or before the end of the
/// one before it joined to it, so a changed word and the punctuation beside
/// it render as one highlight rather than a dotted line.
pub open spec fn coalesce(rs: Seq<Range>) -> Seq<Range>
    decreases rs.len(),
{
    if rs.len() == 0 {
        Seq::empty()
    } else {
        let out = coalesce(rs.drop_last());
        let r = rs.last();
        if out.len() > 0 && r.start <= out.last().end {
            let last = out.last();
            out.update(
                out.len() - 1,
                Range {
                    start: last.start,
                    end: if last.end >= r.end {
                        last.end
                    } else {
                        r.end
                    },
                },
            )
        } else {
            out.push(r)
        }
    }
}

/// The changed ranges of an edited line pair, or `None` when the line is
/// too long (over `MAX_LINE` bytes), unchanged, changed past three quarters
/// on both sides (a rewrite, better shown as a plain replacement), or
/// changed in no token at all. Shared leading and trailing tokens are set
/// aside; of the rest, the tokens outside a longest common subsequence are
/// the changed ones.
pub open spec fn changed_ranges_spec(old: Seq<char>, new: Seq<char>) -> Option<
    (Seq<Range>, Seq<Range>),
> {
    if utf8_len(old) > MAX_LINE || utf8_len(new) > MAX_LINE || old == new {
        None
    } else {
        let ta = tokens_of(old);
        let tb = tokens_of(new);
        let head = common_prefix(texts(ta), texts(tb), 0);
        let tail = common_suffix(texts(ta).skip(head), texts(tb).skip(head), 0);
        let ma = ta.subrange(head, ta.len() - tail);
        let mb = tb.subrange(head, tb.len() - tail);
        let (fa, fb) = trace(texts(ma), texts(mb), 0, 0);
        let ra = flagged_ranges(ma, fa);
        let rb = flagged_ranges(mb, fb);
        if old.len() > 0 && new.len() > 0 && 4 * span(ra) > 3 * old.len() && 4 * span(rb) > 3
            * new.len() {
            None
        } else if ra.len() == 0 && rb.len() == 0 {
            None
        } else {
            Some((coalesce(ra), coalesce(rb)))
        }
    }
}

fn merge(ranges: &Vec<Range>) -> (out: Vec<Range>)
    ensures
        out@ == coalesce(ranges@),
{
    let mut out: Vec<Range> = Vec::new();
    let mut i: usize = 0;
    while i < ranges.len()
        invariant
            i <= ranges.len(),
            out@ == coalesce(ranges@.take(i as int)),
        decreases ranges.len() - i,
    {
        let r = ranges[i];
        proof {
            assert(ranges@.take(i + 1).drop_last() =~= ranges@.take(i as int));
        }
        if out.len() > 0 && r.start <= out[out.len() - 1].end {
            let last = out.pop().unwrap();
            let end = if last.end >= r.end {
                last.end
            } else {
                r.end
            };
            out.push(Range { start: last.start, end });
            proof {
                let prev = coalesce(ranges@.take(i as int));
                assert(out@ =~= prev.update(
                    prev.len() - 1,
                    Range { start: prev.last().start, end },
                ));
            }
        } else {
            out.push(r);
        }
        i += 1;
    }
    assert(ranges@.take(ranges.len() as int) =~= ranges@);
    out
}

/// Ranges of the flagged tokens among `ts[lo..hi]`, whose flags are `flags`.
fn ranges_of(ts: &Vec<Token>, lo: usize, hi: usize, flags: &Vec<bool>) -> (r: (Vec<Range>, u64))
    requires
        lo <= hi <= ts.len() <= MAX_LINE,
        flags.len() == hi - lo,
        forall|k: int| 0 <= k < ts.len() ==> ts@[k].at + ts@[k].len <= 2 * MAX_LINE,
    ensures
        r.0@ == flagged_ranges(tokens_view(ts@).subrange(lo as int, hi as int), flags@),
        r.1 == span(r.0@),
        r.1 <= 2_000_000,
{
    let ghost seg = tokens_view(ts@).subrange(lo as int, hi as int);
    let mut out: Vec<Range> = Vec::new();
    let mut total: u64 = 0;
    let mut k: usize = 0;
    while k < hi - lo
        invariant
            lo <= hi <= ts.len() <= MAX_LINE,
            flags.len() == hi - lo,
            k <= hi - lo,
            seg == tokens_view(ts@).subrange(lo as int, hi as int),
            forall|t: int| 0 <= t < ts.len() ==> ts@[t].at + ts@[t].len <= 2 * MAX_LINE,
            out@ == flagged_ranges(seg.take(k as int), flags@.take(k as int)),
            total == span(out@),
            out.len() <= k,
            total <= 2000 * k,
        decreases hi - lo - k,
    {
        let t = &ts[lo + k];
        proof {
            assert(seg.take(k + 1).drop_last() =~= seg.take(k as int));
            assert(flags@.take(k + 1).drop_last() =~= flags@.take(k as int));
            assert(seg[k as int] == t.view());
        }
        if flags[k] {
            let r = Range { start: t.at, end: t.at + t.len };
            let ghost before = out@;
            out.push(r);
            assert(out@.drop_last() =~= before);
            total = total + (t.len as u64);
        }
        k += 1;
    }
    assert(seg.take((hi - lo) as int) =~= seg);
    assert(flags@.take((hi - lo) as int) =~= flags@);
    (out, total)
}

fn texts_between(ts: &Vec<Token>, lo: usize, hi: usize) -> (r: Vec<Vec<char>>)
    requires
        lo <= hi <= ts.len(),
    ensures
        vecs_view(r@) == texts(tokens_view(ts@).subrange(lo as int, hi as int)),
        r.len() == hi - lo,
{
    let mut out: Vec<Vec<char>> = Vec::new();
    let mut k = lo;
    while k < hi
        invariant
            lo <= k <= hi <= ts.len(),
            vecs_view(out@) == texts(tokens_view(ts@).subrange(lo as int, k as int)),
            out.len() == k - lo,
        decreases hi - k,
    {
        let t = slice_of(&ts[k].text, 0, ts[k].text.len());
        assert(t@ =~= ts@[k as int].text@);
        let ghost before = out@;
        out.push(t);
        k += 1;
        proof {
            assert(vecs_view(out@) =~= vecs_view(before).push(t@));
            assert(texts(tokens_view(ts@).subrange(lo as int, k as int)) =~= texts(
                tokens_view(ts@).subrange(lo as int, k - 1),
            ).push(ts@[k - 1].text@));
        }
    }
    out
}

/// The changed ranges of an old line and its replacement, in UTF-16 units.
pub fn changed_ranges(old: &Vec<char>, new: &Vec<char>) -> (r: Option<(Vec<Range>, Vec<Range>)>)
    ensures
        match r {
            Some((a, b)) => changed_ranges_spec(old@, new@) == Some((a@, b@)),
            None => changed_ranges_spec(old@, new@) is None,
        },
{
    let ol = utf8_len_exec(old);
    let nl = utf8_len_exec(new);
    if ol > 1000 || nl > 1000 || same(old, new) {
        return None;
    }
    proof {
        lemma_utf8_len_at_least(old@);
        lemma_utf8_len_at_least(new@);
    }
    let ta = tokenize(old);
    let tb = tokenize(new);
    let ghost xa = texts(tokens_view(ta@));
    let ghost xb = texts(tokens_view(tb@));
    let mut head: usize = 0;
    while head < ta.len() && head < tb.len() && same(&ta[head].text, &tb[head].text)
        invariant
            head <= ta.len(),
            head <= tb.len(),
            xa == texts(tokens_view(ta@)),
            xb == texts(tokens_view(tb@)),
            common_prefix(xa, xb, 0) == common_prefix(xa, xb, head as int),
        decreases ta.len() - head,
    {
        assert(xa[head as int] == ta@[head as int].text@);
        assert(xb[head as int] == tb@[head as int].text@);
        head += 1;
    }
    proof {
        if head < ta.len() && head < tb.len() {
            assert(xa[head as int] == ta@[head as int].text@);
            assert(xb[head as int] == tb@[head as int].text@);
        }
    }
    let ghost sa = xa.skip(head as int);
    let ghost sb = xb.skip(head as int);
    let mut tail: usize = 0;
    while tail < ta.len() - head && tail < tb.len() - head && same(
        &ta[ta.len() - 1 - tail].text,
        &tb[tb.len() - 1 - tail].text,
    )
        invariant
            head <= ta.len(),
            head <= tb.len(),
            tail <= ta.len() - head,
            tail <= tb.len() - head,
            sa == texts(tokens_view(ta@)).skip(head as int),
            sb == texts(tokens_view(tb@)).skip(head as int),
            common_suffix(sa, sb, 0) == common_suffix(sa, sb, tail as int),
        decreases ta.len() - head - tail,
    {
        assert(sa[sa.len() - 1 - tail] == ta@[ta.len() - 1 - tail].text@);
        assert(sb[sb.len() - 1 - tail] == tb@[tb.len() - 1 - tail].text@);
        tail += 1;
    }
    proof {
        if tail < ta.len() - head && tail < tb.len() - head {
            assert(sa[sa.len() - 1 - tail] == ta@[ta.len() - 1 - tail].text@);
            assert(sb[sb.len() - 1 - tail] == tb@[tb.len() - 1 - tail].text@);
        }
    }
    let hi_a = ta.len() - tail;
    let hi_b = tb.len() - tail;
    let ma = texts_between(&ta, head, hi_a);
    let mb = texts_between(&tb, head, hi_b);
    let (fa, fb) = lcs_flags(&ma, &mb);
    let ghost sega = tokens_view(ta@).subrange(head as int, hi_a as int);
    let ghost segb = tokens_view(tb@).subrange(head as int, hi_b as int);
    assert(texts(sega) =~= vecs_view(ma@));
    assert(texts(segb) =~= vecs_view(mb@));
    proof {
        assert(fa@.len() == hi_a - head) by {
            lemma_trace_len(vecs_view(ma@), vecs_view(mb@), 0, 0);
        }
        assert(fb@.len() == hi_b - head) by {
            lemma_trace_len(vecs_view(ma@), vecs_view(mb@), 0, 0);
        }
    }
    let (ra, sa_units) = ranges_of(&ta, head, hi_a, &fa);
    let (rb, sb_units) = ranges_of(&tb, head, hi_b, &fb);
    let wa = old.len() as u64;
    let wb = new.len() as u64;
    if wa > 0 && wb > 0 && 4 * sa_units > 3 * wa && 4 * sb_units > 3 * wb {
        return None;
    }
    if ra.len() == 0 && rb.len() == 0 {
        return None;
    }
    Some((merge(&ra), merge(&rb)))
}

proof fn lemma_trace_len(a: Seq<Seq<char>>, b: Seq<Seq<char>>, i: int, j: int)
    requires
        0 <= i <= a.len(),
        0 <= j <= b.len(),
    ensures
        trace(a, b, i, j).0.len() == a.len() - i,
        trace(a, b, i, j).1.len() == b.len() - j,
    decreases a.len() - i + b.len() - j,
{
    if i < a.len() && j < b.len() {
        if a[i] == b[j] {
            lemma_trace_len(a, b, i + 1, j + 1);
        } else if lcs(a, b, i + 1, j) >= lcs(a, b, i, j + 1) {
            lemma_trace_len(a, b, i + 1, j);
        } else {
            lemma_trace_len(a, b, i, j + 1);
        }
    }
}

/// Index of the first line at or after `i` whose kind is not `k`.
pub open spec fn kind_run_end(lines: Seq<LineView>, k: LineKind, i: int) -> int
    decreases lines.len() - i,
{
    if 0 <= i < lines.len() && lines[i].kind == k {
        kind_run_end(lines, k, i + 1)
    } else {
        i
    }
}

pub proof fn lemma_kind_run_end(lines: Seq<LineView>, k: LineKind, i: int)
    requires
        0 <= i <= lines.len(),
    ensures
        i <= kind_run_end(lines, k, i) <= lines.len(),
        i < lines.len() && lines[i].kind == k ==> kind_run_end(lines, k, i) > i,
        forall|t: int| i <= t < kind_run_end(lines, k, i) ==> lines[t].kind == k,
        kind_run_end(lines, k, i) < lines.len() ==> lines[kind_run_end(lines, k, i)].kind != k,
    decreases lines.len() - i,
{
    if i < lines.len() && lines[i].kind == k {
        lemma_kind_run_end(lines, k, i + 1);
    }
}

/// Pairs the `k`-th to `n - 1`-th deletions starting at `i` with the
/// additions starting at `d`, annotating both lines of each pair whose
/// changed ranges exist.
pub open spec fn pair_from(lines: Seq<LineView>, i: int, d: int, n: int, k: int) -> Seq<LineView>
    decreases n - k,
{
    if k >= n || i + k < 0 || i + k >= lines.len() || d + k < 0 || d + k >= lines.len() {
        lines
    } else {
        let next = match changed_ranges_spec(lines[i + k].content, lines[d + k].content) {
            Some((ra, rb)) => lines.update(
                i + k,
                LineView { words: Some(ra), ..lines[i + k] },
            ).update(d + k, LineView { words: Some(rb), ..lines[d + k] }),
            None => lines,
        };
        pair_from(next, i, d, n, k + 1)
    }
}

pub proof fn lemma_pair_from(lines: Seq<LineView>, i: int, d: int, n: int, k: int)
    ensures
        pair_from(lines, i, d, n, k).len() == lines.len(),
        forall|t: int|
            0 <= t < lines.len() ==> {
                let l = #[trigger] pair_from(lines, i, d, n, k)[t];
                &&& l.kind == lines[t].kind
                &&& l.content == lines[t].content
                &&& l.old_no == lines[t].old_no
                &&& l.new_no == lines[t].new_no
                &&& l.no_newline == lines[t].no_newline
                &&& l.syntax == lines[t].syntax
            },
    decreases n - k,
{
    if k >= n || i + k < 0 || i + k >= lines.len() || d + k < 0 || d + k >= lines.len() {
    } else {
        let next = match changed_ranges_spec(lines[i + k].content, lines[d + k].content) {
            Some((ra, rb)) => lines.update(
                i + k,
                LineView { words: Some(ra), ..lines[i + k] },
            ).update(d + k, LineView { words: Some(rb), ..lines[d + k] }),
            None => lines,
        };
        lemma_pair_from(next, i, d, n, k + 1);
    }
}

/// Pair deletions with the additions that replaced them and annotate both,
/// from line `i` on. Only equal-length runs are paired: guessing across a
/// 3-for-1 replacement produces highlights that mislead more than they help.
pub open spec fn annotate_from(lines: Seq<LineView>, i: int) -> Seq<LineView>
    decreases lines.len() - i,
{
    if i < 0 || i >= lines.len() {
        lines
    } else if lines[i].kind != LineKind::Del {
        annotate_from(lines, i + 1)
    } else {
        proof {
            lemma_kind_run_end(lines, LineKind::Del, i);
        }
        let dels = kind_run_end(lines, LineKind::Del, i);
        proof {
            lemma_kind_run_end(lines, LineKind::Del, i);
            lemma_kind_run_end(lines, LineKind::Add, dels);
        }
        let adds = kind_run_end(lines, LineKind::Add, dels);
        let next = if dels - i == adds - dels {
            pair_from(lines, i, dels, dels - i, 0)
        } else {
            lines
        };
        proof {
            lemma_pair_from(lines, i, dels, dels - i, 0);
        }
        annotate_from(next, adds)
    }
}

/// A hunk with its edited line pairs annotated.
pub open spec fn annotate_hunk(h: crate::model::HunkView) -> crate::model::HunkView {
    crate::model::HunkView { lines: annotate_from(h.lines, 0), ..h }
}

fn annotate_lines(lines: &mut Vec<Line>)
    ensures
        lines_view(final(lines)@) == annotate_from(lines_view(old(lines)@), 0),
{
    let ghost orig = lines_view(lines@);
    let mut i: usize = 0;
    while i < lines.len()
        invariant
            i <= lines.len(),
            annotate_from(orig, 0) == annotate_from(lines_view(lines@), i as int),
        decreases lines.len() - i,
    {
        let ghost cur = lines_view(lines@);
        assert(cur[i as int] == lines@[i as int]@);
        if lines[i].kind != LineKind::Del {
            i += 1;
            continue;
        }
        let mut dels = i;
        while dels < lines.len() && lines[dels].kind == LineKind::Del
            invariant
                i <= dels <= lines.len(),
                cur == lines_view(lines@),
                kind_run_end(cur, LineKind::Del, i as int) == kind_run_end(
                    cur,
                    LineKind::Del,
                    dels as int,
                ),
            decreases lines.len() - dels,
        {
            assert(cur[dels as int] == lines@[dels as int]@);
            dels += 1;
        }
        proof {
            if dels < lines.len() {
                assert(cur[dels as int] == lines@[dels as int]@);
            }
        }
        let mut adds = dels;
        while adds < lines.len() && lines[adds].kind == LineKind::Add
            invariant
                dels <= adds <= lines.len(),
                cur == lines_view(lines@),
                kind_run_end(cur, LineKind::Add, dels as int) == kind_run_end(
                    cur,
                    LineKind::Add,
                    adds as int,
                ),
            decreases lines.len() - adds,
        {
            assert(cur[adds as int] == lines@[adds as int]@);
            adds += 1;
        }
        proof {
            if adds < lines.len() {
                assert(cur[adds as int] == lines@[adds as int]@);
            }
            lemma_kind_run_end(cur, LineKind::Del, i as int);
        }
        let dn = dels - i;
        let an = adds - dels;
        if dn == an && dn > 0 {
            let mut k: usize = 0;
            while k < dn
                invariant
                    i + dn == dels,
                    dels + dn == adds,
                    lines@.len() == cur.len(),
                    adds <= lines.len(),
                    k <= dn,
                    pair_from(cur, i as int, dels as int, dn as int, 0) == pair_from(
                        lines_view(lines@),
                        i as int,
                        dels as int,
                        dn as int,
                        k as int,
                    ),
                decreases dn - k,
            {
                let ghost before = lines_view(lines@);
                let old = chars_of(lines[i + k].content.as_str());
                let new = chars_of(lines[dels + k].content.as_str());
                assert(before[i + k] == lines@[i + k]@);
                assert(before[dels + k] == lines@[dels + k]@);
                match changed_ranges(&old, &new) {
                    Some((ra, rb)) => {
                        lines[i + k].words = Some(ra);
                        lines[dels + k].words = Some(rb);
                        proof {
                            assert(lines_view(lines@) =~= before.update(
                                i + k,
                                LineView { words: Some(ra@), ..before[i + k] },
                            ).update(dels + k, LineView { words: Some(rb@), ..before[dels + k] }));
                        }
                    },
                    None => {},
                }
                k += 1;
            }
        }
        i = adds;
    }
    assert(annotate_from(lines_view(lines@), i as int) == lines_view(lines@));
}

/// Pair deletions with the additions that replaced them and annotate both
/// with the ranges that changed. Only equal-length runs are paired: guessing
/// across a 3-for-1 replacement produces highlights that mislead more than
/// they help.
pub fn annotate(hunks: &mut Vec<Hunk>)
    ensures
        crate::model::hunks_view(final(hunks)@) == crate::model::hunks_view(old(hunks)@).map_values(
            |h: crate::model::HunkView| annotate_hunk(h),
        ),
{
    let ghost orig = crate::model::hunks_view(hunks@);
    let mut h: usize = 0;
    while h < hunks.len()
        invariant
            h <= hunks.len(),
            orig.len() == hunks.len(),
            forall|t: int| 0 <= t < h ==> hunks@[t]@ == annotate_hunk(orig[t]),
            forall|t: int| h <= t < hunks.len() ==> hunks@[t]@ == orig[t],
        decreases hunks.len() - h,
    {
        annotate_lines(&mut hunks[h].lines);
        h += 1;
    }
    assert(crate::model::hunks_view(hunks@) =~= orig.map_values(
        |x: crate::model::HunkView| annotate_hunk(x),
    ));
}

/// Tokens that lie side by side in order, each at least one unit long,
/// within `[from, to]`.
pub open spec fn tiled(ts: Seq<TokenView>, from: nat, to: nat) -> bool {
    &&& forall|k: int| 0 <= k < ts.len() ==> #[trigger] ts[k].len >= 1
    &&& forall|k: int| 0 <= k < ts.len() ==> from <= #[trigger] ts[k].at
    &&& forall|k: int| 0 <= k < ts.len() ==> #[trigger] ts[k].at + ts[k].len <= to
    &&& forall|k: int| 0 <= k < ts.len() - 1 ==> #[trigger] ts[k].at + ts[k].len == ts[k + 1].at
}

proof fn lemma_tokens_from_tiled(s: Seq<char>, i: int)
    requires
        0 <= i <= s.len(),
    ensures
        tiled(tokens_from(s, i), utf16_len(s.take(i)), utf16_len(s)),
        tokens_from(s, i).len() > 0 ==> tokens_from(s, i)[0].at == utf16_len(s.take(i)),
    decreases s.len() - i,
{
    if i < s.len() {
        let e = if word_char(s[i]) {
            word_run_end(s, i)
        } else {
            i + 1
        };
        lemma_word_run_end(s, i);
        lemma_utf16_len_split(s, i, e);
        lemma_utf16_len_split(s, e, s.len() as int);
        assert(s.take(s.len() as int) =~= s);
        if !word_char(s[i]) {
            assert(s.subrange(i, i + 1) =~= seq![s[i]]);
            assert(seq![s[i]].drop_last() =~= Seq::<char>::empty());
            assert(utf16_len(Seq::<char>::empty()) == 0);
            assert(seq![s[i]].last() == s[i]);
            assert(utf16_len(seq![s[i]]) == utf16_width(s[i]));
        }
        lemma_tokens_from_tiled(s, e);
        let ts = tokens_from(s, i);
        let rest = tokens_from(s, e);
        assert(ts == seq![ts[0]] + rest);
        assert forall|k: int| 0 <= k < ts.len() - 1 implies #[trigger] ts[k].at + ts[k].len
            == ts[k + 1].at by {
            if k > 0 {
                assert(ts[k] == rest[k - 1]);
                assert(ts[k + 1] == rest[k]);
            }
        }
        assert forall|k: int| 0 <= k < ts.len() implies #[trigger] ts[k].at + ts[k].len
            <= utf16_len(s) && utf16_len(s.take(i)) <= ts[k].at && ts[k].len >= 1 by {
            if k > 0 {
                assert(ts[k] == rest[k - 1]);
            }
        }
    }
}

/// Ranges that are nonempty, lie within `[0, len]`, and come in order with
/// a gap between each and the next.
pub open spec fn well_formed(rs: Seq<Range>, len: nat) -> bool {
    &&& forall|k: int| 0 <= k < rs.len() ==> #[trigger] rs[k].start < rs[k].end <= len
    &&& forall|k: int| 0 <= k < rs.len() - 1 ==> #[trigger] rs[k].end < rs[k + 1].start
}

/// Ranges that are nonempty, lie within `[from, to]` and do not overlap.
spec fn ordered(rs: Seq<Range>, from: nat, to: nat) -> bool {
    &&& forall|k: int| 0 <= k < rs.len() ==> from <= #[trigger] rs[k].start < rs[k].end <= to
    &&& forall|k: int| 0 <= k < rs.len() - 1 ==> #[trigger] rs[k].end <= rs[k + 1].start
}

proof fn lemma_flagged_ordered(ts: Seq<TokenView>, flags: Seq<bool>, from: nat, to: nat)
    requires
        tiled(ts, from, to),
        flags.len() == ts.len(),
        to <= usize::MAX,
    ensures
        ordered(flagged_ranges(ts, flags), from, to),
        flagged_ranges(ts, flags).len() > 0 && ts.len() > 0 ==> flagged_ranges(
            ts,
            flags,
        ).last().end <= ts.last().at + ts.last().len,
    decreases ts.len(),
{
    if ts.len() > 0 {
        let pre = ts.drop_last();
        let last = ts.last();
        assert(tiled(pre, from, to)) by {
            assert forall|k: int| 0 <= k < pre.len() - 1 implies #[trigger] pre[k].at
                + pre[k].len == pre[k + 1].at by {
                assert(pre[k] == ts[k] && pre[k + 1] == ts[k + 1]);
            }
            assert forall|k: int| 0 <= k < pre.len() implies #[trigger] pre[k].len >= 1 && from
                <= pre[k].at && pre[k].at + pre[k].len <= to by {
                assert(pre[k] == ts[k]);
            }
        }
        lemma_flagged_ordered(pre, flags.drop_last(), from, to);
        let rest = flagged_ranges(pre, flags.drop_last());
        if rest.len() > 0 && pre.len() > 0 {
            assert(ts[pre.len() - 1].at + ts[pre.len() - 1].len == last.at);
        }
        assert(last.len >= 1 && from <= last.at && last.at + last.len <= to);
    }
}

proof fn lemma_coalesce(rs: Seq<Range>, from: nat, to: nat)
    requires
        ordered(rs, from, to),
    ensures
        well_formed(coalesce(rs), to),
        coalesce(rs).len() > 0 ==> rs.len() > 0 && coalesce(rs).last().end == rs.last().end,
        coalesce(rs).len() > 0 ==> from <= coalesce(rs)[0].start,
        coalesce(rs).len() <= rs.len(),
    decreases rs.len(),
{
    if rs.len() > 0 {
        let pre = rs.drop_last();
        assert(ordered(pre, from, to)) by {
            assert forall|k: int| 0 <= k < pre.len() - 1 implies #[trigger] pre[k].end
                <= pre[k + 1].start by {
                assert(pre[k] == rs[k] && pre[k + 1] == rs[k + 1]);
            }
            assert forall|k: int| 0 <= k < pre.len() implies from <= #[trigger] pre[k].start
                < pre[k].end <= to by {
                assert(pre[k] == rs[k]);
            }
        }
        lemma_coalesce(pre, from, to);
        let out = coalesce(pre);
        let r = rs.last();
        if out.len() > 0 {
            assert(pre[pre.len() - 1] == rs[rs.len() - 2]);
        }
    }
}

#[verifier::spinoff_prover]
#[verifier::rlimit(50)]
proof fn lemma_side_well_formed(s: Seq<char>, lo: int, hi: int, flags: Seq<bool>)
    requires
        0 <= lo <= hi <= tokens_of(s).len(),
        flags.len() == hi - lo,
        s.len() <= MAX_LINE,
    ensures
        well_formed(coalesce(flagged_ranges(tokens_of(s).subrange(lo, hi), flags)), utf16_len(s)),
{
    lemma_utf16_len_split(s, 0, s.len() as int);
    assert(s.subrange(0, s.len() as int) =~= s);
    assert(s.take(0) =~= Seq::<char>::empty());
    let ta = tokens_of(s);
    lemma_tokens_from_tiled(s, 0);
    let ma = ta.subrange(lo, hi);
    assert(tiled(ma, 0, utf16_len(s))) by {
        assert forall|k: int| 0 <= k < ma.len() - 1 implies #[trigger] ma[k].at + ma[k].len
            == ma[k + 1].at by {
            assert(ma[k] == ta[lo + k] && ma[k + 1] == ta[lo + k + 1]);
        }
        assert forall|k: int| 0 <= k < ma.len() implies #[trigger] ma[k].len >= 1 && 0
            <= ma[k].at && ma[k].at + ma[k].len <= utf16_len(s) by {
            assert(ma[k] == ta[lo + k]);
        }
    }
    lemma_flagged_ordered(ma, flags, 0, utf16_len(s));
    lemma_coalesce(flagged_ranges(ma, flags), 0, utf16_len(s));
}

/// Every range of a changed line pair is a nonempty slice of its line in
/// UTF-16 units, and the ranges come in order with a gap between each and the
/// next, so the browser can slice and mark each directly.
pub proof fn law_changed_ranges_well_formed(old: Seq<char>, new: Seq<char>)
    ensures
        changed_ranges_spec(old, new) matches Some((ra, rb)) ==> well_formed(ra, utf16_len(old))
            && well_formed(rb, utf16_len(new)),
{
    if let Some((ra, rb)) = changed_ranges_spec(old, new) {
        lemma_utf8_len_at_least(old);
        lemma_utf8_len_at_least(new);
        let ta = tokens_of(old);
        let tb = tokens_of(new);
        let head = common_prefix(texts(ta), texts(tb), 0);
        lemma_common_prefix(texts(ta), texts(tb), 0);
        let tail = common_suffix(texts(ta).skip(head), texts(tb).skip(head), 0);
        lemma_common_suffix(texts(ta).skip(head), texts(tb).skip(head), 0);
        let ma = ta.subrange(head, ta.len() - tail);
        let mb = tb.subrange(head, tb.len() - tail);
        lemma_trace_len(texts(ma), texts(mb), 0, 0);
        let (fa, fb) = trace(texts(ma), texts(mb), 0, 0);
        lemma_side_well_formed(old, head, ta.len() - tail, fa);
        lemma_side_well_formed(new, head, tb.len() - tail, fb);
    }
}

/// `after` is `before` with nothing changed but word ranges, and those only
/// on deleted and added lines, each well formed for its line's text.
pub open spec fn marks_only_changed_lines(before: Seq<LineView>, after: Seq<LineView>) -> bool {
    &&& after.len() == before.len()
    &&& forall|t: int|
        0 <= t < before.len() ==> {
            let l = #[trigger] after[t];
            &&& l.kind == before[t].kind
            &&& l.content == before[t].content
            &&& l.old_no == before[t].old_no
            &&& l.new_no == before[t].new_no
            &&& l.no_newline == before[t].no_newline
            &&& l.syntax == before[t].syntax
            &&& l.words != before[t].words ==> {
                &&& l.kind == LineKind::Del || l.kind == LineKind::Add
                &&& l.words matches Some(rs) && well_formed(rs, utf16_len(l.content))
            }
        }
}

proof fn lemma_marks_trans(a: Seq<LineView>, b: Seq<LineView>, c: Seq<LineView>)
    requires
        marks_only_changed_lines(a, b),
        marks_only_changed_lines(b, c),
    ensures
        marks_only_changed_lines(a, c),
{
    assert forall|t: int| 0 <= t < a.len() implies {
        let l = #[trigger] c[t];
        &&& l.kind == a[t].kind
        &&& l.content == a[t].content
        &&& l.old_no == a[t].old_no
        &&& l.new_no == a[t].new_no
        &&& l.no_newline == a[t].no_newline
        &&& l.syntax == a[t].syntax
        &&& l.words != a[t].words ==> {
            &&& l.kind == LineKind::Del || l.kind == LineKind::Add
            &&& l.words matches Some(rs) && well_formed(rs, utf16_len(l.content))
        }
    } by {
        let x = b[t];
        let y = c[t];
    }
}

proof fn lemma_pair_marks(lines: Seq<LineView>, i: int, d: int, n: int, k: int)
    requires
        0 <= k,
        forall|t: int| i <= t < i + n && 0 <= t < lines.len() ==> lines[t].kind == LineKind::Del,
        forall|t: int| d <= t < d + n && 0 <= t < lines.len() ==> lines[t].kind == LineKind::Add,
    ensures
        marks_only_changed_lines(lines, pair_from(lines, i, d, n, k)),
    decreases n - k,
{
    if k >= n || i + k < 0 || i + k >= lines.len() || d + k < 0 || d + k >= lines.len() {
        assert(marks_only_changed_lines(lines, lines));
    } else {
        let next = match changed_ranges_spec(lines[i + k].content, lines[d + k].content) {
            Some((ra, rb)) => lines.update(
                i + k,
                LineView { words: Some(ra), ..lines[i + k] },
            ).update(d + k, LineView { words: Some(rb), ..lines[d + k] }),
            None => lines,
        };
        law_changed_ranges_well_formed(lines[i + k].content, lines[d + k].content);
        assert(i + k != d + k);
        assert(marks_only_changed_lines(lines, next));
        lemma_pair_marks(next, i, d, n, k + 1);
        lemma_marks_trans(lines, next, pair_from(next, i, d, n, k + 1));
    }
}

proof fn lemma_annotate_marks(lines: Seq<LineView>, i: int)
    requires
        0 <= i,
    ensures
        marks_only_changed_lines(lines, annotate_from(lines, i)),
    decreases lines.len() - i,
{
    if i >= lines.len() {
        assert(marks_only_changed_lines(lines, lines));
    } else if lines[i].kind != LineKind::Del {
        lemma_annotate_marks(lines, i + 1);
    } else {
        lemma_kind_run_end(lines, LineKind::Del, i);
        let dels = kind_run_end(lines, LineKind::Del, i);
        lemma_kind_run_end(lines, LineKind::Add, dels);
        let adds = kind_run_end(lines, LineKind::Add, dels);
        let next = if dels - i == adds - dels {
            pair_from(lines, i, dels, dels - i, 0)
        } else {
            lines
        };
        if dels - i == adds - dels {
            lemma_pair_marks(lines, i, dels, dels - i, 0);
        } else {
            assert(marks_only_changed_lines(lines, lines));
        }
        lemma_annotate_marks(next, adds);
        lemma_marks_trans(lines, next, annotate_from(next, adds));
    }
}

/// Word-level diffing changes nothing in a hunk but word ranges, and sets
/// them only on deleted and added lines, each to ranges that are nonempty
/// UTF-16 slices of that line's text, in order and apart.
pub proof fn law_annotate_marks_only_changed_lines(h: crate::model::HunkView)
    ensures
        marks_only_changed_lines(h.lines, annotate_hunk(h).lines),
        annotate_hunk(h).header == h.header,
        annotate_hunk(h).old_start == h.old_start,
        annotate_hunk(h).new_start == h.new_start,
        annotate_hunk(h).old_lines == h.old_lines,
        annotate_hunk(h).new_lines == h.new_lines,
        annotate_hunk(h).section == h.section,
{
    lemma_annotate_marks(h.lines, 0);
}

/// The items of `a` whose flag is clear, in order.
pub open spec fn kept(a: Seq<Seq<char>>, f: Seq<bool>) -> Seq<Seq<char>>
    decreases a.len(),
{
    if a.len() == 0 || f.len() == 0 {
        Seq::empty()
    } else if !f[0] {
        seq![a[0]] + kept(a.drop_first(), f.drop_first())
    } else {
        kept(a.drop_first(), f.drop_first())
    }
}

proof fn lemma_kept_all_set(a: Seq<Seq<char>>, n: int)
    ensures
        kept(a, all_set(n)) =~= Seq::<Seq<char>>::empty(),
    decreases a.len(),
{
    if a.len() > 0 && n > 0 {
        assert(all_set(n).drop_first() =~= all_set(n - 1));
        lemma_kept_all_set(a.drop_first(), n - 1);
    }
}

/// The items the table walk keeps read the same in both sequences, and
/// there are as many of them as a longest common subsequence has: the
/// unmarked tokens of an edited line pair are a longest common subsequence
/// of the two.
pub proof fn law_trace_keeps_a_common_subsequence(
    a: Seq<Seq<char>>,
    b: Seq<Seq<char>>,
    i: int,
    j: int,
)
    requires
        0 <= i <= a.len(),
        0 <= j <= b.len(),
    ensures
        kept(a.skip(i), trace(a, b, i, j).0) == kept(b.skip(j), trace(a, b, i, j).1),
        kept(a.skip(i), trace(a, b, i, j).0).len() == lcs(a, b, i, j),
    decreases a.len() - i + b.len() - j,
{
    if i >= a.len() || j >= b.len() {
        lemma_kept_all_set(a.skip(i), a.len() - i);
        lemma_kept_all_set(b.skip(j), b.len() - j);
    } else {
        assert(a.skip(i).drop_first() =~= a.skip(i + 1));
        assert(b.skip(j).drop_first() =~= b.skip(j + 1));
        assert(a.skip(i)[0] == a[i]);
        assert(b.skip(j)[0] == b[j]);
        if a[i] == b[j] {
            law_trace_keeps_a_common_subsequence(a, b, i + 1, j + 1);
            let (x, y) = trace(a, b, i + 1, j + 1);
            assert((seq![false] + x).drop_first() =~= x);
            assert((seq![false] + y).drop_first() =~= y);
        } else if lcs(a, b, i + 1, j) >= lcs(a, b, i, j + 1) {
            law_trace_keeps_a_common_subsequence(a, b, i + 1, j);
            let (x, y) = trace(a, b, i + 1, j);
            assert((seq![true] + x).drop_first() =~= x);
        } else {
            law_trace_keeps_a_common_subsequence(a, b, i, j + 1);
            let (x, y) = trace(a, b, i, j + 1);
            assert((seq![true] + y).drop_first() =~= y);
        }
    }
}

/// Index of the first line of the run of `k`-kind lines that ends just
/// before `e`.
pub open spec fn kind_run_start(lines: Seq<LineView>, k: LineKind, e: int) -> int
    decreases e,
{
    if 0 < e <= lines.len() && lines[e - 1].kind == k {
        kind_run_start(lines, k, e - 1)
    } else {
        e
    }
}

proof fn lemma_kind_run_start(lines: Seq<LineView>, k: LineKind, e: int)
    requires
        0 <= e <= lines.len(),
    ensures
        0 <= kind_run_start(lines, k, e) <= e,
        forall|t: int| kind_run_start(lines, k, e) <= t < e ==> lines[t].kind == k,
        kind_run_start(lines, k, e) > 0 ==> lines[kind_run_start(lines, k, e) - 1].kind != k,
    decreases e,
{
    if 0 < e && lines[e - 1].kind == k {
        lemma_kind_run_start(lines, k, e - 1);
    }
}

/// Within a run of `k`-kind lines that ends at `e`, the run ends at `e`
/// from any of its lines.
proof fn lemma_run_end_from(lines: Seq<LineView>, k: LineKind, t: int, e: int)
    requires
        0 <= t <= e <= lines.len(),
        forall|s: int| t <= s < e ==> lines[s].kind == k,
        e == lines.len() || lines[e].kind != k,
    ensures
        kind_run_end(lines, k, t) == e,
    decreases e - t,
{
    if t < e {
        lemma_run_end_from(lines, k, t + 1, e);
    }
}

/// Within a run of `k`-kind lines that starts at `b`, the run starts at `b`
/// from any of its lines.
proof fn lemma_run_start_from(lines: Seq<LineView>, k: LineKind, b: int, t: int)
    requires
        0 <= b <= t <= lines.len(),
        forall|s: int| b <= s < t ==> lines[s].kind == k,
        b == 0 || lines[b - 1].kind != k,
    ensures
        kind_run_start(lines, k, t) == b,
    decreases t - b,
{
    if b < t {
        lemma_run_start_from(lines, k, b, t - 1);
    }
}

/// Lines of the same kinds have the same runs.
proof fn lemma_run_end_same_kinds(a: Seq<LineView>, b: Seq<LineView>, k: LineKind, i: int)
    requires
        a.len() == b.len(),
        forall|t: int| 0 <= t < a.len() ==> (#[trigger] a[t]).kind == b[t].kind,
    ensures
        kind_run_end(a, k, i) == kind_run_end(b, k, i),
    decreases a.len() - i,
{
    if 0 <= i < a.len() && a[i].kind == k {
        lemma_run_end_same_kinds(a, b, k, i + 1);
    }
}

/// The line a line of a hunk is paired with for word-level diffing: a run
/// of deletions right before a run of as many additions pairs them in
/// order, the first deletion with the first addition; lines of runs of
/// unequal lengths, and context lines, are paired with none.
pub open spec fn partner(lines: Seq<LineView>, t: int) -> Option<int> {
    if lines[t].kind == LineKind::Del {
        let i = kind_run_start(lines, LineKind::Del, t);
        let d = kind_run_end(lines, LineKind::Del, t);
        let a = kind_run_end(lines, LineKind::Add, d);
        if d - i == a - d {
            Some(t + (d - i))
        } else {
            None
        }
    } else if lines[t].kind == LineKind::Add {
        let d = kind_run_start(lines, LineKind::Add, t);
        let i = kind_run_start(lines, LineKind::Del, d);
        let a = kind_run_end(lines, LineKind::Add, t);
        if i < d && d - i == a - d {
            Some(t - (d - i))
        } else {
            None
        }
    } else {
        None
    }
}

/// The word ranges line `t` ends up with: a paired deletion gets the
/// changed ranges of its old text, a paired addition those of its new
/// text, where the pair has changed ranges at all; every other line keeps
/// what it had.
pub open spec fn paired_words(lines: Seq<LineView>, t: int) -> Option<Seq<Range>> {
    match partner(lines, t) {
        Some(u) => if lines[t].kind == LineKind::Del {
            match changed_ranges_spec(lines[t].content, lines[u].content) {
                Some((ra, rb)) => Some(ra),
                None => lines[t].words,
            }
        } else {
            match changed_ranges_spec(lines[u].content, lines[t].content) {
                Some((ra, rb)) => Some(rb),
                None => lines[t].words,
            }
        },
        None => lines[t].words,
    }
}

/// Where the pairing block of line `t` begins: its run of deletions.
spec fn block_start(lines: Seq<LineView>, t: int) -> int {
    if lines[t].kind == LineKind::Del {
        kind_run_start(lines, LineKind::Del, t)
    } else if lines[t].kind == LineKind::Add {
        let d = kind_run_start(lines, LineKind::Add, t);
        let i = kind_run_start(lines, LineKind::Del, d);
        if i < d {
            i
        } else {
            t
        }
    } else {
        t
    }
}

proof fn lemma_pair_effect(lines: Seq<LineView>, i: int, d: int, n: int, k: int)
    requires
        0 <= i,
        i + n <= d,
        d + n <= lines.len(),
        0 <= k <= n,
    ensures
        forall|t: int|
            0 <= t < lines.len() ==> #[trigger] pair_from(lines, i, d, n, k)[t].words == if i + k
                <= t < i + n {
                match changed_ranges_spec(lines[t].content, lines[t + (d - i)].content) {
                    Some((ra, rb)) => Some(ra),
                    None => lines[t].words,
                }
            } else if d + k <= t < d + n {
                match changed_ranges_spec(lines[t - (d - i)].content, lines[t].content) {
                    Some((ra, rb)) => Some(rb),
                    None => lines[t].words,
                }
            } else {
                lines[t].words
            },
    decreases n - k,
{
    if k < n {
        let next = match changed_ranges_spec(lines[i + k].content, lines[d + k].content) {
            Some((ra, rb)) => lines.update(
                i + k,
                LineView { words: Some(ra), ..lines[i + k] },
            ).update(d + k, LineView { words: Some(rb), ..lines[d + k] }),
            None => lines,
        };
        lemma_pair_effect(next, i, d, n, k + 1);
        assert forall|t: int| 0 <= t < lines.len() implies next[t].content == lines[t].content by {}
    }
}

proof fn lemma_annotate_pairs(orig: Seq<LineView>, lines: Seq<LineView>, i: int)
    requires
        0 <= i <= orig.len(),
        lines.len() == orig.len(),
        forall|t: int|
            0 <= t < orig.len() ==> (#[trigger] lines[t]).kind == orig[t].kind && lines[t].content
                == orig[t].content,
        forall|t: int| i <= t < orig.len() ==> #[trigger] lines[t] == orig[t],
        forall|t: int| i <= t < orig.len() ==> #[trigger] block_start(orig, t) >= i,
    ensures
        forall|t: int|
            0 <= t < orig.len() ==> (#[trigger] annotate_from(lines, i)[t]).words == if t >= i {
                paired_words(orig, t)
            } else {
                lines[t].words
            },
    decreases orig.len() - i,
{
    if i < orig.len() {
        if lines[i].kind != LineKind::Del {
            assert forall|t: int| i + 1 <= t < orig.len() implies #[trigger] block_start(orig, t) >= i + 1 by {
                assert(block_start(orig, t) >= i);
                if block_start(orig, t) == i {
                    lemma_block_start_del(orig, t);
                }
            }
            lemma_annotate_pairs(orig, lines, i + 1);
            // Line `i` keeps its ranges: it is context, or an addition with
            // no deletions right before its run.
            if orig[i].kind == LineKind::Add {
                lemma_kind_run_start(orig, LineKind::Add, i);
                let d = kind_run_start(orig, LineKind::Add, i);
                lemma_kind_run_start(orig, LineKind::Del, d);
                assert(block_start(orig, i) >= i);
            }
        } else {
            lemma_run_end_same_kinds(lines, orig, LineKind::Del, i);
            lemma_kind_run_end(orig, LineKind::Del, i);
            let dels = kind_run_end(orig, LineKind::Del, i);
            lemma_run_end_same_kinds(lines, orig, LineKind::Add, dels);
            lemma_kind_run_end(orig, LineKind::Add, dels);
            let adds = kind_run_end(orig, LineKind::Add, dels);
            let n = dels - i;
            let next = if dels - i == adds - dels {
                pair_from(lines, i, dels, n, 0)
            } else {
                lines
            };
            lemma_pair_from(lines, i, dels, n, 0);
            if dels - i == adds - dels {
                lemma_pair_effect(lines, i, dels, n, 0);
            }
            // The run of deletions starts at `i`.
            lemma_kind_run_start(orig, LineKind::Del, i);
            assert(kind_run_start(orig, LineKind::Del, i) == i) by {
                assert(block_start(orig, i) >= i);
            }
            assert forall|t: int| adds <= t < orig.len() implies #[trigger] block_start(orig, t) >= adds by {
                lemma_block_start_after(orig, i, dels, adds, t);
            }
            assert forall|t: int| adds <= t < orig.len() implies #[trigger] next[t] == orig[t] by {
                if dels - i == adds - dels {
                    assert(next[t].words == lines[t].words);
                }
            }
            lemma_annotate_pairs(orig, next, adds);
            assert(annotate_from(lines, i) == annotate_from(next, adds));
            lemma_run_start_from(orig, LineKind::Del, i, dels);
            assert forall|t: int| 0 <= t < orig.len() implies (#[trigger] annotate_from(lines, i)[t]).words
                == if t >= i {
                paired_words(orig, t)
            } else {
                lines[t].words
            } by {
                if t < i {
                    assert(next[t].words == lines[t].words);
                } else if t < dels {
                    lemma_run_start_from(orig, LineKind::Del, i, t);
                    lemma_run_end_from(orig, LineKind::Del, t, dels);
                    assert(partner(orig, t) == if dels - i == adds - dels {
                        Some(t + n)
                    } else {
                        None::<int>
                    });
                    if dels - i == adds - dels {
                        assert(lines[t + n].content == orig[t + n].content);
                    }
                } else if t < adds {
                    lemma_run_start_from(orig, LineKind::Add, dels, t);
                    lemma_run_end_from(orig, LineKind::Add, t, adds);
                    assert(partner(orig, t) == if dels - i == adds - dels {
                        Some(t - n)
                    } else {
                        None::<int>
                    });
                    if dels - i == adds - dels {
                        assert(lines[t - n].content == orig[t - n].content);
                    }
                }
            }
        }
    }
}

/// A block that starts at `i` starts on a deletion.
proof fn lemma_block_start_del(lines: Seq<LineView>, t: int)
    requires
        0 <= t < lines.len(),
        block_start(lines, t) != t,
    ensures
        lines[block_start(lines, t)].kind == LineKind::Del,
{
    if lines[t].kind == LineKind::Del {
        lemma_kind_run_start(lines, LineKind::Del, t);
    } else if lines[t].kind == LineKind::Add {
        lemma_kind_run_start(lines, LineKind::Add, t);
        let d = kind_run_start(lines, LineKind::Add, t);
        lemma_kind_run_start(lines, LineKind::Del, d);
    }
}

/// Lines after the block of the deletions at `i..dels` and the additions
/// at `dels..adds` begin their own blocks at `adds` or later.
proof fn lemma_block_start_after(lines: Seq<LineView>, i: int, dels: int, adds: int, t: int)
    requires
        0 <= i < dels <= adds <= t < lines.len(),
        forall|s: int| i <= s < dels ==> lines[s].kind == LineKind::Del,
        lines[dels].kind != LineKind::Del || dels == lines.len(),
        forall|s: int| dels <= s < adds ==> lines[s].kind == LineKind::Add,
        adds == lines.len() || lines[adds].kind != LineKind::Add,
        block_start(lines, t) >= i,
    ensures
        block_start(lines, t) >= adds,
{
    if block_start(lines, t) < adds {
        if lines[t].kind == LineKind::Del {
            lemma_kind_run_start(lines, LineKind::Del, t);
            let b = block_start(lines, t);
            assert(b < t);
            assert(lines[b].kind == LineKind::Del);
            if b <= dels {
                if dels < t {
                    assert(lines[dels].kind == LineKind::Del);
                }
            } else {
                assert(lines[b].kind == LineKind::Add);
            }
        } else if lines[t].kind == LineKind::Add {
            lemma_kind_run_start(lines, LineKind::Add, t);
            let d = kind_run_start(lines, LineKind::Add, t);
            lemma_kind_run_start(lines, LineKind::Del, d);
            let b = kind_run_start(lines, LineKind::Del, d);
            assert(b < d);
            assert(lines[d].kind == LineKind::Add);
            assert(lines[d - 1].kind == LineKind::Del);
            if d < dels {
                assert(lines[d].kind == LineKind::Del);
            } else if d == dels {
                assert(lines[adds].kind == LineKind::Add);
            } else if d < adds {
                assert(lines[d - 1].kind == LineKind::Add);
            } else if adds > dels {
                assert(lines[adds - 1].kind == LineKind::Add);
                assert(lines[adds - 1].kind == LineKind::Del);
            } else if dels < d {
                assert(lines[dels].kind == LineKind::Del);
            } else {
                assert(lines[adds].kind == LineKind::Add);
            }
        }
    }
}

/// Which lines are paired for word-level diffing: a run of deletions right
/// before a run of as many additions pairs its lines in order, and each
/// paired line gets the changed ranges of its pair; runs of unequal
/// lengths, and context lines, keep the ranges they had.
pub proof fn law_equal_runs_are_paired(h: crate::model::HunkView)
    ensures
        forall|t: int|
            0 <= t < h.lines.len() ==> (#[trigger] annotate_hunk(h).lines[t]).words == paired_words(
                h.lines,
                t,
            ),
{
    let l = h.lines;
    assert forall|t: int| 0 <= t < l.len() implies #[trigger] block_start(l, t) >= 0 by {
        if block_start(l, t) != t {
            lemma_block_start_del(l, t);
        }
        if l[t].kind == LineKind::Del {
            lemma_kind_run_start(l, LineKind::Del, t);
        } else if l[t].kind == LineKind::Add {
            lemma_kind_run_start(l, LineKind::Add, t);
            lemma_kind_run_start(l, LineKind::Del, kind_run_start(l, LineKind::Add, t));
        }
    }
    lemma_annotate_pairs(l, l, 0);
}

/// Whether `xa` and `xb` pick a common subsequence of `a[i..]` and
/// `b[j..]`: as many indices each, increasing, and picking equal items.
pub open spec fn common_at(
    a: Seq<Seq<char>>,
    b: Seq<Seq<char>>,
    i: int,
    j: int,
    xa: Seq<int>,
    xb: Seq<int>,
) -> bool {
    &&& xa.len() == xb.len()
    &&& forall|t: int| 0 <= t < xa.len() ==> i <= #[trigger] xa[t] < a.len() && j <= xb[t] < b.len() && a[xa[t]] == b[xb[t]]
    &&& forall|t: int| 0 <= t < xa.len() - 1 ==> #[trigger] xa[t] < xa[t + 1] && xb[t] < xb[t + 1]
}

proof fn lemma_common_le_lcs(
    a: Seq<Seq<char>>,
    b: Seq<Seq<char>>,
    i: int,
    j: int,
    xa: Seq<int>,
    xb: Seq<int>,
)
    requires
        0 <= i,
        0 <= j,
        common_at(a, b, i, j, xa, xb),
    ensures
        xa.len() <= lcs(a, b, i, j),
    decreases a.len() - i + b.len() - j,
{
    if xa.len() > 0 {
        assert(i <= xa[0] < a.len() && j <= xb[0] < b.len());
        if a[i] == b[j] {
            let ra = xa.drop_first();
            let rb = xb.drop_first();
            assert forall|t: int| 0 <= t < ra.len() implies i + 1 <= #[trigger] ra[t] < a.len() && j + 1
                <= rb[t] < b.len() && a[ra[t]] == b[rb[t]] by {
                assert(ra[t] == xa[t + 1] && rb[t] == xb[t + 1]);
                lemma_increasing(xa, xb, 0, t + 1);
            }
            assert forall|t: int| 0 <= t < ra.len() - 1 implies #[trigger] ra[t] < ra[t + 1] && rb[t]
                < rb[t + 1] by {
                assert(ra[t] == xa[t + 1] && ra[t + 1] == xa[t + 2]);
                assert(rb[t] == xb[t + 1] && rb[t + 1] == xb[t + 2]);
            }
            lemma_common_le_lcs(a, b, i + 1, j + 1, ra, rb);
        } else if xa[0] > i {
            assert forall|t: int| 0 <= t < xa.len() implies i + 1 <= #[trigger] xa[t] by {
                lemma_increasing(xa, xb, 0, t);
            }
            lemma_common_le_lcs(a, b, i + 1, j, xa, xb);
        } else {
            assert(xb[0] != j);
            assert forall|t: int| 0 <= t < xb.len() implies j + 1 <= #[trigger] xb[t] by {
                lemma_increasing(xa, xb, 0, t);
            }
            assert forall|t: int| 0 <= t < xa.len() implies i <= #[trigger] xa[t] < a.len() && j + 1
                <= xb[t] < b.len() && a[xa[t]] == b[xb[t]] by {
                assert(j + 1 <= xb[t]);
            }
            lemma_common_le_lcs(a, b, i, j + 1, xa, xb);
        }
    }
}

/// Increasing index sequences grow from any index to any later one.
proof fn lemma_increasing(xa: Seq<int>, xb: Seq<int>, s: int, t: int)
    requires
        0 <= s <= t < xa.len(),
        xa.len() == xb.len(),
        forall|u: int| 0 <= u < xa.len() - 1 ==> #[trigger] xa[u] < xa[u + 1] && xb[u] < xb[u + 1],
    ensures
        xa[s] <= xa[t] && xb[s] <= xb[t],
        s < t ==> xa[s] < xa[t] && xb[s] < xb[t],
    decreases t - s,
{
    if s < t {
        lemma_increasing(xa, xb, s, t - 1);
        assert(xa[t - 1] < xa[t] && xb[t - 1] < xb[t]);
    }
}

/// The table walk keeps a longest common subsequence: no common
/// subsequence of two token sequences is longer than the tokens it leaves
/// unmarked.
pub proof fn law_trace_keeps_a_longest(a: Seq<Seq<char>>, b: Seq<Seq<char>>, xa: Seq<int>, xb: Seq<int>)
    requires
        common_at(a, b, 0, 0, xa, xb),
    ensures
        xa.len() <= kept(a, trace(a, b, 0, 0).0).len(),
{
    lemma_common_le_lcs(a, b, 0, 0, xa, xb);
    law_trace_keeps_a_common_subsequence(a, b, 0, 0);
    assert(a.skip(0) =~= a);
}

/// The changed tokens of an edited line pair, as ranges of each line, before
/// touching ones are joined: shared leading and trailing tokens set aside,
/// the tokens of the rest outside a longest common subsequence.
pub open spec fn token_changes(old: Seq<char>, new: Seq<char>) -> (Seq<Range>, Seq<Range>) {
    let ta = tokens_of(old);
    let tb = tokens_of(new);
    let head = common_prefix(texts(ta), texts(tb), 0);
    let tail = common_suffix(texts(ta).skip(head), texts(tb).skip(head), 0);
    let ma = ta.subrange(head, ta.len() - tail);
    let mb = tb.subrange(head, tb.len() - tail);
    let (fa, fb) = trace(texts(ma), texts(mb), 0, 0);
    (flagged_ranges(ma, fa), flagged_ranges(mb, fb))
}

/// A pair is set aside as a rewrite only when both sides changed past three
/// quarters of their length: for short, differing lines with some changed
/// token, where either side changed by at most three quarters (or is
/// empty), the changed ranges are shown, joined where they touch.
pub proof fn law_rewrite_needs_both_sides(old: Seq<char>, new: Seq<char>)
    requires
        utf8_len(old) <= MAX_LINE,
        utf8_len(new) <= MAX_LINE,
        old != new,
        token_changes(old, new).0.len() > 0 || token_changes(old, new).1.len() > 0,
        old.len() == 0 || new.len() == 0 || 4 * span(token_changes(old, new).0) <= 3 * old.len() || 4
            * span(token_changes(old, new).1) <= 3 * new.len(),
    ensures
        changed_ranges_spec(old, new) == Some(
            (coalesce(token_changes(old, new).0), coalesce(token_changes(old, new).1)),
        ),
{
}

/// A near-total rewrite is shown as a plain replacement: for short,
/// differing, non-empty lines whose changed tokens cover more than three
/// quarters of each side, there are no changed ranges.
pub proof fn law_rewrite_of_both_sides_is_plain(old: Seq<char>, new: Seq<char>)
    requires
        utf8_len(old) <= MAX_LINE,
        utf8_len(new) <= MAX_LINE,
        old.len() > 0 && new.len() > 0,
        4 * span(token_changes(old, new).0) > 3 * old.len(),
        4 * span(token_changes(old, new).1) > 3 * new.len(),
    ensures
        changed_ranges_spec(old, new) is None,
{
}

} // verus!
