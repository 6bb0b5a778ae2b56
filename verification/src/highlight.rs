//! Syntax highlighting.
//!
//! Highlighting is computed over the **whole file**, never over the diff's
//! fragments. A hunk can begin inside a block comment or a multi-line string,
//! and a per-line highlighter would render that opening as live code —
//! confidently wrong, which is worse than leaving it plain.
//!
//! Scopes collapse to a handful of classes rather than colours, so the palette
//! stays in CSS and follows the light and dark themes like everything else.
//! Offsets are UTF-16 code units, matching the word-level ranges, so the
//! browser can slice with them directly.

use vstd::prelude::*;

use crate::model::{
    hunks_view, spans_view, FileDiff, FileDiffView, HunkView, LineKind, LineView, Span, SpanView,
};
use crate::cli::has_char;
use crate::text::{
    chars_of, last_index, last_index_exec, lemma_last_index, lemma_line_break,
    lemma_utf8_len_at_least, lemma_utf8_len_grows, line_break, same, slice_of, string_from,
    utf8_len, utf8_len_exec, utf8_width_exec,
};
use syntect::parsing::{ParseState, Scope, ScopeStack, ScopeStackOp, SyntaxReference, SyntaxSet};
use crate::words::{lemma_utf16_len_split, utf16_len, utf16_width_exec};

verus! {

/// The lines of `s[i..]` as `LinesWithEndings` yields them: each keeps its
/// line feed, and a final line without one is kept as it is.
pub open spec fn lines_with_endings_from(s: Seq<char>, i: int) -> Seq<Seq<char>>
    decreases s.len() - i,
{
    if i < 0 || i >= s.len() {
        Seq::empty()
    } else {
        proof {
            lemma_line_break(s, i);
        }
        let e = line_break(s, i);
        if e < s.len() {
            seq![s.subrange(i, e + 1)] + lines_with_endings_from(s, e + 1)
        } else {
            seq![s.subrange(i, s.len() as int)]
        }
    }
}

/// The lines of `s`, each with its line ending.
pub open spec fn lines_with_endings(s: Seq<char>) -> Seq<Seq<char>> {
    lines_with_endings_from(s, 0)
}

proof fn lemma_lines_with_endings_short(s: Seq<char>, i: int)
    requires
        0 <= i <= s.len(),
    ensures
        forall|k: int|
            0 <= k < lines_with_endings_from(s, i).len() ==> #[trigger] lines_with_endings_from(
                s,
                i,
            )[k].len() <= s.len() - i,
    decreases s.len() - i,
{
    if i < s.len() {
        lemma_line_break(s, i);
        let e = line_break(s, i);
        if e < s.len() {
            lemma_lines_with_endings_short(s, e + 1);
            let rest = lines_with_endings_from(s, e + 1);
            assert forall|k: int|
                0 <= k < lines_with_endings_from(s, i).len() implies #[trigger] lines_with_endings_from(
                s,
                i,
            )[k].len() <= s.len() - i by {
                if k > 0 {
                    assert(lines_with_endings_from(s, i)[k] == rest[k - 1]);
                }
            }
        }
    }
}

fn lines_with_endings_exec(s: &Vec<char>) -> (v: Vec<Vec<char>>)
    ensures
        crate::text::vecs_view(v@) == lines_with_endings(s@),
        forall|k: int| 0 <= k < v.len() ==> (#[trigger] v@[k]).len() <= s.len(),
{
    proof {
        lemma_lines_with_endings_short(s@, 0);
    }
    let mut out: Vec<Vec<char>> = Vec::new();
    let mut i: usize = 0;
    while i < s.len()
        invariant
            i <= s.len(),
            crate::text::vecs_view(out@) + lines_with_endings_from(s@, i as int)
                == lines_with_endings(s@),
        decreases s.len() - i,
    {
        let mut e = i;
        while e < s.len() && s[e] != '\n'
            invariant
                i <= e <= s.len(),
                line_break(s@, i as int) == line_break(s@, e as int),
            decreases s.len() - e,
        {
            e += 1;
        }
        proof {
            lemma_line_break(s@, i as int);
        }
        let end = if e < s.len() {
            e + 1
        } else {
            e
        };
        let l = slice_of(s, i, end);
        let ghost before = out@;
        out.push(l);
        assert(crate::text::vecs_view(out@) =~= crate::text::vecs_view(before).push(l@));
        if e < s.len() {
            assert(lines_with_endings_from(s@, i as int) == seq![l@] + lines_with_endings_from(
                s@,
                e + 1,
            ));
        } else {
            assert(lines_with_endings_from(s@, i as int) == seq![l@]);
            assert(lines_with_endings_from(s@, end as int) =~= Seq::<Seq<char>>::empty());
        }
        assert(crate::text::vecs_view(out@) + lines_with_endings_from(s@, end as int)
            =~= crate::text::vecs_view(before) + lines_with_endings_from(s@, i as int));
        i = end;
    }
    assert(lines_with_endings_from(s@, i as int) =~= Seq::<Seq<char>>::empty());
    assert(crate::text::vecs_view(out@) =~= lines_with_endings(s@));
    assert forall|k: int| 0 <= k < out.len() implies (#[trigger] out@[k]).len() <= s.len() by {
        assert(out@[k]@ == lines_with_endings(s@)[k]);
    }
    out
}

/// The last component of a path: what follows its last `/`.
pub open spec fn file_name(path: Seq<char>) -> Seq<char> {
    path.skip(last_index(path, '/', path.len() as int) + 1)
}

/// What follows the last `.` of a name, if it has one.
pub open spec fn extension(name: Seq<char>) -> Option<Seq<char>> {
    let k = last_index(name, '.', name.len() as int);
    if k >= 0 {
        Some(name.skip(k + 1))
    } else {
        None
    }
}

fn file_name_exec(path: &Vec<char>) -> (r: Vec<char>)
    ensures
        r@ == file_name(path@),
{
    proof {
        lemma_last_index(path@, '/', path.len() as int);
    }
    match last_index_exec(path, '/') {
        Some(k) => slice_of(path, k + 1, path.len()),
        None => {
            let r = slice_of(path, 0, path.len());
            assert(path@.skip(0) =~= path@);
            r
        },
    }
}

fn extension_exec(name: &Vec<char>) -> (r: Option<Vec<char>>)
    ensures
        match r {
            Some(e) => extension(name@) == Some(e@),
            None => extension(name@) is None,
        },
{
    proof {
        lemma_last_index(name@, '.', name.len() as int);
    }
    match last_index_exec(name, '.') {
        Some(k) => Some(slice_of(name, k + 1, name.len())),
        None => None,
    }
}

/// Whether scope `p` is a prefix of scope `n`, atom by atom, as
/// `Scope::is_prefix_of` tests it: `string` is a prefix of
/// `string.quoted.double`, and `source.php` of neither `source` nor
/// `source.phpx`.
pub open spec fn atom_prefix(p: Seq<char>, n: Seq<char>) -> bool {
    n == p || (p.len() < n.len() && n.take(p.len() as int) == p && n[p.len() as int] == '.')
}

fn atom_prefix_exec(p: &Vec<char>, n: &Vec<char>) -> (b: bool)
    ensures
        b == atom_prefix(p@, n@),
{
    if p.len() > n.len() {
        return false;
    }
    let mut i: usize = 0;
    while i < p.len()
        invariant
            i <= p.len() <= n.len(),
            forall|t: int| 0 <= t < i ==> p@[t] == n@[t],
        decreases p.len() - i,
    {
        if p[i] != n[i] {
            assert(n@.take(p.len() as int)[i as int] != p@[i as int]);
            return false;
        }
        i += 1;
    }
    assert(n@.take(p.len() as int) =~= p@);
    if p.len() == n.len() {
        assert(n@ =~= p@);
        true
    } else {
        n[p.len()] == '.'
    }
}

/// Scopes with a class, checked innermost scope first and, for one scope,
/// in this order, so the most specific one wins. An empty class means
/// "leave it plain": operators and punctuation are deliberately uncoloured,
/// which is what editors and GitHub do. They still need rules, or
/// `keyword.operator` would fall through to `keyword` and paint every `=`
/// and `+` like a keyword.
pub open spec fn rules_table() -> Seq<(Seq<char>, Seq<char>)> {
    seq![
        ("keyword.operator"@, ""@),
        ("punctuation"@, ""@),
        ("constant.numeric"@, "num"@),
        ("constant.language"@, "const"@),
        ("constant.other"@, "const"@),
        ("variable.other.constant"@, "const"@),
        ("entity.name.constant"@, "const"@),
        ("entity.name.function"@, "fn"@),
        ("entity.name.macro"@, "fn"@),
        ("support.function"@, "fn"@),
        ("variable.function"@, "fn"@),
        ("entity.name.type"@, "typ"@),
        ("entity.name.class"@, "typ"@),
        ("entity.name.struct"@, "typ"@),
        ("entity.name.enum"@, "typ"@),
        ("entity.name.union"@, "typ"@),
        ("entity.name.trait"@, "typ"@),
        ("entity.name.namespace"@, "typ"@),
        ("support.type"@, "typ"@),
        ("support.class"@, "typ"@),
        ("entity.name.tag"@, "tag"@),
        ("markup.heading"@, "kw"@),
        ("markup.bold"@, "kw"@),
        ("markup.italic"@, "typ"@),
        ("markup.raw"@, "str"@),
        ("markup.underline.link"@, "attr"@),
        ("markup.list"@, ""@),
        ("entity.other.attribute-name"@, "attr"@),
        ("variable.parameter"@, ""@),
        ("storage"@, "kw"@),
        ("keyword"@, "kw"@),
        ("variable.language"@, "kw"@),
    ]
}

/// A table of string pairs over character sequences.
pub open spec fn strs_view(t: Seq<(&'static str, &'static str)>) -> Seq<(Seq<char>, Seq<char>)> {
    t.map_values(|e: (&'static str, &'static str)| (e.0@, e.1@))
}

fn rules() -> (t: Vec<(&'static str, &'static str)>)
    ensures
        strs_view(t@) == rules_table(),
{
    let mut t: Vec<(&'static str, &'static str)> = Vec::new();
    t.push(("keyword.operator", ""));
    t.push(("punctuation", ""));
    t.push(("constant.numeric", "num"));
    t.push(("constant.language", "const"));
    t.push(("constant.other", "const"));
    t.push(("variable.other.constant", "const"));
    t.push(("entity.name.constant", "const"));
    t.push(("entity.name.function", "fn"));
    t.push(("entity.name.macro", "fn"));
    t.push(("support.function", "fn"));
    t.push(("variable.function", "fn"));
    t.push(("entity.name.type", "typ"));
    t.push(("entity.name.class", "typ"));
    t.push(("entity.name.struct", "typ"));
    t.push(("entity.name.enum", "typ"));
    t.push(("entity.name.union", "typ"));
    t.push(("entity.name.trait", "typ"));
    t.push(("entity.name.namespace", "typ"));
    t.push(("support.type", "typ"));
    t.push(("support.class", "typ"));
    t.push(("entity.name.tag", "tag"));
    t.push(("markup.heading", "kw"));
    t.push(("markup.bold", "kw"));
    t.push(("markup.italic", "typ"));
    t.push(("markup.raw", "str"));
    t.push(("markup.underline.link", "attr"));
    t.push(("markup.list", ""));
    t.push(("entity.other.attribute-name", "attr"));
    t.push(("variable.parameter", ""));
    t.push(("storage", "kw"));
    t.push(("keyword", "kw"));
    t.push(("variable.language", "kw"));
    assert(strs_view(t@) =~= rules_table());
    t
}

/// Whether some scope on the stack has `p` as a prefix.
pub open spec fn any_prefixed(names: Seq<Seq<char>>, p: Seq<char>) -> bool {
    exists|i: int| 0 <= i < names.len() && #[trigger] atom_prefix(p, names[i])
}

/// The class of the first rule from `k` on whose scope prefixes `name`.
pub open spec fn rule_from(name: Seq<char>, k: int) -> Option<Seq<char>>
    decreases rules_table().len() - k,
{
    if k < 0 || k >= rules_table().len() {
        None
    } else if atom_prefix(rules_table()[k].0, name) {
        Some(rules_table()[k].1)
    } else {
        rule_from(name, k + 1)
    }
}

/// The class that the innermost of the bottom `j` scopes with a rule gives.
pub open spec fn stack_rule(names: Seq<Seq<char>>, j: int) -> Option<Seq<char>>
    decreases j,
{
    if j <= 0 || j > names.len() {
        None
    } else {
        match rule_from(names[j - 1], 0) {
            Some(c) => Some(c),
            None => stack_rule(names, j - 1),
        }
    }
}

/// The class of text under a scope stack, listed outermost first: an escape
/// anywhere wins, then a comment, then a string, which colour everything
/// inside them; otherwise the innermost scope with a rule decides.
pub open spec fn class_of(names: Seq<Seq<char>>) -> Option<Seq<char>> {
    if any_prefixed(names, "constant.character.escape"@) {
        Some("esc"@)
    } else if any_prefixed(names, "comment"@) {
        Some("com"@)
    } else if any_prefixed(names, "string"@) {
        Some("str"@)
    } else {
        stack_rule(names, names.len() as int)
    }
}

fn any_prefixed_exec(names: &Vec<Vec<char>>, p: &str) -> (b: bool)
    ensures
        b == any_prefixed(crate::text::vecs_view(names@), p@),
{
    let pv = chars_of(p);
    let ghost nv = crate::text::vecs_view(names@);
    let mut i: usize = 0;
    while i < names.len()
        invariant
            i <= names.len(),
            nv == crate::text::vecs_view(names@),
            pv@ == p@,
            forall|t: int| 0 <= t < i ==> !atom_prefix(p@, #[trigger] nv[t]),
        decreases names.len() - i,
    {
        if atom_prefix_exec(&pv, &names[i]) {
            assert(atom_prefix(p@, nv[i as int]));
            return true;
        }
        i += 1;
    }
    false
}

fn rule_exec(rules: &Vec<(&'static str, &'static str)>, name: &Vec<char>) -> (r: Option<&'static str>)
    requires
        strs_view(rules@) == rules_table(),
    ensures
        match r {
            Some(c) => rule_from(name@, 0) == Some(c@),
            None => rule_from(name@, 0) is None,
        },
{
    let mut k: usize = 0;
    while k < rules.len()
        invariant
            k <= rules.len(),
            strs_view(rules@) == rules_table(),
            rule_from(name@, 0) == rule_from(name@, k as int),
        decreases rules.len() - k,
    {
        let p = chars_of(rules[k].0);
        assert(rules_table()[k as int] == (rules@[k as int].0@, rules@[k as int].1@));
        if atom_prefix_exec(&p, name) {
            return Some(rules[k].1);
        }
        k += 1;
    }
    None
}

/// The class of text under a scope stack, by the names of its scopes,
/// outermost first.
fn classify(rules: &Vec<(&'static str, &'static str)>, names: &Vec<Vec<char>>) -> (r: Option<&'static str>)
    requires
        strs_view(rules@) == rules_table(),
    ensures
        match r {
            Some(c) => class_of(crate::text::vecs_view(names@)) == Some(c@),
            None => class_of(crate::text::vecs_view(names@)) is None,
        },
{
    let ghost nv = crate::text::vecs_view(names@);
    if any_prefixed_exec(names, "constant.character.escape") {
        return Some("esc");
    }
    if any_prefixed_exec(names, "comment") {
        return Some("com");
    }
    if any_prefixed_exec(names, "string") {
        return Some("str");
    }
    let mut j = names.len();
    while j > 0
        invariant
            j <= names.len(),
            nv == crate::text::vecs_view(names@),
            strs_view(rules@) == rules_table(),
            stack_rule(nv, names.len() as int) == stack_rule(nv, j as int),
            !any_prefixed(nv, "constant.character.escape"@),
            !any_prefixed(nv, "comment"@),
            !any_prefixed(nv, "string"@),
        decreases j,
    {
        assert(nv[j - 1] == names@[j - 1]@);
        match rule_exec(rules, &names[j - 1]) {
            Some(c) => {
                return Some(c);
            },
            None => {},
        }
        j -= 1;
    }
    None
}

/// How much of `p[..j]` is left once trailing line feeds and carriage
/// returns are dropped.
pub open spec fn strip_breaks(p: Seq<char>, j: int) -> int
    decreases j,
{
    if 0 < j <= p.len() && (p[j - 1] == '\n' || p[j - 1] == '\r') {
        strip_breaks(p, j - 1)
    } else {
        j
    }
}

/// The part of a piece that is drawn: the trailing newline is not part of
/// the rendered line.
pub open spec fn visible(p: Seq<char>) -> Seq<char> {
    p.take(strip_breaks(p, p.len() as int))
}

proof fn lemma_strip_breaks(p: Seq<char>, j: int)
    requires
        0 <= j <= p.len(),
    ensures
        0 <= strip_breaks(p, j) <= j,
    decreases j,
{
    if 0 < j && (p[j - 1] == '\n' || p[j - 1] == '\r') {
        lemma_strip_breaks(p, j - 1);
    }
}

/// Stripping line breaks from a prefix of `a` reads only that prefix.
proof fn lemma_strip_prefix(a: Seq<char>, t: Seq<char>, k: int)
    requires
        0 <= k <= a.len(),
    ensures
        strip_breaks(a + t, k) == strip_breaks(a, k),
    decreases k,
{
    if k > 0 {
        assert((a + t)[k - 1] == a[k - 1]);
        lemma_strip_prefix(a, t, k - 1);
    }
}

/// Text added after `a` never shortens what is left of `a` once trailing
/// line breaks are dropped.
proof fn lemma_strip_grows(a: Seq<char>, t: Seq<char>, j: int)
    requires
        0 <= j <= t.len(),
    ensures
        strip_breaks(a + t, a.len() + j) >= strip_breaks(a, a.len() as int),
        strip_breaks(a + t, a.len() + j) <= a.len() + j,
    decreases j,
{
    lemma_strip_breaks(a, a.len() as int);
    if j == 0 {
        lemma_strip_prefix(a, t, a.len() as int);
    } else {
        assert((a + t)[a.len() + j - 1] == t[j - 1]);
        lemma_strip_grows(a, t, j - 1);
    }
}

/// Where `t` holds something other than line breaks, dropping the trailing
/// breaks of `a + t` drops those of `t` alone.
proof fn lemma_strip_concat(a: Seq<char>, t: Seq<char>, j: int)
    requires
        0 <= j <= t.len(),
        strip_breaks(t, j) > 0,
    ensures
        strip_breaks(a + t, a.len() + j) == a.len() + strip_breaks(t, j),
    decreases j,
{
    assert((a + t)[a.len() + j - 1] == t[j - 1]);
    if t[j - 1] == '\n' || t[j - 1] == '\r' {
        lemma_strip_concat(a, t, j - 1);
    }
}

/// What is drawn of `a + t`: the drawn part of `a` and more, and, where `t`
/// draws anything, all of `a` followed by the drawn part of `t`.
proof fn lemma_visible_concat(a: Seq<char>, t: Seq<char>)
    ensures
        utf16_len(visible(a)) <= utf16_len(visible(a + t)),
        utf16_len(visible(t)) > 0 ==> utf16_len(visible(a + t)) == utf16_len(a) + utf16_len(
            visible(t),
        ),
{
    let l = a + t;
    lemma_strip_grows(a, t, t.len() as int);
    assert(l.len() == a.len() + t.len());
    let sa = strip_breaks(a, a.len() as int);
    let sl = strip_breaks(l, l.len() as int);
    lemma_strip_breaks(a, a.len() as int);
    assert(visible(a) =~= l.take(sa));
    lemma_utf16_len_split(l, sa, sl);
    let st = strip_breaks(t, t.len() as int);
    lemma_strip_breaks(t, t.len() as int);
    if utf16_len(visible(t)) > 0 {
        if st == 0 {
            assert(visible(t) =~= Seq::<char>::empty());
        }
        lemma_strip_concat(a, t, t.len() as int);
        assert(visible(l) =~= a + visible(t));
        lemma_utf16_concat(a, visible(t));
    }
}

/// The spans with a run of `w` units of class `c` at `at` added: adjacent
/// pieces of the same class are one span.
pub open spec fn add_span(sp: Seq<SpanView>, at: int, w: int, c: Seq<char>) -> Seq<SpanView> {
    if sp.len() > 0 && sp.last().class == c && sp.last().end == at {
        sp.update(
            sp.len() - 1,
            SpanView { start: sp.last().start, end: (at + w) as usize, class: c },
        )
    } else {
        sp.push(SpanView { start: at as usize, end: (at + w) as usize, class: c })
    }
}

/// The spans of a line read piece by piece, each piece with the names of
/// the scopes it sits in, and the UTF-16 width of the pieces read.
pub open spec fn spans_of(pieces: Seq<(Seq<char>, Seq<Seq<char>>)>) -> (Seq<SpanView>, int)
    decreases pieces.len(),
{
    if pieces.len() == 0 {
        (Seq::empty(), 0)
    } else {
        let prev = spans_of(pieces.drop_last());
        let text = pieces.last().0;
        let w = utf16_len(visible(text)) as int;
        let sp = if text.len() > 0 && w > 0 {
            match class_of(pieces.last().1) {
                Some(c) => if c.len() > 0 {
                    add_span(prev.0, prev.1, w, c)
                } else {
                    prev.0
                },
                None => prev.0,
            }
        } else {
            prev.0
        };
        (sp, prev.1 + utf16_len(text))
    }
}

/// The pieces' texts, one after another.
pub open spec fn joined(v: Seq<Seq<char>>) -> Seq<char>
    decreases v.len(),
{
    if v.len() == 0 {
        Seq::empty()
    } else {
        joined(v.drop_last()) + v.last()
    }
}

/// The texts of the pieces.
pub open spec fn piece_texts(pieces: Seq<(Seq<char>, Seq<Seq<char>>)>) -> Seq<Seq<char>> {
    pieces.map_values(|p: (Seq<char>, Seq<Seq<char>>)| p.0)
}

proof fn lemma_utf16_concat(a: Seq<char>, b: Seq<char>)
    ensures
        utf16_len(a + b) == utf16_len(a) + utf16_len(b),
{
    let s = a + b;
    lemma_utf16_len_split(s, a.len() as int, s.len() as int);
    assert(s.take(a.len() as int) =~= a);
    assert(s.subrange(a.len() as int, s.len() as int) =~= b);
    assert(s.take(s.len() as int) =~= s);
}

/// The width the pieces cover is the UTF-16 length of their text.
proof fn lemma_units_joined(pieces: Seq<(Seq<char>, Seq<Seq<char>>)>)
    ensures
        spans_of(pieces).1 == utf16_len(joined(piece_texts(pieces))),
    decreases pieces.len(),
{
    if pieces.len() > 0 {
        lemma_units_joined(pieces.drop_last());
        let t = piece_texts(pieces);
        assert(t.drop_last() =~= piece_texts(pieces.drop_last()));
        lemma_utf16_concat(joined(t.drop_last()), t.last());
    }
}

/// The pieces over character sequences.
pub open spec fn pieces_view(v: Seq<(Vec<char>, Vec<Vec<char>>)>) -> Seq<(Seq<char>, Seq<Seq<char>>)> {
    v.map_values(|p: (Vec<char>, Vec<Vec<char>>)| (p.0@, crate::text::vecs_view(p.1@)))
}

/// The spans of one line, from its pieces in order: each piece's text, and
/// the names of the scopes on the stack while it is read, outermost first.
/// Offsets are UTF-16 code units from the start of the line.
pub fn line_spans(pieces: &Vec<(Vec<char>, Vec<Vec<char>>)>) -> (r: Vec<Span>)
    requires
        spans_of(pieces_view(pieces@)).1 <= usize::MAX,
    ensures
        spans_view(r@) == spans_of(pieces_view(pieces@)).0,
{
    let rules = rules();
    line_spans_with(&rules, pieces)
}

proof fn lemma_spans_of_grows(pieces: Seq<(Seq<char>, Seq<Seq<char>>)>, i: int)
    requires
        0 <= i <= pieces.len(),
    ensures
        spans_of(pieces.take(i)).1 <= spans_of(pieces).1,
    decreases pieces.len() - i,
{
    if i < pieces.len() {
        lemma_spans_of_grows(pieces, i + 1);
        assert(pieces.take(i + 1).drop_last() =~= pieces.take(i));
    } else {
        assert(pieces.take(i) =~= pieces);
    }
}

fn line_spans_with(rules: &Vec<(&'static str, &'static str)>, pieces: &Vec<(Vec<char>, Vec<Vec<char>>)>) -> (r: Vec<Span>)
    requires
        strs_view(rules@) == rules_table(),
        spans_of(pieces_view(pieces@)).1 <= usize::MAX,
    ensures
        spans_view(r@) == spans_of(pieces_view(pieces@)).0,
{
    let ghost pv = pieces_view(pieces@);
    let mut out: Vec<Span> = Vec::new();
    let mut at: usize = 0;
    let mut i: usize = 0;
    while i < pieces.len()
        invariant
            i <= pieces.len(),
            pv == pieces_view(pieces@),
            strs_view(rules@) == rules_table(),
            spans_of(pv).1 <= usize::MAX,
            spans_view(out@) == spans_of(pv.take(i as int)).0,
            at == spans_of(pv.take(i as int)).1,
        decreases pieces.len() - i,
    {
        proof {
            assert(pv.take(i + 1).drop_last() =~= pv.take(i as int));
            lemma_spans_of_grows(pv, i + 1);
        }
        let text = &pieces[i].0;
        assert(pv[i as int].0 == text@);
        assert(pv.take(i + 1).last() == pv[i as int]);
        // The width of the piece and of its drawn part.
        let mut full: usize = 0;
        let mut k: usize = 0;
        while k < text.len()
            invariant
                k <= text.len(),
                full == utf16_len(text@.take(k as int)),
                at + utf16_len(text@.take(k as int)) <= usize::MAX,
                at + utf16_len(text@) <= usize::MAX,
            decreases text.len() - k,
        {
            assert(text@.take(k + 1).drop_last() =~= text@.take(k as int));
            assert(text@.take(k + 1).last() == text@[k as int]);
            proof {
                lemma_utf16_len_split(text@, k + 1, text.len() as int);
                assert(text@.take(text.len() as int) =~= text@);
            }
            full = full + utf16_width_exec(text[k]);
            k += 1;
        }
        assert(text@.take(text.len() as int) =~= text@);
        let mut v = text.len();
        while v > 0 && (text[v - 1] == '\n' || text[v - 1] == '\r')
            invariant
                v <= text.len(),
                strip_breaks(text@, text.len() as int) == strip_breaks(text@, v as int),
            decreases v,
        {
            v -= 1;
        }
        let mut w: usize = 0;
        let mut k: usize = 0;
        proof {
            lemma_strip_breaks(text@, text.len() as int);
            lemma_utf16_len_split(text@, v as int, text.len() as int);
        }
        while k < v
            invariant
                k <= v <= text.len(),
                w == utf16_len(text@.take(k as int)),
                utf16_len(text@.take(v as int)) <= full,
                full <= usize::MAX,
            decreases v - k,
        {
            assert(text@.take(k + 1).drop_last() =~= text@.take(k as int));
            assert(text@.take(k + 1).last() == text@[k as int]);
            proof {
                lemma_utf16_len_split(text@, k + 1, v as int);
            }
            w = w + utf16_width_exec(text[k]);
            k += 1;
        }
        if text.len() > 0 && w > 0 {
            match classify(rules, &pieces[i].1) {
                Some(c) => {
                    let cv = chars_of(c);
                    if cv.len() > 0 {
                        let n = out.len();
                        let merge = if n > 0 {
                            let lc = chars_of(out[n - 1].class);
                            same(&lc, &cv) && out[n - 1].end == at
                        } else {
                            false
                        };
                        let ghost before = out@;
                        if merge {
                            let start = out[n - 1].start;
                            out.set(n - 1, Span { start, end: at + w, class: c });
                        } else {
                            out.push(Span { start: at, end: at + w, class: c });
                        }
                        assert(spans_view(out@) =~= add_span(spans_view(before), at as int, w as int, c@));
                    }
                },
                None => {},
            }
        }
        at = at + full;
        i += 1;
    }
    assert(pv.take(pieces.len() as int) =~= pv);
    out
}

/// Spans that are nonempty, each with a class, in order without overlap,
/// within `width` units, and with no two touching spans of one class.
pub open spec fn spans_well_formed(sp: Seq<SpanView>, width: int) -> bool {
    &&& forall|k: int|
        0 <= k < sp.len() ==> (#[trigger] sp[k]).start < sp[k].end && sp[k].end <= width
            && sp[k].class.len() > 0
    &&& forall|k: int|
        0 <= k < sp.len() - 1 ==> (#[trigger] sp[k]).end <= sp[k + 1].start && (sp[k].end
            == sp[k + 1].start ==> sp[k].class != sp[k + 1].class)
}

/// The spans of a line are nonempty and classed, come in order without
/// overlapping, stay within the drawn part of the line (its trailing line
/// breaks left out), and a run of one class is one span: the browser can
/// slice and paint each directly.
pub proof fn law_spans_well_formed(pieces: Seq<(Seq<char>, Seq<Seq<char>>)>)
    requires
        spans_of(pieces).1 <= usize::MAX,
    ensures
        spans_well_formed(
            spans_of(pieces).0,
            utf16_len(visible(joined(piece_texts(pieces)))) as int,
        ),
    decreases pieces.len(),
{
    if pieces.len() > 0 {
        let prev = spans_of(pieces.drop_last());
        law_spans_well_formed(pieces.drop_last());
        let before = joined(piece_texts(pieces.drop_last()));
        assert(piece_texts(pieces).drop_last() =~= piece_texts(pieces.drop_last()));
        assert(joined(piece_texts(pieces)) == before + pieces.last().0);
        lemma_visible_concat(before, pieces.last().0);
        let text = pieces.last().0;
        let v = strip_breaks(text, text.len() as int);
        lemma_strip_breaks(text, text.len() as int);
        lemma_utf16_len_split(text, v, text.len() as int);
        assert(text.take(text.len() as int) =~= text);
        let w = utf16_len(visible(text)) as int;
        assert(w <= utf16_len(text));
        let sp = spans_of(pieces).0;
        let at = prev.1;
        let width = utf16_len(visible(joined(piece_texts(pieces)))) as int;
        lemma_units_joined(pieces.drop_last());
        assert(utf16_len(visible(before)) <= width);
        assert(at == utf16_len(before));
        lemma_strip_breaks(before, before.len() as int);
        lemma_utf16_len_split(before, strip_breaks(before, before.len() as int), before.len() as int);
        assert(before.take(before.len() as int) =~= before);
        assert(utf16_len(visible(before)) <= at);
        assert(0 <= at);
        let q = prev.0;
        let adds = text.len() > 0 && w > 0 && class_of(pieces.last().1) is Some && class_of(
            pieces.last().1,
        )->0.len() > 0;
        if adds {
            let c = class_of(pieces.last().1)->0;
            assert(sp == add_span(q, at, w, c));
            if q.len() > 0 && q.last().class == c && q.last().end == at {
                assert(sp.len() == q.len());
                assert forall|k: int| 0 <= k < sp.len() implies (#[trigger] sp[k]).start < sp[k].end
                    && sp[k].end <= width && sp[k].class.len() > 0 by {
                    if k < sp.len() - 1 {
                        assert(sp[k] == q[k]);
                    }
                }
                assert forall|k: int| 0 <= k < sp.len() - 1 implies (#[trigger] sp[k]).end
                    <= sp[k + 1].start && (sp[k].end == sp[k + 1].start ==> sp[k].class
                    != sp[k + 1].class) by {
                    assert(sp[k] == q[k]);
                    if k + 1 < sp.len() - 1 {
                        assert(sp[k + 1] == q[k + 1]);
                    }
                }
            } else {
                assert(sp.len() == q.len() + 1);
                assert forall|k: int| 0 <= k < sp.len() implies (#[trigger] sp[k]).start < sp[k].end
                    && sp[k].end <= width && sp[k].class.len() > 0 by {
                    if k < q.len() {
                        assert(sp[k] == q[k]);
                    }
                }
                assert forall|k: int| 0 <= k < sp.len() - 1 implies (#[trigger] sp[k]).end
                    <= sp[k + 1].start && (sp[k].end == sp[k + 1].start ==> sp[k].class
                    != sp[k + 1].class) by {
                    assert(sp[k] == q[k]);
                    if k + 1 < q.len() {
                        assert(sp[k + 1] == q[k + 1]);
                    }
                }
            }
        } else {
            assert(sp == q);
        }
    }
}

/// Files past this many lines are left plain; they already sit behind a
/// click.
pub const MAX_LINES: usize = 5000;

/// The largest text, in UTF-8 bytes, that is highlighted at all.
pub const MAX_BYTES: u128 = 4194304;

#[verifier::external_type_specification]
#[verifier::external_body]
pub struct ExSyntaxSet(syntect::parsing::SyntaxSet);

#[verifier::external_type_specification]
#[verifier::external_body]
pub struct ExSyntaxReference(syntect::parsing::SyntaxReference);

#[verifier::external_type_specification]
#[verifier::external_body]
pub struct ExParseState(syntect::parsing::ParseState);

#[verifier::external_type_specification]
#[verifier::external_body]
pub struct ExScopeStack(syntect::parsing::ScopeStack);

#[verifier::external_type_specification]
#[verifier::external_body]
pub struct ExScopeStackOp(syntect::parsing::ScopeStackOp);

#[verifier::external_type_specification]
#[verifier::external_body]
pub struct ExScope(syntect::parsing::Scope);

/// The grammars files are highlighted with: the syntax definitions that
/// two-face bundles, for lines that keep their line feeds. The set can only
/// be had from `bundled`, so every lookup and every parse below runs on
/// those definitions and on no others.
pub struct Grammars {
    set: SyntaxSet,
}

/// `two_face::syntax::extra_newlines`: the bundled syntax definitions, read
/// from the dump compiled into two-face. Nothing is claimed of them here.
#[verifier::external_body]
pub fn bundled() -> Grammars {
    Grammars { set: two_face::syntax::extra_newlines() }
}

/// Whether the bundled grammars have a syntax for the file extension `ext`.
pub uninterp spec fn extension_grammar(ext: Seq<char>) -> bool;

/// Whether a syntax of the bundled grammars claims a file by its first
/// line `line` (a `#!` line, an XML declaration, ...).
pub uninterp spec fn first_line_grammar(line: Seq<char>) -> bool;

/// How a grammar of the bundled set was looked up: 0 for by file extension
/// (or whole file name), 1 for by first line, and the text looked up. The
/// set being fixed, this decides the grammar.
pub type GrammarKey = (int, Seq<char>);

/// A parser's state, by what made it: the grammar it started in and the
/// lines it has parsed since, in order. The parser being deterministic,
/// this decides the state.
pub type ParserView = (GrammarKey, Seq<Seq<char>>);

/// A scope change, by where it came from: the parser's state that read the
/// line, the line, and its place among that line's changes.
pub type OpId = (ParserView, Seq<char>, int);

/// A grammar of the bundled set, with how it was looked up.
pub struct Syntax<'a> {
    r: &'a SyntaxReference,
    key: Ghost<GrammarKey>,
}

impl<'a> View for Syntax<'a> {
    type V = GrammarKey;

    closed spec fn view(&self) -> GrammarKey {
        self.key@
    }
}

/// A parser, with the grammar it started in and the lines it has read.
pub struct Parser {
    state: ParseState,
    at: Ghost<ParserView>,
}

impl View for Parser {
    type V = ParserView;

    closed spec fn view(&self) -> ParserView {
        self.at@
    }
}

/// The scope changes of one line, with the parser state and line they
/// came from; viewed as that origin and the changes' byte offsets.
pub struct LineOps {
    ops: Vec<(usize, ScopeStackOp)>,
    from: Ghost<(ParserView, Seq<char>)>,
}

impl View for LineOps {
    type V = ((ParserView, Seq<char>), Seq<usize>);

    closed spec fn view(&self) -> ((ParserView, Seq<char>), Seq<usize>) {
        (self.from@, self.ops@.map_values(|x: (usize, ScopeStackOp)| x.0))
    }
}

/// A scope stack, with the scope changes applied to it since it was made.
pub struct Stack {
    s: ScopeStack,
    applied: Ghost<Seq<OpId>>,
}

impl View for Stack {
    type V = Seq<OpId>;

    closed spec fn view(&self) -> Seq<OpId> {
        self.applied@
    }
}

/// The byte offsets of the scope changes that `ParseState::parse_line`
/// finds in `line`, from the parser state `parser`, or none when it fails.
/// The offsets and the failure do not depend on how scopes are numbered
/// inside the process, only on the grammar and the text.
pub uninterp spec fn line_ops(parser: ParserView, line: Seq<char>) -> Option<Seq<usize>>;

/// Whether `ScopeStack::apply` succeeds with the scope change `op` on the
/// stack that the changes `applied` made (it fails only on a restore with
/// nothing cleared to restore).
pub uninterp spec fn op_applies(applied: Seq<OpId>, op: OpId) -> bool;

/// `SyntaxSet::find_syntax_by_extension`: the last syntax of the set that
/// lists `ext` among its file extensions, ignoring ASCII case. Whether one
/// is found depends on `ext` alone, the set being fixed; the syntax found
/// is known by that lookup.
#[verifier::external_body]
fn syntax_by_extension<'a>(g: &'a Grammars, ext: &str) -> (r: Option<Syntax<'a>>)
    ensures
        r is Some <==> extension_grammar(ext@),
        r matches Some(s) ==> s@ == (0int, ext@),
{
    match g.set.find_syntax_by_extension(ext) {
        Some(r) => Some(Syntax { r, key: Ghost((0int, ext@)) }),
        None => None,
    }
}

/// `SyntaxSet::find_syntax_by_first_line`: the syntax whose first-line
/// pattern matches `line`, if any. Whether one is found depends on `line`
/// alone, the set being fixed; the syntax found is known by that lookup.
#[verifier::external_body]
fn syntax_by_first_line<'a>(g: &'a Grammars, line: &str) -> (r: Option<Syntax<'a>>)
    ensures
        r is Some <==> first_line_grammar(line@),
        r matches Some(s) ==> s@ == (1int, line@),
{
    match g.set.find_syntax_by_first_line(line) {
        Some(r) => Some(Syntax { r, key: Ghost((1int, line@)) }),
        None => None,
    }
}

/// `ParseState::new`: the parser's state at the start of a file in the
/// syntax, with no line read yet.
#[verifier::external_body]
fn parse_state(syntax: &Syntax) -> (p: Parser)
    ensures
        p@ == (syntax@, Seq::<Seq<char>>::empty()),
{
    Parser { state: ParseState::new(syntax.r), at: Ghost((syntax.key@, Seq::empty())) }
}

/// `ParseState::parse_line` on the bundled grammars the parser was made
/// from: the scope changes within `line`, each at a byte offset of the
/// line, and the parser advanced past the line; none when the parser fails,
/// and then the parser is gone. Which offsets, and whether it fails, is the
/// named `line_ops` of the parser's state and the line.
#[verifier::external_body]
fn parse_line(p: Parser, line: &str, g: &Grammars) -> (r: Option<(Parser, LineOps)>)
    ensures
        r is Some <==> line_ops(p@, line@) is Some,
        r matches Some((q, o)) ==> q@ == (p@.0, p@.1.push(line@)) && o@.0 == (p@, line@) && line_ops(
            p@,
            line@,
        ) == Some(o@.1),
{
    let mut p = p;
    match p.state.parse_line(line, &g.set) {
        Ok(ops) => {
            let from = Ghost((p.at@, line@));
            p.at = Ghost((p.at@.0, p.at@.1.push(line@)));
            Some((p, LineOps { ops, from }))
        },
        Err(_) => None,
    }
}

/// `ScopeStack::new`: an empty scope stack, with nothing applied.
#[verifier::external_body]
fn new_stack() -> (s: Stack)
    ensures
        s@ == Seq::<OpId>::empty(),
{
    Stack { s: ScopeStack::new(), applied: Ghost(Seq::empty()) }
}

/// `ScopeStack::apply` with the `k`-th scope change of a line: the stack
/// with it applied, or none when it fails, and then the stack is gone.
/// Whether it fails is the named `op_applies` of what was applied before
/// and of the change.
#[verifier::external_body]
fn apply_op(st: Stack, ops: &LineOps, k: usize) -> (r: Option<Stack>)
    requires
        k < ops@.1.len(),
    ensures
        r is Some <==> op_applies(st@, (ops@.0.0, ops@.0.1, k as int)),
        r matches Some(t) ==> t@ == st@.push((ops@.0.0, ops@.0.1, k as int)),
{
    let mut st = st;
    match st.s.apply(&ops.ops[k].1) {
        Ok(()) => {
            st.applied = Ghost(st.applied@.push((ops.from@.0, ops.from@.1, k as int)));
            Some(st)
        },
        Err(_) => None,
    }
}

/// A scope on a stack, by where it sits: the changes that made the stack,
/// and its place on it, outermost first.
pub struct ScopeAt {
    s: Scope,
    at: Ghost<(Seq<OpId>, int)>,
}

impl View for ScopeAt {
    type V = (Seq<OpId>, int);

    closed spec fn view(&self) -> (Seq<OpId>, int) {
        self.at@
    }
}

/// How many scopes `ScopeStack::as_slice` shows on the stack that the
/// changes `applied` made.
pub uninterp spec fn stack_len(applied: Seq<OpId>) -> nat;

/// The dotted name (`Scope::build_string`, such as `string.quoted.rust`)
/// of the `i`-th scope, outermost first, on the stack that the changes
/// `applied` made. Names do not depend on how scopes are numbered inside
/// the process.
pub uninterp spec fn scope_name_at(applied: Seq<OpId>, i: int) -> Seq<char>;

/// `ScopeStack::as_slice`: the scopes on the stack, outermost first, each
/// known by its place; as many as `stack_len` of what was applied.
#[verifier::external_body]
fn stack_scopes(st: &Stack) -> (v: Vec<ScopeAt>)
    ensures
        v.len() == stack_len(st@),
        forall|i: int| 0 <= i < v.len() ==> (#[trigger] v@[i])@ == (st@, i),
{
    let applied = st.applied;
    st.s.as_slice().iter().enumerate().map(|(i, s)| ScopeAt { s: *s, at: Ghost((applied@, i as int)) }).collect()
}

/// `Scope::build_string`: a scope's dotted name, the named `scope_name_at`
/// of where the scope sits.
#[verifier::external_body]
fn scope_name(scope: &ScopeAt) -> (r: String)
    ensures
        r@ == scope_name_at(scope@.0, scope@.1),
{
    scope.s.build_string()
}

/// The dotted names of the scopes on the stack that the changes `applied`
/// made, outermost first.
pub open spec fn scope_names(applied: Seq<OpId>) -> Seq<Seq<char>> {
    Seq::new(stack_len(applied), |i: int| scope_name_at(applied, i))
}

/// Whether byte offset `b` of `line`'s UTF-8 encoding falls between two
/// characters (or at either end).
pub open spec fn on_boundary(line: Seq<char>, b: int) -> bool {
    exists|c: int| 0 <= c <= line.len() && utf8_len(#[trigger] line.take(c)) == b
}

/// Whether the byte offsets can cut `line`: each falls between two
/// characters, and none comes before the one preceding it.
pub open spec fn regions_ok(line: Seq<char>, positions: Seq<usize>) -> bool {
    &&& forall|k: int| 0 <= k < positions.len() ==> on_boundary(line, #[trigger] positions[k] as int)
    &&& forall|k: int|
        0 <= k && k + 1 < positions.len() ==> #[trigger] positions[k] <= positions[k + 1]
}

/// The character index at which byte offset `b` of `line`'s UTF-8
/// encoding falls.
pub open spec fn char_at_byte(line: Seq<char>, b: int) -> int {
    choose|c: int| 0 <= c <= line.len() && utf8_len(#[trigger] line.take(c)) == b
}

/// `line` cut at the byte offsets `pos`, in order: one more piece than
/// there are offsets, the `k`-th running from the `k - 1`-th offset (or the
/// start) to the `k`-th (or the end).
pub open spec fn cut(line: Seq<char>, pos: Seq<usize>) -> Seq<Seq<char>> {
    Seq::new(
        (pos.len() + 1) as nat,
        |k: int|
            line.subrange(
                if k == 0 {
                    0
                } else {
                    char_at_byte(line, pos[k - 1] as int)
                },
                if k == pos.len() {
                    line.len() as int
                } else {
                    char_at_byte(line, pos[k] as int)
                },
            ),
    )
}

/// A byte offset that falls between characters falls at one place only.
proof fn lemma_char_at_byte(line: Seq<char>, c: int)
    requires
        0 <= c <= line.len(),
    ensures
        char_at_byte(line, utf8_len(line.take(c)) as int) == c,
{
    let b = utf8_len(line.take(c)) as int;
    assert(utf8_len(line.take(c)) == b);
    let d = char_at_byte(line, b);
    if d < c {
        lemma_utf8_len_grows(line, d, c);
    } else if d > c {
        lemma_utf8_len_grows(line, c, d);
    }
}

/// Cuts `line` at the given byte offsets, in order, into one more piece than
/// there are offsets, as `ScopeRegionIterator` does: the pieces make up the
/// line, and the first `k + 1` of them end at the `k`th offset. None exactly
/// when an offset goes backwards, past the end, or into the middle of a
/// character.
#[verifier::rlimit(60)]
fn split_regions(line: &Vec<char>, positions: &Vec<usize>) -> (r: Option<Vec<Vec<char>>>)
    ensures
        r is Some <==> regions_ok(line@, positions@),
        match r {
            Some(ps) => {
                &&& crate::text::vecs_view(ps@) == cut(line@, positions@)
                &&& ps.len() == positions.len() + 1
                &&& joined(crate::text::vecs_view(ps@)) == line@
                &&& forall|k: int|
                    0 <= k < positions.len() ==> utf8_len(
                        joined(#[trigger] crate::text::vecs_view(ps@).take(k + 1)),
                    ) == positions@[k]
            },
            None => true,
        },
{
    let mut pieces: Vec<Vec<char>> = Vec::new();
    let mut c: usize = 0;
    let mut b: u128 = 0;
    let mut k: usize = 0;
    while k < positions.len()
        invariant
            k <= positions.len(),
            c <= line.len(),
            b == utf8_len(line@.take(c as int)),
            pieces.len() == k,
            k == 0 ==> c == 0,
            k > 0 ==> b == positions@[k - 1],
            joined(crate::text::vecs_view(pieces@)) == line@.take(c as int),
            forall|j: int|
                0 <= j < k ==> utf8_len(joined(#[trigger] crate::text::vecs_view(pieces@).take(j + 1)))
                    == positions@[j],
            forall|j: int| 0 <= j < k ==> on_boundary(line@, #[trigger] positions@[j] as int),
            forall|j: int| 0 <= j && j + 1 < k ==> #[trigger] positions@[j] <= positions@[j + 1],
            k > 0 ==> c == char_at_byte(line@, positions@[k - 1] as int),
            forall|j: int|
                0 <= j < k ==> #[trigger] crate::text::vecs_view(pieces@)[j] == cut(line@, positions@)[j],
        decreases positions.len() - k,
    {
        let target = positions[k] as u128;
        if target < b {
            proof {
                assert(k > 0);
                assert(!(positions@[k - 1] <= positions@[k as int]));
            }
            return None;
        }
        let start = c;
        while c < line.len() && b < target
            invariant
                start <= c <= line.len(),
                b == utf8_len(line@.take(c as int)),
                utf8_len(line@.take(start as int)) <= target,
                c > start ==> utf8_len(line@.take(c - 1)) < target,
                b <= target + 4,
                target <= usize::MAX,
            decreases line.len() - c,
        {
            assert(line@.take(c + 1).drop_last() =~= line@.take(c as int));
            b = b + utf8_width_exec(line[c]);
            c += 1;
        }
        if b != target {
            proof {
                if on_boundary(line@, target as int) {
                    let w = choose|w: int|
                        0 <= w <= line@.len() && utf8_len(#[trigger] line@.take(w)) == target;
                    if b < target {
                        assert(c == line.len());
                        if w < c {
                            lemma_utf8_len_grows(line@, w, c as int);
                        }
                    } else {
                        assert(c > start);
                        if w < c - 1 {
                            lemma_utf8_len_grows(line@, w, c - 1);
                        } else if w > c {
                            lemma_utf8_len_grows(line@, c as int, w);
                        }
                    }
                }
                assert(!on_boundary(line@, positions@[k as int] as int));
            }
            return None;
        }
        let piece = slice_of(line, start, c);
        let ghost before = pieces@;
        pieces.push(piece);
        proof {
            let pv = crate::text::vecs_view(pieces@);
            assert(pv.drop_last() =~= crate::text::vecs_view(before));
            assert(line@.take(start as int) + piece@ =~= line@.take(c as int));
            assert(pv.take(k + 1) =~= pv);
            assert forall|j: int| 0 <= j < k + 1 implies utf8_len(joined(#[trigger] pv.take(j + 1)))
                == positions@[j] by {
                if j < k {
                    assert(pv.take(j + 1) =~= crate::text::vecs_view(before).take(j + 1));
                }
            }
            assert(utf8_len(line@.take(c as int)) == positions@[k as int]);
            assert(on_boundary(line@, positions@[k as int] as int));
            lemma_char_at_byte(line@, c as int);
            assert(pv[k as int] == piece@);
            assert(piece@ =~= cut(line@, positions@)[k as int]);
            assert forall|j: int| 0 <= j < k + 1 implies #[trigger] pv[j] == cut(line@, positions@)[j] by {
                if j < k {
                    assert(pv[j] == crate::text::vecs_view(before)[j]);
                }
            }
        }
        k += 1;
    }
    let piece = slice_of(line, c, line.len());
    let ghost before = pieces@;
    pieces.push(piece);
    proof {
        let pv = crate::text::vecs_view(pieces@);
        assert(pv.drop_last() =~= crate::text::vecs_view(before));
        assert(line@.take(c as int) + piece@ =~= line@);
        assert forall|j: int| 0 <= j < positions.len() implies utf8_len(
            joined(#[trigger] pv.take(j + 1)),
        ) == positions@[j] by {
            assert(pv.take(j + 1) =~= crate::text::vecs_view(before).take(j + 1));
        }
        assert(piece@ =~= cut(line@, positions@)[k as int]);
        assert forall|j: int| 0 <= j < pv.len() implies #[trigger] pv[j] == cut(line@, positions@)[j] by {
            if j < k {
                assert(pv[j] == crate::text::vecs_view(before)[j]);
            }
        }
        assert(pv =~= cut(line@, positions@));
    }
    Some(pieces)
}

fn first_line(s: &Vec<char>) -> (r: Vec<char>)
    ensures
        r@ == crate::text::line_at(s@, 0),
{
    let mut e: usize = 0;
    while e < s.len() && s[e] != '\n'
        invariant
            e <= s.len(),
            line_break(s@, 0) == line_break(s@, e as int),
        decreases s.len() - e,
    {
        e += 1;
    }
    proof {
        lemma_line_break(s@, 0);
    }
    if e < s.len() && e > 0 && s[e - 1] == '\r' {
        slice_of(s, 0, e - 1)
    } else {
        slice_of(s, 0, e)
    }
}

/// The dotted names of the scopes on the stack, outermost first.
fn names_of(stack: &Stack) -> (v: Vec<Vec<char>>)
    ensures
        crate::text::vecs_view(v@) == scope_names(stack@),
{
    let scopes = stack_scopes(stack);
    let mut v: Vec<Vec<char>> = Vec::new();
    let mut k: usize = 0;
    while k < scopes.len()
        invariant
            k <= scopes.len() == stack_len(stack@),
            forall|i: int| 0 <= i < scopes.len() ==> (#[trigger] scopes@[i])@ == (stack@, i),
            crate::text::vecs_view(v@) == scope_names(stack@).take(k as int),
        decreases scopes.len() - k,
    {
        let name = scope_name(&scopes[k]);
        let ghost before = v@;
        let c = chars_of(name.as_str());
        v.push(c);
        k += 1;
        proof {
            assert(scopes@[k - 1]@ == (stack@, k - 1));
            assert(c@ == scope_name_at(stack@, k - 1));
            assert(crate::text::vecs_view(v@) =~= crate::text::vecs_view(before).push(c@));
            assert(crate::text::vecs_view(v@) =~= scope_names(stack@).take(k as int));
        }
    }
    assert(scope_names(stack@).take(k as int) =~= scope_names(stack@));
    v
}

/// How the grammar for the file at `path` whose text is `text` is looked
/// up in the bundled grammars: by the extension of its name, else by its
/// whole name (`Makefile`), else by its first line (`#!/bin/sh`); none when
/// no lookup finds one.
pub open spec fn grammar_key(path: Seq<char>, text: Seq<char>) -> Option<GrammarKey> {
    let name = file_name(path);
    let first = crate::text::line_at(text, 0);
    if extension(name) matches Some(e) && extension_grammar(e) {
        Some((0int, extension(name)->0))
    } else if extension_grammar(name) {
        Some((0int, name))
    } else if first_line_grammar(first) {
        Some((1int, first))
    } else {
        None
    }
}

/// Whether the bundled grammars have a syntax for the file.
pub open spec fn grammar_found(path: Seq<char>, text: Seq<char>) -> bool {
    grammar_key(path, text) is Some
}

/// The syntax for a file: by the extension of its name, else by its whole
/// name, else by its first line.
fn syntax_for<'a>(g: &'a Grammars, path: &str, text: &Vec<char>) -> (r: Option<Syntax<'a>>)
    ensures
        r is Some <==> grammar_found(path@, text@),
        r matches Some(s) ==> grammar_key(path@, text@) == Some(s@),
{
    let p = chars_of(path);
    let name = file_name_exec(&p);
    let by_ext = match extension_exec(&name) {
        Some(e) => syntax_by_extension(g, string_from(e.as_slice()).as_str()),
        None => None,
    };
    if by_ext.is_some() {
        return by_ext;
    }
    let by_name = syntax_by_extension(g, string_from(name.as_slice()).as_str());
    if by_name.is_some() {
        return by_name;
    }
    let first = first_line(text);
    syntax_by_first_line(g, string_from(first.as_slice()).as_str())
}

/// The scope changes of a line, by where they came from, in order.
pub open spec fn op_ids(from: (ParserView, Seq<char>), n: int) -> Seq<OpId> {
    Seq::new(n as nat, |k: int| (from.0, from.1, k))
}

/// Whether the `k`-th to `n - 1`-th scope changes of a line apply, in
/// order, on the stack that the changes `applied` made.
pub open spec fn applies_from(applied: Seq<OpId>, from: (ParserView, Seq<char>), k: int, n: int) -> bool
    decreases n - k,
{
    if k >= n {
        true
    } else {
        op_applies(applied, (from.0, from.1, k)) && applies_from(
            applied.push((from.0, from.1, k)),
            from,
            k + 1,
            n,
        )
    }
}

/// Whether the grammar reads `lines`, from the parser state `p` and the
/// stack the changes `applied` made: the parser reads each line, the
/// offsets of its scope changes cut the line between characters, and every
/// change applies.
pub open spec fn parses_from(p: ParserView, applied: Seq<OpId>, lines: Seq<Seq<char>>) -> bool
    decreases lines.len(),
{
    if lines.len() == 0 {
        true
    } else {
        match line_ops(p, lines[0]) {
            None => false,
            Some(pos) => regions_ok(lines[0], pos) && applies_from(applied, (p, lines[0]), 0, pos.len() as int)
                && parses_from(
                (p.0, p.1.push(lines[0])),
                applied + op_ids((p, lines[0]), pos.len() as int),
                lines.drop_first(),
            ),
        }
    }
}

/// Whether the file at `path` with text `text` is highlighted: a text that
/// is not empty, at most `MAX_BYTES` of UTF-8, without NUL and of at most
/// `MAX_LINES` lines, for which the bundled grammars have a syntax that
/// reads the whole file, line after line from its start.
pub open spec fn highlights(path: Seq<char>, text: Seq<char>) -> bool {
    &&& text.len() > 0 && utf8_len(text) <= MAX_BYTES && !text.contains('\0')
    &&& lines_with_endings(text).len() <= MAX_LINES
    &&& grammar_key(path, text) matches Some(key) && parses_from(
        (key, Seq::empty()),
        Seq::empty(),
        lines_with_endings(text),
    )
}

/// The pieces of a line read with its scope changes: each piece of the cut
/// line, with the names of the scopes on the stack while it is read (none
/// for an empty piece). The stack holds the changes `applied` before the
/// line and, while the `k`-th piece is read, the line's first `k` changes.
pub open spec fn line_pieces(
    applied: Seq<OpId>,
    from: (ParserView, Seq<char>),
    texts: Seq<Seq<char>>,
) -> Seq<(Seq<char>, Seq<Seq<char>>)> {
    Seq::new(
        texts.len(),
        |k: int|
            (
                texts[k],
                if texts[k].len() > 0 {
                    scope_names(applied + op_ids(from, k))
                } else {
                    Seq::empty()
                },
            ),
    )
}

/// The spans of `lines`, read from the parser state `p` and the stack the
/// changes `applied` made: each line is cut at the offsets of its scope
/// changes, and its spans are those `line_spans` gives for the pieces with
/// the names of the scopes they sit in.
pub open spec fn spans_from(p: ParserView, applied: Seq<OpId>, lines: Seq<Seq<char>>) -> Seq<
    Seq<SpanView>,
>
    decreases lines.len(),
{
    if lines.len() == 0 {
        Seq::empty()
    } else {
        let pos = line_ops(p, lines[0])->0;
        let from = (p, lines[0]);
        seq![spans_of(line_pieces(applied, from, cut(lines[0], pos))).0] + spans_from(
            (p.0, p.1.push(lines[0])),
            applied + op_ids(from, pos.len() as int),
            lines.drop_first(),
        )
    }
}

/// What `highlight` gives for the file at `path` with text `text`: nothing
/// unless the file `highlights`, else the spans of its lines, read from the
/// start of the file in the grammar found for it.
pub open spec fn highlight_spec(path: Seq<char>, text: Seq<char>) -> Option<Seq<Seq<SpanView>>> {
    if highlights(path, text) {
        Some(spans_from((grammar_key(path, text)->0, Seq::empty()), Seq::empty(), lines_with_endings(text)))
    } else {
        None
    }
}

/// What `highlight` gives, `r`, is `highlight_spec`: so an empty, oversized
/// (over `MAX_BYTES` of UTF-8) or NUL-bearing text, one of more than
/// `MAX_LINES` lines, one for which the bundled grammars have no syntax, or
/// one the grammar fails on is never highlighted, and every other is; and a
/// result has one list of well-formed spans per line, each within the drawn
/// part of its line.
pub open spec fn highlighted(path: Seq<char>, text: Seq<char>, r: Option<Seq<Seq<SpanView>>>) -> bool {
    &&& r == highlight_spec(path, text)
    &&& r is Some <==> highlights(path, text)
    &&& r matches Some(ls) ==> ls.len() == lines_with_endings(text).len() && forall|k: int|
        0 <= k < ls.len() ==> spans_well_formed(
            #[trigger] ls[k],
            utf16_len(visible(lines_with_endings(text)[k])) as int,
        )
}

/// The spans of the views of span lists.
pub open spec fn spans_seq(v: Seq<Vec<Span>>) -> Seq<Seq<SpanView>> {
    v.map_values(|x: Vec<Span>| spans_view(x@))
}

/// Per-line spans for `text`, or none when the file has no grammar, is too
/// long, looks binary, or the grammar fails on it: exactly
/// `highlight_spec`, over what the bundled grammars find (see
/// `highlighted`).
pub fn highlight(g: &Grammars, path: &str, text: &str) -> (r: Option<Vec<Vec<Span>>>)
    ensures
        highlighted(path@, text@, all_spans_view(r)),
        match r {
            Some(ls) => ls.len() == lines_with_endings(text@).len() && ls.len() <= MAX_LINES
                && forall|k: int|
                0 <= k < ls.len() ==> spans_well_formed(
                    spans_view(#[trigger] ls@[k]@),
                    utf16_len(visible(lines_with_endings(text@)[k])) as int,
                ),
            None => true,
        },
{
    let chars = chars_of(text);
    if chars.len() == 0 {
        return None;
    }
    if utf8_len_exec(&chars) > MAX_BYTES {
        return None;
    }
    if has_char(&chars, '\0') {
        return None;
    }
    proof {
        lemma_utf8_len_at_least(text@);
    }
    let syntax = match syntax_for(g, path, &chars) {
        Some(s) => s,
        None => return None,
    };
    let ghost key = syntax@;
    let mut parser = parse_state(&syntax);
    let mut stack = new_stack();
    let rules = rules();
    let lines = lines_with_endings_exec(&chars);
    let ghost lv = crate::text::vecs_view(lines@);
    let ghost whole = parses_from((key, Seq::empty()), Seq::empty(), lv);
    proof {
        assert(lv.skip(0) =~= lv);
        assert(lv.take(0) =~= Seq::<Seq<char>>::empty());
        assert(spans_seq(Seq::<Vec<Span>>::empty()) =~= Seq::<Seq<SpanView>>::empty());
        assert(Seq::<Seq<SpanView>>::empty() + spans_from((key, Seq::empty()), Seq::empty(), lv)
            =~= spans_from((key, Seq::empty()), Seq::empty(), lv));
    }
    let mut out: Vec<Vec<Span>> = Vec::new();
    let mut li: usize = 0;
    while li < lines.len()
        invariant
            li <= lines.len(),
            out.len() == li <= MAX_LINES,
            chars.len() <= MAX_BYTES,
            strs_view(rules@) == rules_table(),
            forall|k: int| 0 <= k < lines.len() ==> (#[trigger] lines@[k]).len() <= chars.len(),
            lv == crate::text::vecs_view(lines@),
            lv == lines_with_endings(text@),
            grammar_key(path@, text@) == Some(key),
            whole == parses_from((key, Seq::empty()), Seq::empty(), lv),
            parser@ == (key, lv.take(li as int)),
            whole == parses_from(parser@, stack@, lv.skip(li as int)),
            spans_seq(out@) + spans_from(parser@, stack@, lv.skip(li as int)) == spans_from(
                (key, Seq::empty()),
                Seq::empty(),
                lv,
            ),
            forall|k: int|
                0 <= k < out.len() ==> spans_well_formed(
                    spans_view(#[trigger] out@[k]@),
                    utf16_len(visible(lv[k])) as int,
                ),
        decreases lines.len() - li,
    {
        if out.len() >= MAX_LINES {
            return None;
        }
        let line = &lines[li];
        assert(line.len() <= chars.len());
        let ghost p0 = parser@;
        let ghost a0 = stack@;
        proof {
            assert(line@ == lv[li as int]);
            assert(lv.skip(li as int)[0] == lv[li as int]);
            assert(lv.skip(li as int).drop_first() =~= lv.skip(li + 1));
        }
        let line_str = string_from(line.as_slice());
        let (next, ops) = match parse_line(parser, line_str.as_str(), g) {
            Some(x) => x,
            None => return None,
        };
        parser = next;
        let ghost from = (p0, line@);
        let ghost n = ops@.1.len() as int;
        let ghost rest_ok = parses_from(parser@, a0 + op_ids(from, n), lv.skip(li + 1));
        proof {
            assert(parser@.1 =~= lv.take(li + 1));
        }
        let mut positions: Vec<usize> = Vec::new();
        let mut k: usize = 0;
        while k < ops.ops.len()
            invariant
                k <= ops.ops.len(),
                positions@ == ops@.1.take(k as int),
                ops@.1 == ops.ops@.map_values(|x: (usize, ScopeStackOp)| x.0),
            decreases ops.ops.len() - k,
        {
            positions.push(ops.ops[k].0);
            k += 1;
            assert(positions@ =~= ops@.1.take(k as int));
        }
        assert(positions@ =~= ops@.1);
        let texts = match split_regions(line, &positions) {
            Some(t) => t,
            None => return None,
        };
        assert(whole == (applies_from(a0, from, 0, n) && rest_ok));
        let mut pieces: Vec<(Vec<char>, Vec<Vec<char>>)> = Vec::new();
        let mut k: usize = 0;
        while k < texts.len()
            invariant
                k <= texts.len() == n + 1,
                n == ops@.1.len(),
                ops@.0 == from,
                pieces.len() == k,
                piece_texts(pieces_view(pieces@)) == crate::text::vecs_view(texts@).take(k as int),
                pieces_view(pieces@) == line_pieces(a0, from, crate::text::vecs_view(texts@)).take(k as int),
                stack@ == a0 + op_ids(from, if k == 0 { 0 } else { k - 1 }),
                lv == lines_with_endings(text@),
                grammar_key(path@, text@) == Some(key),
                whole == parses_from((key, Seq::empty()), Seq::empty(), lv),
                whole == (applies_from(stack@, from, if k == 0 { 0 } else { k - 1 }, n) && rest_ok),
            decreases texts.len() - k,
        {
            if k > 0 {
                let ghost before = stack@;
                proof {
                    assert(applies_from(before, from, k - 1, n) == (op_applies(before, (from.0, from.1, k - 1))
                        && applies_from(before.push((from.0, from.1, k - 1)), from, k as int, n)));
                }
                stack = match apply_op(stack, &ops, k - 1) {
                    Some(t) => t,
                    None => {
                        proof {
                            assert(!whole);
                        }
                        return None;
                    },
                };
                proof {
                    assert(stack@ =~= a0 + op_ids(from, k as int));
                }
            }
            proof {
                if k == 0 {
                    assert(a0 + op_ids(from, 0) =~= a0);
                }
                assert(stack@ == a0 + op_ids(from, k as int));
            }
            let names = if texts[k].len() > 0 {
                names_of(&stack)
            } else {
                Vec::new()
            };
            let piece = slice_of(&texts[k], 0, texts[k].len());
            let ghost before = pieces@;
            pieces.push((piece, names));
            proof {
                let tv = crate::text::vecs_view(texts@);
                assert(tv.take(k + 1).drop_last() =~= tv.take(k as int));
                assert(pieces_view(pieces@).drop_last() =~= pieces_view(before));
                assert(piece@ =~= tv[k as int]);
                assert(piece_texts(pieces_view(pieces@)) =~= tv.take(k + 1));
                if texts[k as int].len() == 0 {
                    assert(crate::text::vecs_view(names@) =~= Seq::<Seq<char>>::empty());
                }
                assert(pieces_view(pieces@) =~= line_pieces(a0, from, tv).take(k + 1));
            }
            k += 1;
        }
        proof {
            assert(stack@ == a0 + op_ids(from, n));
            assert(whole == rest_ok);
            assert(crate::text::vecs_view(texts@).take(texts.len() as int) =~= crate::text::vecs_view(texts@));
            lemma_units_joined(pieces_view(pieces@));
            lemma_utf16_len_split(line@, 0, line.len() as int);
            assert(line@.subrange(0, line.len() as int) =~= line@);
            assert(line@.take(line.len() as int) =~= line@);
        }
        let spans = line_spans_with(&rules, &pieces);
        proof {
            law_spans_well_formed(pieces_view(pieces@));
            assert(line@ == lv[li as int]);
            let tv = crate::text::vecs_view(texts@);
            assert(line_pieces(a0, from, tv).take(texts.len() as int) =~= line_pieces(a0, from, tv));
            assert(tv == cut(lv[li as int], line_ops(p0, lv[li as int])->0));
            assert(spans_from(p0, a0, lv.skip(li as int)) == seq![spans_view(spans@)] + spans_from(
                parser@,
                a0 + op_ids(from, n),
                lv.skip(li + 1),
            ));
        }
        let ghost before = out@;
        out.push(spans);
        proof {
            assert(spans_seq(out@) =~= spans_seq(before).push(spans_view(spans@)));
            assert(spans_seq(before) + (seq![spans_view(spans@)] + spans_from(parser@, stack@, lv.skip(li + 1)))
                =~= spans_seq(out@) + spans_from(parser@, stack@, lv.skip(li + 1)));
            assert forall|k: int| 0 <= k < out.len() implies spans_well_formed(
                spans_view(#[trigger] out@[k]@),
                utf16_len(visible(lv[k])) as int,
            ) by {
                if k < before.len() {
                    assert(out@[k] == before[k]);
                }
            }
        }
        li += 1;
    }
    proof {
        assert(lv.skip(lines.len() as int) =~= Seq::<Seq<char>>::empty());
        assert(whole);
        assert(!text@.contains('\0'));
        assert(highlights(path@, text@));
        assert(spans_seq(out@) + spans_from(parser@, stack@, lv.skip(li as int)) =~= spans_seq(out@));
        assert(all_spans_view(Some(out)) == Some(spans_seq(out@)));
        let ls = all_spans_view(Some(out))->0;
        assert forall|k: int| 0 <= k < ls.len() implies spans_well_formed(
            #[trigger] ls[k],
            utf16_len(visible(lines_with_endings(text@)[k])) as int,
        ) by {
            assert(ls[k] == spans_view(out@[k]@));
        }
    }
    Some(out)
}

/// The spans of line `n` (counting from 1) of a highlighted file, if both
/// are there.
pub open spec fn spans_at(all: Option<Seq<Seq<SpanView>>>, n: Option<u32>) -> Option<Seq<SpanView>> {
    match (all, n) {
        (Some(a), Some(n)) => if 1 <= n && n - 1 < a.len() {
            Some(a[n - 1])
        } else {
            None
        },
        _ => None,
    }
}

/// A line with its syntax classes: a removal is looked up in the old text
/// by its old number, any other line in the new text by its new number,
/// and only a nonempty list of spans is attached.
pub open spec fn line_with_syntax(
    l: LineView,
    old_lines: Option<Seq<Seq<SpanView>>>,
    new_lines: Option<Seq<Seq<SpanView>>>,
) -> LineView {
    let found = if l.kind == LineKind::Del {
        spans_at(old_lines, l.old_no)
    } else {
        spans_at(new_lines, l.new_no)
    };
    match found {
        Some(sp) => if sp.len() > 0 {
            LineView { syntax: Some(sp), ..l }
        } else {
            l
        },
        None => l,
    }
}

/// A hunk with syntax classes attached to its lines.
pub open spec fn hunk_with_syntax(
    h: HunkView,
    old_lines: Option<Seq<Seq<SpanView>>>,
    new_lines: Option<Seq<Seq<SpanView>>>,
) -> HunkView {
    HunkView {
        lines: h.lines.map_values(|l: LineView| line_with_syntax(l, old_lines, new_lines)),
        ..h
    }
}

/// A parsed file with syntax classes attached to its lines; a binary file
/// and a combined diff are left alone, since a combined diff's removals
/// belong to different parents and there is no single old file to read
/// them from.
pub open spec fn file_with_syntax(
    f: FileDiffView,
    old_lines: Option<Seq<Seq<SpanView>>>,
    new_lines: Option<Seq<Seq<SpanView>>>,
) -> FileDiffView {
    if f.binary || f.combined {
        f
    } else {
        FileDiffView {
            hunks: f.hunks.map_values(|h: HunkView| hunk_with_syntax(h, old_lines, new_lines)),
            ..f
        }
    }
}

/// The view of per-line span lists.
pub open spec fn all_spans_view(o: Option<Vec<Vec<Span>>>) -> Option<Seq<Seq<SpanView>>> {
    match o {
        Some(v) => Some(v@.map_values(|x: Vec<Span>| spans_view(x@))),
        None => None,
    }
}

fn copy_spans(v: &Vec<Span>) -> (r: Vec<Span>)
    ensures
        spans_view(r@) == spans_view(v@),
{
    let mut r: Vec<Span> = Vec::new();
    let mut k: usize = 0;
    while k < v.len()
        invariant
            k <= v.len(),
            spans_view(r@) == spans_view(v@).take(k as int),
        decreases v.len() - k,
    {
        let ghost before = r@;
        let sp = Span { start: v[k].start, end: v[k].end, class: v[k].class };
        assert(sp@ == v@[k as int]@);
        r.push(sp);
        assert(spans_view(r@) =~= spans_view(before).push(sp@));
        k += 1;
        assert(spans_view(r@) =~= spans_view(v@).take(k as int));
    }
    assert(spans_view(v@).take(v.len() as int) =~= spans_view(v@));
    r
}

fn spans_at_exec(all: &Option<Vec<Vec<Span>>>, n: Option<u32>) -> (r: Option<Vec<Span>>)
    ensures
        match r {
            Some(v) => spans_at(all_spans_view(*all), n) == Some(spans_view(v@)),
            None => spans_at(all_spans_view(*all), n) is None,
        },
{
    match (all, n) {
        (Some(a), Some(n)) => {
            if n >= 1 && ((n - 1) as usize) < a.len() {
                let k = (n - 1) as usize;
                Some(copy_spans(&a[k]))
            } else {
                None
            }
        },
        _ => None,
    }
}

/// Attaches the spans of the old and the new text, as `highlight` gave them,
/// to a parsed file's lines.
pub fn annotate_with(file: &mut FileDiff, old_lines: Option<Vec<Vec<Span>>>, new_lines: Option<Vec<Vec<Span>>>)
    ensures
        final(file)@ == file_with_syntax(old(file)@, all_spans_view(old_lines), all_spans_view(new_lines)),
{
    let ghost ov = all_spans_view(old_lines);
    let ghost nv = all_spans_view(new_lines);
    if file.binary || file.combined {
        return;
    }
    let ghost orig = hunks_view(file.hunks@);
    let ghost f0 = file@;
    let mut h: usize = 0;
    while h < file.hunks.len()
        invariant
            h <= file.hunks.len(),
            orig.len() == file.hunks.len(),
            ov == all_spans_view(old_lines),
            nv == all_spans_view(new_lines),
            forall|t: int| 0 <= t < h ==> file.hunks@[t]@ == hunk_with_syntax(orig[t], ov, nv),
            forall|t: int| h <= t < file.hunks.len() ==> file.hunks@[t]@ == orig[t],
            file@.path == f0.path,
            file@.old_path == f0.old_path,
            file@.binary == f0.binary,
            file@.combined == f0.combined,
            file@.old_mode == f0.old_mode,
            file@.new_mode == f0.new_mode,
            file@.truncated == f0.truncated,
        decreases file.hunks.len() - h,
    {
        let ghost hv = file.hunks@[h as int]@;
        let mut j: usize = 0;
        while j < file.hunks[h].lines.len()
            invariant
                h < file.hunks.len(),
                orig.len() == file.hunks.len(),
                hv == orig[h as int],
                ov == all_spans_view(old_lines),
                nv == all_spans_view(new_lines),
                hv.lines.len() == file.hunks@[h as int].lines.len(),
                forall|t: int| 0 <= t < h ==> file.hunks@[t]@ == hunk_with_syntax(orig[t], ov, nv),
                forall|t: int| h < t < file.hunks.len() ==> file.hunks@[t]@ == orig[t],
                forall|t: int| 0 <= t < j ==> file.hunks@[h as int].lines@[t]@ == line_with_syntax(hv.lines[t], ov, nv),
                forall|t: int| j <= t < hv.lines.len() ==> file.hunks@[h as int].lines@[t]@ == hv.lines[t],
                file.hunks@[h as int]@.header == hv.header,
                file.hunks@[h as int]@.old_start == hv.old_start,
                file.hunks@[h as int]@.old_lines == hv.old_lines,
                file.hunks@[h as int]@.new_start == hv.new_start,
                file.hunks@[h as int]@.new_lines == hv.new_lines,
                file.hunks@[h as int]@.section == hv.section,
                file@.path == f0.path,
                file@.old_path == f0.old_path,
                file@.binary == f0.binary,
                file@.combined == f0.combined,
                file@.old_mode == f0.old_mode,
                file@.new_mode == f0.new_mode,
                file@.truncated == f0.truncated,
            decreases hv.lines.len() - j,
        {
            let kind = file.hunks[h].lines[j].kind;
            let found = if kind == LineKind::Del {
                spans_at_exec(&old_lines, file.hunks[h].lines[j].old_no)
            } else {
                spans_at_exec(&new_lines, file.hunks[h].lines[j].new_no)
            };
            match found {
                Some(sp) => {
                    if sp.len() > 0 {
                        file.hunks[h].lines[j].syntax = Some(sp);
                    }
                },
                None => {},
            }
            j += 1;
        }
        assert(file.hunks@[h as int]@ =~= hunk_with_syntax(orig[h as int], ov, nv)) by {
            assert(file.hunks@[h as int]@.lines =~= hv.lines.map_values(|l: LineView| line_with_syntax(l, ov, nv)));
        }
        h += 1;
    }
    assert(hunks_view(file.hunks@) =~= orig.map_values(|x: HunkView| hunk_with_syntax(x, ov, nv)));
}

/// The spans `highlight` gives for `text` read as the file at `path`, where
/// a text is supplied; none where it is not.
pub open spec fn highlight_of(path: Seq<char>, text: Option<&str>) -> Option<Seq<Seq<SpanView>>> {
    match text {
        Some(t) => highlight_spec(path, t@),
        None => None,
    }
}

/// The path a file had before the change: its old path where it was
/// renamed, else its path.
pub open spec fn old_name(f: FileDiffView) -> Seq<char> {
    match f.old_path {
        Some(p) => p,
        None => f.path,
    }
}

/// Attaches syntax classes to a parsed file's lines, from the whole old
/// and new texts.
///
/// Added and context lines are looked up in the new text, removals in the
/// old text (read under the old path of a rename), so both sides of a
/// change are coloured from a file that actually parses. A binary or
/// combined file is left as it is; any other is the one `annotate_with`
/// makes of the spans `highlight` gives for the old text under the old
/// name and for the new text under the path.
pub fn annotate(file: &mut FileDiff, g: &Grammars, old_text: Option<&str>, new_text: Option<&str>)
    ensures
        final(file)@ == file_with_syntax(
            old(file)@,
            highlight_of(old_name(old(file)@), old_text),
            highlight_of(old(file)@.path, new_text),
        ),
{
    if file.binary || file.combined {
        return;
    }
    let new_lines = match new_text {
        Some(t) => highlight(g, file.path.as_str(), t),
        None => None,
    };
    let read_as = match &file.old_path {
        Some(o) => o.clone(),
        None => file.path.clone(),
    };
    let old_lines = match old_text {
        Some(t) => highlight(g, read_as.as_str(), t),
        None => None,
    };
    let ghost ov = all_spans_view(old_lines);
    let ghost nv = all_spans_view(new_lines);
    let ghost before = file@;
    assert(ov == highlight_of(old_name(before), old_text));
    assert(nv == highlight_of(before.path, new_text));
    annotate_with(file, old_lines, new_lines);
    assert(file@ == file_with_syntax(before, ov, nv));
}

} // verus!
