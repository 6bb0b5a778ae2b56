//! The decisions of the local HTTP server.
//!
//! diffuse serves your source code over a loopback port, which any page in
//! your browser could otherwise read. Four things stop that: loopback-only
//! binding, an ephemeral port, a per-launch token, and a Host/Origin check
//! against DNS rebinding. The checks, the token, and what each route sends
//! are decided here; the transport runs them.

use vstd::prelude::*;

use crate::git::entries_view;
use crate::model::{FileDiff, FileDiffView, FileEntry, HunkView};
use crate::text::{chars_of, last_index, last_index_exec, lemma_last_index, occurs_at, same, slice_of, starts_with};

verus! {

/// Files larger than this many lines are not sent until the reader
/// explicitly asks. Only the per-file route applies it; the whole-diff
/// stream exists precisely to put everything in the page.
pub const LINE_CEILING: usize = 5000;

/// Above this many changed lines the whole diff is not sent up front,
/// because the page would hold a DOM row per line. `--inline-all`
/// overrides it.
pub const INLINE_LINE_CAP: usize = 50000;

/// A ceiling on whole-file text highlighted for one stream. Highlighting
/// needs entire files, so a one-line change in a huge file costs the whole
/// file; past this budget the remaining files stream plain but still
/// searchable.
pub const HIGHLIGHT_LINE_BUDGET: usize = 400000;

/// The host name in a `Host` header: what comes before its last `:`, or all
/// of it.
pub open spec fn host_name(host: Seq<char>) -> Seq<char> {
    let k = last_index(host, ':', host.len() as int);
    if k >= 0 {
        host.take(k)
    } else {
        host
    }
}

/// Whether a `Host` header names this machine. A page served from an
/// attacker's domain that resolves to 127.0.0.1 would carry its own
/// hostname here.
pub open spec fn loopback_host(host: Option<Seq<char>>) -> bool {
    match host {
        Some(h) => {
            let n = host_name(h);
            n == "127.0.0.1"@ || n == "localhost"@ || n == "[::1]"@
        },
        None => false,
    }
}

/// Whether an `Origin` header is a page of this machine.
pub open spec fn loopback_origin(origin: Seq<char>) -> bool {
    ||| origin.len() >= "http://127.0.0.1:"@.len() && origin.take("http://127.0.0.1:"@.len() as int) == "http://127.0.0.1:"@
    ||| origin.len() >= "http://localhost:"@.len() && origin.take("http://localhost:"@.len() as int) == "http://localhost:"@
    ||| origin.len() >= "http://[::1]:"@.len() && origin.take("http://[::1]:"@.len() as int) == "http://[::1]:"@
}

/// Whether a request may be answered: its `Host` is loopback, its `Origin`,
/// when it has one, is a loopback page, and it carries the launch token,
/// in the `x-diffuse-token` header or else in the query.
pub open spec fn may_answer(
    token: Seq<char>,
    host: Option<Seq<char>>,
    origin: Option<Seq<char>>,
    header_token: Option<Seq<char>>,
    query_token: Option<Seq<char>>,
) -> bool {
    &&& loopback_host(host)
    &&& match origin {
        Some(o) => loopback_origin(o),
        None => true,
    }
    &&& match header_token {
        Some(t) => t == token,
        None => query_token == Some(token),
    }
}

/// The characters of an optional string.
pub open spec fn opt_str(o: Option<&str>) -> Option<Seq<char>> {
    match o {
        Some(s) => Some(s@),
        None => None,
    }
}

fn equals_str(a: &Vec<char>, b: &str) -> (r: bool)
    ensures
        r == (a@ == b@),
{
    let bv = chars_of(b);
    same(a, &bv)
}

fn has_prefix(s: &Vec<char>, p: &str) -> (r: bool)
    ensures
        r == (s@.len() >= p@.len() && s@.take(p@.len() as int) == p@),
{
    let pv = chars_of(p);
    let r = starts_with(s, &pv);
    proof {
        if s@.len() >= p@.len() {
            if s@.take(p@.len() as int) == p@ {
                assert(occurs_at(s@, p@, 0)) by {
                    assert(s@.subrange(0, p@.len() as int) =~= s@.take(p@.len() as int));
                }
            } else {
                assert(s@.subrange(0, p@.len() as int) =~= s@.take(p@.len() as int));
            }
        }
    }
    r
}

/// Whether a `Host` header names this machine.
pub fn host_is_loopback(host: Option<&str>) -> (b: bool)
    ensures
        b == loopback_host(opt_str(host)),
{
    let h = match host {
        Some(h) => chars_of(h),
        None => return false,
    };
    proof {
        lemma_last_index(h@, ':', h.len() as int);
    }
    let name = match last_index_exec(&h, ':') {
        Some(k) => slice_of(&h, 0, k),
        None => slice_of(&h, 0, h.len()),
    };
    assert(name@ == host_name(h@)) by {
        if last_index(h@, ':', h.len() as int) < 0 {
            assert(name@ =~= h@);
        }
    }
    equals_str(&name, "127.0.0.1") || equals_str(&name, "localhost") || equals_str(&name, "[::1]")
}

/// Whether a request may be answered, from its `Host`, `Origin` and
/// `x-diffuse-token` headers (each as text, when it is there and readable)
/// and the token in its query.
pub fn authorized(
    token: &str,
    host: Option<&str>,
    origin: Option<&str>,
    header_token: Option<&str>,
    query_token: Option<&str>,
) -> (b: bool)
    ensures
        b == may_answer(token@, opt_str(host), opt_str(origin), opt_str(header_token), opt_str(query_token)),
{
    if !host_is_loopback(host) {
        return false;
    }
    match origin {
        Some(o) => {
            let ov = chars_of(o);
            let ok = has_prefix(&ov, "http://127.0.0.1:") || has_prefix(&ov, "http://localhost:")
                || has_prefix(&ov, "http://[::1]:");
            if !ok {
                return false;
            }
        },
        None => {},
    }
    let supplied = match header_token {
        Some(t) => Some(t),
        None => query_token,
    };
    match supplied {
        Some(s) => {
            let sv = chars_of(s);
            equals_str(&sv, token)
        },
        None => false,
    }
}

/// The lowercase hexadecimal digit for `d < 16`.
pub open spec fn hex_digit(d: nat) -> char {
    if d < 10 {
        ((d + 48) as u32) as char
    } else {
        ((d + 87) as u32) as char
    }
}

/// Each byte as two lowercase hexadecimal digits, as `format!("{b:02x}")`
/// writes it.
pub open spec fn hex_of(bytes: Seq<u8>) -> Seq<char>
    decreases bytes.len(),
{
    if bytes.len() == 0 {
        Seq::empty()
    } else {
        hex_of(bytes.drop_last()) + seq![
            hex_digit((bytes.last() / 16) as nat),
            hex_digit((bytes.last() % 16) as nat),
        ]
    }
}

fn hex_digit_exec(d: u8) -> (c: char)
    requires
        d < 16,
    ensures
        c == hex_digit(d as nat),
{
    if d < 10 {
        (d + 48) as char
    } else {
        (d + 87) as char
    }
}

/// The bytes hex encoded, two lowercase digits each.
pub fn hex_token(bytes: &[u8]) -> (s: String)
    ensures
        s@ == hex_of(bytes@),
{
    let mut v: Vec<char> = Vec::new();
    let mut k: usize = 0;
    while k < bytes.len()
        invariant
            k <= bytes.len(),
            v@ == hex_of(bytes@.take(k as int)),
        decreases bytes.len() - k,
    {
        let b = bytes[k];
        v.push(hex_digit_exec(b / 16));
        v.push(hex_digit_exec(b % 16));
        assert(bytes@.take(k + 1).drop_last() =~= bytes@.take(k as int));
        k += 1;
        assert(v@ =~= hex_of(bytes@.take(k as int)));
    }
    assert(bytes@.take(bytes.len() as int) =~= bytes@);
    crate::text::string_from(v.as_slice())
}

/// `getrandom::fill`: fills the buffer with bytes from the operating
/// system's random source; whether that succeeded. Claimed: the buffer
/// keeps its length. Its contents are chance, and nothing is claimed of
/// them.
#[verifier::external_body]
fn fill_random(buf: &mut Vec<u8>) -> (ok: bool)
    ensures
        final(buf)@.len() == old(buf)@.len(),
{
    getrandom::fill(buf.as_mut_slice()).is_ok()
}

/// Whether every character is a lowercase hexadecimal digit.
pub open spec fn all_hex(s: Seq<char>) -> bool {
    forall|i: int| 0 <= i < s.len() ==> ('0' <= #[trigger] s[i] <= '9' || 'a' <= s[i] <= 'f')
}

proof fn lemma_hex_of(bytes: Seq<u8>)
    ensures
        hex_of(bytes).len() == 2 * bytes.len(),
        all_hex(hex_of(bytes)),
    decreases bytes.len(),
{
    if bytes.len() > 0 {
        lemma_hex_of(bytes.drop_last());
        let hi = (bytes.last() / 16) as nat;
        let lo = (bytes.last() % 16) as nat;
        let h = hex_of(bytes);
        let p = hex_of(bytes.drop_last());
        assert forall|i: int| 0 <= i < h.len() implies ('0' <= #[trigger] h[i] <= '9' || 'a' <= h[i] <= 'f') by {
            if i < p.len() {
                assert(h[i] == p[i]);
            }
        }
    }
}

/// A fresh session token: 128 bits from the operating system, hex encoded.
/// It guards the only door to the repository's contents, so it must come
/// from a real random source; none when the system has none to give.
/// Which bytes the system gave is chance: what is stated is that the token
/// is the hex encoding of sixteen of them.
pub fn random_token() -> (t: Option<String>)
    ensures
        match t {
            Some(s) => (exists|b: Seq<u8>| b.len() == 16 && s@ == #[trigger] hex_of(b)) && s@.len()
                == 32 && all_hex(s@),
            None => true,
        },
{
    let mut bytes: Vec<u8> = Vec::new();
    let mut k: usize = 0;
    while k < 16
        invariant
            k <= 16,
            bytes.len() == k,
        decreases 16 - k,
    {
        bytes.push(0);
        k += 1;
    }
    if !fill_random(&mut bytes) {
        return None;
    }
    let s = hex_token(bytes.as_slice());
    proof {
        lemma_hex_of(bytes@);
        assert(bytes@.len() == 16 && s@ == hex_of(bytes@));
    }
    Some(s)
}

/// A wrapping 32-bit sum, as release builds add.
pub open spec fn wrapping_total(s: Seq<u32>) -> u32
    decreases s.len(),
{
    if s.len() == 0 {
        0
    } else {
        vstd::wrapping::u32_specs::wrapping_add(wrapping_total(s.drop_last()), s.last())
    }
}

/// The additions of each entry.
pub open spec fn additions_of(files: Seq<crate::model::FileEntryView>) -> Seq<u32> {
    files.map_values(|f: crate::model::FileEntryView| f.additions)
}

/// The deletions of each entry.
pub open spec fn deletions_of(files: Seq<crate::model::FileEntryView>) -> Seq<u32> {
    files.map_values(|f: crate::model::FileEntryView| f.deletions)
}

/// The additions and deletions over the whole file list, for the sidebar's
/// summary.
pub fn totals(files: &Vec<FileEntry>) -> (r: (u32, u32))
    ensures
        r.0 == wrapping_total(additions_of(entries_view(files@))),
        r.1 == wrapping_total(deletions_of(entries_view(files@))),
{
    let ghost fv = entries_view(files@);
    let mut a: u32 = 0;
    let mut d: u32 = 0;
    let mut k: usize = 0;
    while k < files.len()
        invariant
            k <= files.len(),
            fv == entries_view(files@),
            a == wrapping_total(additions_of(fv).take(k as int)),
            d == wrapping_total(deletions_of(fv).take(k as int)),
        decreases files.len() - k,
    {
        assert(additions_of(fv).take(k + 1).drop_last() =~= additions_of(fv).take(k as int));
        assert(deletions_of(fv).take(k + 1).drop_last() =~= deletions_of(fv).take(k as int));
        a = a.wrapping_add(files[k].additions);
        d = d.wrapping_add(files[k].deletions);
        k += 1;
    }
    assert(additions_of(fv).take(files.len() as int) =~= additions_of(fv));
    assert(deletions_of(fv).take(files.len() as int) =~= deletions_of(fv));
    (a, d)
}

/// The number of changed lines in the file list, as numstat counts them.
pub open spec fn changed_total(files: Seq<crate::model::FileEntryView>) -> int
    decreases files.len(),
{
    if files.len() == 0 {
        0
    } else {
        changed_total(files.drop_last()) + files.last().additions + files.last().deletions
    }
}

/// Whether the whole diff is sent up front: always with `--inline-all`,
/// otherwise only while the changed lines stay within `INLINE_LINE_CAP`.
/// It is decided from the stat output, before any real work: the cost
/// guarded against is a DOM row per changed line, and numstat already
/// counts those.
pub fn send_inline(inline_all: bool, files: &Vec<FileEntry>) -> (r: (bool, usize))
    ensures
        r.0 == (inline_all || changed_total(entries_view(files@)) <= INLINE_LINE_CAP),
        r.1 == if changed_total(entries_view(files@)) <= usize::MAX {
            changed_total(entries_view(files@))
        } else {
            usize::MAX as int
        },
{
    let ghost fv = entries_view(files@);
    let mut n: usize = 0;
    let mut k: usize = 0;
    while k < files.len()
        invariant
            k <= files.len(),
            fv == entries_view(files@),
            n == if changed_total(fv.take(k as int)) <= usize::MAX {
                changed_total(fv.take(k as int))
            } else {
                usize::MAX as int
            },
            changed_total(fv.take(k as int)) >= 0,
        decreases files.len() - k,
    {
        assert(fv.take(k + 1).drop_last() =~= fv.take(k as int));
        let c = files[k].additions as usize;
        let e = files[k].deletions as usize;
        n = n.saturating_add(c).saturating_add(e);
        k += 1;
    }
    assert(fv.take(files.len() as int) =~= fv);
    (inline_all || n <= INLINE_LINE_CAP, n)
}

/// Which files get highlighted: the budget is spent in list order, so which
/// files come out coloured does not change from run to run; a file is
/// coloured when its cost fits in what is left.
pub open spec fn plan_from(costs: Seq<usize>, left: int) -> Seq<bool>
    decreases costs.len(),
{
    if costs.len() == 0 {
        Seq::empty()
    } else if costs[0] <= left {
        seq![true] + plan_from(costs.drop_first(), left - costs[0])
    } else {
        seq![false] + plan_from(costs.drop_first(), left)
    }
}

/// The plan for spending `budget` over files of the given costs.
pub fn highlight_plan(costs: &Vec<usize>, budget: usize) -> (plan: Vec<bool>)
    ensures
        plan@ == plan_from(costs@, budget as int),
{
    let mut plan: Vec<bool> = Vec::new();
    let mut left = budget;
    let mut k: usize = 0;
    assert(costs@.skip(0) =~= costs@);
    assert(plan@ + plan_from(costs@, budget as int) =~= plan_from(costs@, budget as int));
    while k < costs.len()
        invariant
            k <= costs.len(),
            plan@ + plan_from(costs@.skip(k as int), left as int) == plan_from(costs@, budget as int),
        decreases costs.len() - k,
    {
        let ghost rest = costs@.skip(k as int);
        assert(rest.drop_first() =~= costs@.skip(k + 1));
        assert(rest[0] == costs@[k as int]);
        let ghost before = plan@;
        let ghost l0 = left;
        if costs[k] <= left {
            left = left - costs[k];
            plan.push(true);
        } else {
            plan.push(false);
        }
        assert(plan_from(rest, l0 as int) == seq![plan@.last()] + plan_from(costs@.skip(k + 1), left as int));
        assert(plan@ + plan_from(costs@.skip(k + 1), left as int) =~= before + plan_from(rest, l0 as int));
        k += 1;
    }
    assert(costs@.skip(costs.len() as int) =~= Seq::<usize>::empty());
    assert(plan@ + plan_from(costs@.skip(k as int), left as int) =~= plan@);
    plan
}

/// What the chosen files cost together.
pub open spec fn chosen_cost(costs: Seq<usize>, plan: Seq<bool>) -> int
    decreases costs.len(),
{
    if costs.len() == 0 || plan.len() == 0 {
        0
    } else {
        (if plan[0] {
            costs[0] as int
        } else {
            0
        }) + chosen_cost(costs.drop_first(), plan.drop_first())
    }
}

/// The highlighting budget is never overspent: the files chosen cost no
/// more than the budget together, there is one choice per file, and a file
/// is left plain only when its cost exceeds what the files before it left.
pub proof fn law_plan_within_budget(costs: Seq<usize>, budget: int)
    requires
        budget >= 0,
    ensures
        plan_from(costs, budget).len() == costs.len(),
        chosen_cost(costs, plan_from(costs, budget)) <= budget,
        costs.len() > 0 ==> (plan_from(costs, budget)[0] <==> costs[0] <= budget),
    decreases costs.len(),
{
    if costs.len() > 0 {
        let p = plan_from(costs, budget);
        if costs[0] <= budget {
            law_plan_within_budget(costs.drop_first(), budget - costs[0]);
            assert(p.drop_first() =~= plan_from(costs.drop_first(), budget - costs[0]));
        } else {
            law_plan_within_budget(costs.drop_first(), budget);
            assert(p.drop_first() =~= plan_from(costs.drop_first(), budget));
        }
    }
}

/// The number of diff lines over a file's hunks.
pub open spec fn line_total(hunks: Seq<HunkView>) -> int
    decreases hunks.len(),
{
    if hunks.len() == 0 {
        0
    } else {
        line_total(hunks.drop_last()) + hunks.last().lines.len()
    }
}

fn line_total_exec(f: &FileDiff) -> (n: usize)
    ensures
        n == if line_total(f@.hunks) <= usize::MAX {
            line_total(f@.hunks)
        } else {
            usize::MAX as int
        },
        line_total(f@.hunks) >= 0,
{
    let ghost hv = f@.hunks;
    let mut n: usize = 0;
    let mut k: usize = 0;
    while k < f.hunks.len()
        invariant
            k <= f.hunks.len(),
            hv == f@.hunks,
            hv.len() == f.hunks.len(),
            n == if line_total(hv.take(k as int)) <= usize::MAX {
                line_total(hv.take(k as int))
            } else {
                usize::MAX as int
            },
            line_total(hv.take(k as int)) >= 0,
        decreases f.hunks.len() - k,
    {
        assert(hv.take(k + 1).drop_last() =~= hv.take(k as int));
        assert(hv[k as int].lines.len() == f.hunks[k as int].lines.len());
        n = n.saturating_add(f.hunks[k].lines.len());
        k += 1;
    }
    assert(hv.take(f.hunks.len() as int) =~= hv);
    n
}

/// A file past `LINE_CEILING` lines is sent without its hunks, marked
/// truncated, unless the reader asked for it anyway.
pub open spec fn ceiled(f: FileDiffView, force: bool) -> FileDiffView {
    if line_total(f.hunks) > LINE_CEILING && !force {
        FileDiffView { truncated: true, hunks: Seq::empty(), ..f }
    } else {
        f
    }
}

/// Holds a file back when it is too large to send unasked; whether it did.
pub fn apply_ceiling(f: &mut FileDiff, force: bool) -> (cut: bool)
    ensures
        final(f)@ == ceiled(old(f)@, force),
        cut == (line_total(old(f)@.hunks) > LINE_CEILING && !force),
{
    let size = line_total_exec(f);
    if size > LINE_CEILING && !force {
        f.truncated = true;
        f.hunks = Vec::new();
        assert(f@.hunks =~= Seq::<HunkView>::empty());
        true
    } else {
        false
    }
}

/// Whether a parsed file is the one that was asked for, under its path or,
/// for a rename, its old path.
pub open spec fn is_requested(f: FileDiffView, path: Seq<char>) -> bool {
    f.path == path || f.old_path == Some(path)
}

/// git may report several files when rename detection pairs the requested
/// path with another; this keeps the ones that were asked for, in order.
pub fn keep_requested(files: Vec<FileDiff>, path: &str) -> (r: Vec<FileDiff>)
    ensures
        crate::model::files_view(r@) == crate::model::files_view(files@).filter(
            |f: FileDiffView| is_requested(f, path@),
        ),
{
    let ghost all = crate::model::files_view(files@);
    let pv = chars_of(path);
    let mut rest = files;
    let mut out: Vec<FileDiff> = Vec::new();
    let ghost mut taken: int = 0;
    while rest.len() > 0
        invariant
            0 <= taken <= all.len(),
            crate::model::files_view(rest@) == all.skip(taken),
            crate::model::files_view(out@) == all.take(taken).filter(|f: FileDiffView| is_requested(f, path@)),
            pv@ == path@,
        decreases rest.len(),
    {
        let ghost r0 = rest@;
        assert(crate::model::files_view(r0).len() == r0.len());
        assert(taken < all.len());
        let f = rest.remove(0);
        proof {
            assert(crate::model::files_view(r0)[0] == f@);
            let t = all.take(taken + 1);
            assert(t.drop_last() =~= all.take(taken));
            assert(all.skip(taken)[0] == f@);
            assert(t.last() == f@);
            reveal(Seq::filter);
            assert forall|i: int| 0 <= i < rest@.len() implies crate::model::files_view(rest@)[i]
                == all.skip(taken + 1)[i] by {
                assert(rest@[i] == r0[i + 1]);
                assert(crate::model::files_view(r0)[i + 1] == all.skip(taken)[i + 1]);
            }
            assert(crate::model::files_view(rest@) =~= all.skip(taken + 1));
            taken = taken + 1;
        }
        let fp = chars_of(f.path.as_str());
        let keep = same(&fp, &pv) || match &f.old_path {
            Some(o) => {
                let ov = chars_of(o.as_str());
                same(&ov, &pv)
            },
            None => false,
        };
        let ghost before = out@;
        if keep {
            out.push(f);
            assert(crate::model::files_view(out@) =~= crate::model::files_view(before).push(f@));
        }
    }
    assert(all.take(taken) =~= all);
    out
}

/// The first file, or an empty diff under the requested path when git
/// reported none.
pub fn first_or_empty(files: Vec<FileDiff>, path: &str) -> (f: FileDiff)
    ensures
        files@.len() > 0 ==> f@ == files@[0]@,
        files@.len() == 0 ==> f@ == (FileDiffView { path: path@, ..crate::model::empty_file_view() }),
{
    let mut files = files;
    if files.len() > 0 {
        files.remove(0)
    } else {
        let mut f = FileDiff::default();
        f.path = String::from_str(path);
        f
    }
}

/// The paths of the untracked entries, each once, in list order.
pub open spec fn untracked_set(files: Seq<crate::model::FileEntryView>) -> Seq<Seq<char>>
    decreases files.len(),
{
    if files.len() == 0 {
        Seq::empty()
    } else {
        let r = untracked_set(files.drop_last());
        if files.last().untracked && !r.contains(files.last().path) {
            r.push(files.last().path)
        } else {
            r
        }
    }
}

/// The untracked files of the list, whose patches are synthesized, each
/// path once.
pub fn untracked_paths_of(files: &Vec<FileEntry>) -> (r: Vec<String>)
    ensures
        crate::cli::strings_view(r@) == untracked_set(entries_view(files@)),
        crate::cli::strings_view(r@).no_duplicates(),
{
    let ghost fv = entries_view(files@);
    let mut r: Vec<String> = Vec::new();
    let mut seen: Vec<Vec<char>> = Vec::new();
    let mut k: usize = 0;
    while k < files.len()
        invariant
            k <= files.len(),
            fv == entries_view(files@),
            crate::cli::strings_view(r@) == untracked_set(fv.take(k as int)),
            crate::text::vecs_view(seen@) == crate::cli::strings_view(r@),
            crate::cli::strings_view(r@).no_duplicates(),
        decreases files.len() - k,
    {
        assert(fv.take(k + 1).drop_last() =~= fv.take(k as int));
        if files[k].untracked {
            let p = chars_of(files[k].path.as_str());
            let mut found = false;
            let mut j: usize = 0;
            while j < seen.len()
                invariant
                    j <= seen.len(),
                    found == crate::text::vecs_view(seen@).take(j as int).contains(p@),
                decreases seen.len() - j,
            {
                proof {
                    let t = crate::text::vecs_view(seen@).take(j + 1);
                    assert(t.drop_last() =~= crate::text::vecs_view(seen@).take(j as int));
                    assert(t.last() == seen@[j as int]@);
                    if t.contains(p@) && !crate::text::vecs_view(seen@).take(j as int).contains(p@) {
                        let w = choose|w: int| 0 <= w < t.len() && t[w] == p@;
                        if w < j {
                            assert(crate::text::vecs_view(seen@).take(j as int)[w] == p@);
                        }
                    }
                    if crate::text::vecs_view(seen@).take(j as int).contains(p@) {
                        let w = choose|w: int| 0 <= w < j && crate::text::vecs_view(seen@).take(j as int)[w] == p@;
                        assert(t[w] == p@);
                    }
                }
                if same(&seen[j], &p) {
                    found = true;
                }
                j += 1;
            }
            assert(crate::text::vecs_view(seen@).take(seen.len() as int) =~= crate::text::vecs_view(seen@));
            if !found {
                let ghost before = r@;
                let ghost sb = seen@;
                r.push(files[k].path.clone());
                seen.push(p);
                assert(crate::cli::strings_view(r@) =~= crate::cli::strings_view(before).push(p@));
                assert(crate::text::vecs_view(seen@) =~= crate::text::vecs_view(sb).push(p@));
            }
        }
        k += 1;
    }
    assert(fv.take(files.len() as int) =~= fv);
    r
}

/// What highlighting a file costs: the lines of its whole new text when
/// that is known, else (an untracked file, whose whole body is new) the
/// lines of its diff.
pub open spec fn highlight_cost_of(f: FileDiffView, full_new: Option<Seq<char>>) -> int {
    match full_new {
        Some(t) => crate::text::lines_of(t).len() as int,
        None => line_total(f.hunks),
    }
}

/// The cost of highlighting a file, for `highlight_plan`.
pub fn highlight_cost(f: &FileDiff, full_new: Option<&str>) -> (n: usize)
    ensures
        n == if highlight_cost_of(f@, opt_str(full_new)) <= usize::MAX {
            highlight_cost_of(f@, opt_str(full_new))
        } else {
            usize::MAX as int
        },
{
    match full_new {
        Some(t) => {
            let c = chars_of(t);
            crate::text::lines(&c).len()
        },
        None => line_total_exec(f),
    }
}

/// The word-level diff of a parsed file, then its syntax classes from the
/// whole old and new texts: the two passes that turn a parsed patch into
/// what the client draws. Every route goes through here so a file looks the
/// same however it was asked for; passing no text skips highlighting and
/// leaves the rows plain. The syntax classes are those `annotate` attaches
/// from `highlight`'s spans for the old text under the old name and the new
/// text under the path, exactly.
pub fn dress(
    f: &mut FileDiff,
    g: &crate::highlight::Grammars,
    old_text: Option<&str>,
    new_text: Option<&str>,
)
    ensures
        ({
            let worded = FileDiffView {
                hunks: old(f)@.hunks.map_values(|h: HunkView| crate::words::annotate_hunk(h)),
                ..old(f)@
            };
            final(f)@ == crate::highlight::file_with_syntax(
                worded,
                crate::highlight::highlight_of(crate::highlight::old_name(old(f)@), old_text),
                crate::highlight::highlight_of(old(f)@.path, new_text),
            )
        }),
{
    let ghost before = f@;
    crate::words::annotate(&mut f.hunks);
    let ghost worded = f@;
    assert(worded == FileDiffView {
        hunks: before.hunks.map_values(|h: HunkView| crate::words::annotate_hunk(h)),
        ..before
    });
    if old_text.is_some() || new_text.is_some() {
        crate::highlight::annotate(f, g, old_text, new_text);
    } else {
        assert(f@ == crate::highlight::file_with_syntax(worded, None, None)) by {
            if !(worded.binary || worded.combined) {
                assert(worded.hunks.map_values(
                    |h: HunkView| crate::highlight::hunk_with_syntax(h, None, None),
                ) =~= worded.hunks) by {
                    assert forall|i: int| 0 <= i < worded.hunks.len() implies #[trigger] crate::highlight::hunk_with_syntax(
                        worded.hunks[i],
                        None,
                        None,
                    ) == worded.hunks[i] by {
                        assert(worded.hunks[i].lines.map_values(
                            |l: crate::model::LineView| crate::highlight::line_with_syntax(l, None, None),
                        ) =~= worded.hunks[i].lines);
                    }
                }
            }
        }
        assert(crate::highlight::highlight_of(crate::highlight::old_name(before), old_text) is None);
        assert(crate::highlight::highlight_of(before.path, new_text) is None);
    }
}

/// The page of the commit list that a request asks for: where it starts
/// (0 by default) and how long it is (200 by default, never more than 500).
pub fn page_bounds(skip: Option<usize>, limit: Option<usize>) -> (r: (usize, usize))
    ensures
        r.0 == match skip {
            Some(s) => s,
            None => 0,
        },
        r.1 == match limit {
            Some(l) => if l < 500 {
                l
            } else {
                500
            },
            None => 200,
        },
{
    let s = match skip {
        Some(s) => s,
        None => 0,
    };
    let l = match limit {
        Some(l) => if l < 500 {
            l
        } else {
            500
        },
        None => 200,
    };
    (s, l)
}

/// How long the process lingers, in seconds, with no browser attached.
pub const IDLE_GRACE_SECS: u64 = 30;

/// One second of the idle watch: the seconds spent with no browser attached
/// grow while none is connected after one has been, and start over
/// otherwise; once they reach `IDLE_GRACE_SECS` the process exits, so
/// `diffuse` behaves like a command rather than a daemon you have to
/// remember to stop. Returns the new count and whether to exit.
pub fn idle_tick(idle: u64, clients: usize, ever_connected: usize) -> (r: (u64, bool))
    ensures
        clients == 0 && ever_connected > 0 ==> r == (
            if idle < u64::MAX {
                (idle + 1) as u64
            } else {
                idle
            },
            (if idle < u64::MAX {
                idle + 1
            } else {
                idle as int
            }) >= IDLE_GRACE_SECS,
        ),
        !(clients == 0 && ever_connected > 0) ==> r == (0u64, false),
{
    if clients == 0 && ever_connected > 0 {
        let next = idle.saturating_add(1);
        (next, next >= IDLE_GRACE_SECS)
    } else {
        (0, false)
    }
}

/// The port to listen on and the session token: a fixed port and the token
/// `dev` while developing the UI, else an ephemeral port and a fresh random
/// token (none when the system has no randomness to give).
pub fn launch_settings(dev: bool) -> (r: (u16, Option<String>))
    ensures
        dev ==> r.0 == 5177 && (r.1 matches Some(t) && t@ == "dev"@),
        !dev ==> r.0 == 0 && (r.1 matches Some(t) ==> t@.len() == 32 && all_hex(t@)),
{
    if dev {
        (5177, Some(String::from_str("dev")))
    } else {
        (0, random_token())
    }
}

/// The address diffuse prints and opens: loopback, the port it listens on,
/// and the token in the query.
pub fn serve_url(port: u16, token: &str) -> (s: String)
    ensures
        s@ == "http://127.0.0.1:"@ + crate::text::decimal(port as nat) + "/?t="@ + token@,
{
    let mut v = chars_of("http://127.0.0.1:");
    let digits = crate::text::decimal_exec(port as u32);
    let tail = chars_of("/?t=");
    let tok = chars_of(token);
    let ghost v0 = v@;
    let mut k: usize = 0;
    while k < digits.len()
        invariant
            k <= digits.len(),
            v@ == v0 + digits@.take(k as int),
        decreases digits.len() - k,
    {
        v.push(digits[k]);
        k += 1;
        assert(v@ =~= v0 + digits@.take(k as int));
    }
    assert(digits@.take(digits.len() as int) =~= digits@);
    let ghost v1 = v@;
    let mut k: usize = 0;
    while k < tail.len()
        invariant
            k <= tail.len(),
            v@ == v1 + tail@.take(k as int),
        decreases tail.len() - k,
    {
        v.push(tail[k]);
        k += 1;
        assert(v@ =~= v1 + tail@.take(k as int));
    }
    assert(tail@.take(tail.len() as int) =~= tail@);
    let ghost v2 = v@;
    let mut k: usize = 0;
    while k < tok.len()
        invariant
            k <= tok.len(),
            v@ == v2 + tok@.take(k as int),
        decreases tok.len() - k,
    {
        v.push(tok[k]);
        k += 1;
        assert(v@ =~= v2 + tok@.take(k as int));
    }
    assert(tok@.take(tok.len() as int) =~= tok@);
    crate::text::string_from(v.as_slice())
}

/// The embedded file a request path asks for: the path without its leading
/// slashes, and the page itself for the root.
pub open spec fn asset_path_of(path: Seq<char>) -> Seq<char> {
    let p = path.skip(crate::text::run_end(path, '/', 0));
    if p.len() == 0 {
        "index.html"@
    } else {
        p
    }
}

/// The embedded file a request path asks for.
pub fn asset_path(path: &str) -> (r: String)
    ensures
        r@ == asset_path_of(path@),
{
    let v = chars_of(path);
    let mut i: usize = 0;
    while i < v.len() && v[i] == '/'
        invariant
            i <= v.len(),
            crate::text::run_end(v@, '/', 0) == crate::text::run_end(v@, '/', i as int),
        decreases v.len() - i,
    {
        i += 1;
    }
    proof {
        crate::text::lemma_run_end(v@, '/', 0);
    }
    if i == v.len() {
        String::from_str("index.html")
    } else {
        let rest = slice_of(&v, i, v.len());
        crate::text::string_from(rest.as_slice())
    }
}

} // verus!
