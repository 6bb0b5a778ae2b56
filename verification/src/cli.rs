//! The CLI contract: `diffuse <args>` mirrors `git <args>`.
//!
//! The governing principle is paste-compatibility — any git command must work
//! when you replace `git` with `diffuse`. Flags that cannot apply are dropped
//! and reported on stderr; flags git might add in future are passed through so
//! that only this small ignore-list needs maintenance.

use vstd::prelude::*;

use crate::text::{chars_of, index_of_exec, index_of_from, same, slice_of};

verus! {

/// The git subcommands diffuse accepts: the allowlist that keeps it
/// read-only.
#[derive(Debug, Clone, Copy, PartialEq, Eq, Structural)]
pub enum Subcommand {
    Diff,
    Show,
}

/// The name git knows a subcommand by.
pub open spec fn subcommand_name(s: Subcommand) -> Seq<char> {
    match s {
        Subcommand::Diff => "diff"@,
        Subcommand::Show => "show"@,
    }
}

impl Subcommand {
    /// The subcommand as git spells it.
    pub fn as_str(self) -> (s: &'static str)
        ensures
            s@ == subcommand_name(self),
    {
        match self {
            Subcommand::Diff => "diff",
            Subcommand::Show => "show",
        }
    }
}

/// What `diffuse <args>` asks git and diffuse to do.
#[derive(Debug, Clone)]
pub struct Invocation {
    pub subcommand: Subcommand,
    /// Arguments forwarded to git verbatim, ignore-list already removed.
    pub args: Vec<String>,
    /// Flags we dropped, reported to the user on stderr.
    pub ignored: Vec<String>,
    /// Whether to synthesize diffs for untracked files (`--no-untracked` opts out).
    pub want_untracked: bool,
    /// Whether to launch a browser. Off for scripts and for driving diffuse
    /// from another tool, which then reads the URL from stderr.
    pub open_browser: bool,
    /// Send the whole diff up front however large it is, so find-in-page can
    /// reach every file. Past the built-in ceiling diffuse otherwise falls
    /// back to loading files as you reach them.
    pub inline_all: bool,
}

/// An invocation with its strings as character sequences.
pub struct InvocationView {
    pub subcommand: Subcommand,
    pub args: Seq<Seq<char>>,
    pub ignored: Seq<Seq<char>>,
    pub want_untracked: bool,
    pub open_browser: bool,
    pub inline_all: bool,
}

/// The characters of each string.
pub open spec fn strings_view(v: Seq<String>) -> Seq<Seq<char>> {
    v.map_values(|s: String| s@)
}

impl View for Invocation {
    type V = InvocationView;

    open spec fn view(&self) -> InvocationView {
        InvocationView {
            subcommand: self.subcommand,
            args: strings_view(self.args@),
            ignored: strings_view(self.ignored@),
            want_untracked: self.want_untracked,
            open_browser: self.open_browser,
            inline_all: self.inline_all,
        }
    }
}

/// `git ` and the subcommand, then each argument after a space.
pub open spec fn command_line(sub: Subcommand, args: Seq<Seq<char>>) -> Seq<char>
    decreases args.len(),
{
    if args.len() == 0 {
        "git "@ + subcommand_name(sub)
    } else {
        command_line(sub, args.drop_last()) + " "@ + args.last()
    }
}

impl Invocation {
    /// The command line as the user would have typed it against git, for display.
    pub fn display_command(&self) -> (s: String)
        ensures
            s@ == command_line(self.subcommand, strings_view(self.args@)),
    {
        let mut s = String::new();
        s.append("git ");
        s.append(self.subcommand.as_str());
        assert(s@ =~= "git "@ + subcommand_name(self.subcommand));
        let mut i: usize = 0;
        while i < self.args.len()
            invariant
                i <= self.args.len(),
                s@ == command_line(self.subcommand, strings_view(self.args@).take(i as int)),
            decreases self.args.len() - i,
        {
            proof {
                let a = strings_view(self.args@).take(i + 1);
                assert(a.drop_last() =~= strings_view(self.args@).take(i as int));
            }
            s.append(" ");
            s.append(self.args[i].as_str());
            i += 1;
        }
        assert(strings_view(self.args@).take(self.args.len() as int) =~= strings_view(self.args@));
        s
    }
}

/// What the command line asks for: a run, the usage text, or the version.
#[derive(Debug)]
pub enum Parsed {
    Run(Invocation),
    Help,
    Version,
}

/// What the command line asks for, over character sequences.
pub enum ParsedView {
    Run(InvocationView),
    Help,
    Version,
}

impl View for Parsed {
    type V = ParsedView;

    open spec fn view(&self) -> ParsedView {
        match self {
            Parsed::Run(i) => ParsedView::Run(i@),
            Parsed::Help => ParsedView::Help,
            Parsed::Version => ParsedView::Version,
        }
    }
}

/// Flags that produce no patch, or a patch the renderer cannot consume.
/// `true` means the flag takes a value in a following argument when not
/// attached with `=`, which must be dropped alongside it.
pub open spec fn ignored_table() -> Seq<(Seq<char>, bool)> {
    seq![
        // Suppress or replace the patch entirely
        ("-s"@, false),
        ("--no-patch"@, false),
        ("--raw"@, false),
        ("--name-only"@, false),
        ("--name-status"@, false),
        ("--check"@, false),
        ("--quiet"@, false),
        ("--exit-code"@, false),
        // Summary formats rendered by the sidebar instead
        ("--stat"@, false),
        ("--compact-summary"@, false),
        ("--numstat"@, false),
        ("--shortstat"@, false),
        ("--summary"@, false),
        ("--dirstat"@, false),
        ("--dirstat-by-file"@, false),
        ("--cumulative"@, false),
        ("--patch-with-raw"@, false),
        ("--patch-with-stat"@, false),
        // Inline word diffing — diffuse computes its own, in the renderer
        ("--word-diff"@, false),
        ("--word-diff-regex"@, true),
        ("--color-words"@, false),
        // Colour and machine-readable framing would corrupt the parse
        ("--color"@, false),
        ("-z"@, false),
        ("--output"@, true),
        ("--output-indicator-new"@, true),
        ("--output-indicator-old"@, true),
        ("--output-indicator-context"@, true),
        // Would re-enable an external diff driver, which emits arbitrary output
        ("--ext-diff"@, false),
    ]
}

/// Flags that are redundant because diffuse already guarantees the
/// behaviour. Dropped silently — warning about them would be noise, since
/// the result is exactly what the user asked for.
pub open spec fn silent_table() -> Seq<Seq<char>> {
    seq!["--no-color"@, "-p"@, "-u"@, "--patch"@]
}

/// The first entry of `table` from index `k` on whose flag is `name`.
pub open spec fn table_find(table: Seq<(Seq<char>, bool)>, name: Seq<char>, k: int) -> Option<(Seq<char>, bool)>
    decreases table.len() - k,
{
    if k < 0 || k >= table.len() {
        None
    } else if table[k].0 == name {
        Some(table[k])
    } else {
        table_find(table, name, k + 1)
    }
}

/// The ignore-list entry for a flag: `--stat=80` and `--stat` are the same
/// flag for this purpose.
pub open spec fn lookup(flag: Seq<char>) -> Option<(Seq<char>, bool)> {
    table_find(ignored_table(), flag.take(index_of_from(flag, '=', 0)), 0)
}

/// Whether a flag is dropped without a word.
pub open spec fn is_silent(flag: Seq<char>) -> bool {
    silent_table().contains(flag)
}

/// What reading the arguments has gathered so far.
pub struct ArgState {
    pub args: Seq<Seq<char>>,
    pub ignored: Seq<Seq<char>>,
    pub want_untracked: bool,
    pub open_browser: bool,
    pub inline_all: bool,
    pub past_separator: bool,
    pub skip_next: bool,
}

/// Nothing read yet: untracked files wanted, a browser opened.
pub open spec fn initial_args() -> ArgState {
    ArgState {
        args: Seq::empty(),
        ignored: Seq::empty(),
        want_untracked: true,
        open_browser: true,
        inline_all: false,
        past_separator: false,
        skip_next: false,
    }
}

/// One argument. Everything after `--` is a pathspec and is never
/// interpreted; diffuse's own flags are taken out; flags on the ignore-list
/// are dropped (with the value that follows a value-taking one written
/// without `=`), silent ones without a trace; everything else goes to git.
pub open spec fn arg_step(st: ArgState, arg: Seq<char>) -> ArgState {
    if st.skip_next {
        ArgState { skip_next: false, ..st }
    } else if st.past_separator {
        ArgState { args: st.args.push(arg), ..st }
    } else if arg == "--"@ {
        ArgState { past_separator: true, args: st.args.push(arg), ..st }
    } else if arg == "--no-untracked"@ {
        ArgState { want_untracked: false, ..st }
    } else if arg == "--no-open"@ {
        ArgState { open_browser: false, ..st }
    } else if arg == "--inline-all"@ {
        ArgState { inline_all: true, ..st }
    } else if arg.len() > 0 && arg[0] == '-' && is_silent(arg) {
        st
    } else if arg.len() > 0 && arg[0] == '-' && lookup(arg) is Some {
        ArgState {
            ignored: st.ignored.push(arg),
            skip_next: (lookup(arg)->0).1 && !arg.contains('='),
            ..st
        }
    } else {
        ArgState { args: st.args.push(arg), ..st }
    }
}

/// The arguments read one by one.
pub open spec fn read_args(args: Seq<Seq<char>>) -> ArgState
    decreases args.len(),
{
    if args.len() == 0 {
        initial_args()
    } else {
        arg_step(read_args(args.drop_last()), args.last())
    }
}

/// Whether an argument asks for the usage text.
pub open spec fn is_help(a: Seq<char>) -> bool {
    a == "-h"@ || a == "--help"@
}

/// Whether an argument asks for the version.
pub open spec fn is_version(a: Seq<char>) -> bool {
    a == "-V"@ || a == "--version"@
}

/// Whether no `--` comes before index `i`: the arguments before the first
/// `--` are the ones diffuse reads as options; everything after it reaches
/// git untouched.
pub open spec fn before_separator(argv: Seq<Seq<char>>, i: int) -> bool {
    forall|j: int| 0 <= j < i ==> argv[j] != "--"@
}

/// Whether an option before the first `--` asks for the usage text.
pub open spec fn asks_help(argv: Seq<Seq<char>>) -> bool {
    exists|i: int| 0 <= i < argv.len() && is_help(#[trigger] argv[i]) && before_separator(argv, i)
}

/// Whether an option before the first `--` asks for the version.
pub open spec fn asks_version(argv: Seq<Seq<char>>) -> bool {
    exists|i: int|
        0 <= i < argv.len() && is_version(#[trigger] argv[i]) && before_separator(argv, i)
}

/// What `diffuse <argv>` asks for: help or the version when an argument
/// before the first `--` asks for them; otherwise `diffuse diff ...` / `diffuse show ...`, or the
/// bare form `diffuse <rev>`, which is shorthand for `diffuse diff <rev>`.
pub open spec fn parse_spec(argv: Seq<Seq<char>>) -> ParsedView {
    if asks_help(argv) {
        ParsedView::Help
    } else if asks_version(argv) {
        ParsedView::Version
    } else {
        let (sub, rest) = if argv.len() > 0 && argv[0] == "diff"@ {
            (Subcommand::Diff, argv.drop_first())
        } else if argv.len() > 0 && argv[0] == "show"@ {
            (Subcommand::Show, argv.drop_first())
        } else {
            (Subcommand::Diff, argv)
        };
        let st = read_args(rest);
        ParsedView::Run(
            InvocationView {
                subcommand: sub,
                args: st.args,
                ignored: st.ignored,
                want_untracked: st.want_untracked,
                open_browser: st.open_browser,
                inline_all: st.inline_all,
            },
        )
    }
}

/// A flag table with its flags as character sequences.
pub open spec fn table_view(t: Seq<(Vec<char>, bool)>) -> Seq<(Seq<char>, bool)> {
    t.map_values(|e: (Vec<char>, bool)| (e.0@, e.1))
}

fn ignored_entries() -> (t: Vec<(Vec<char>, bool)>)
    ensures
        table_view(t@) == ignored_table(),
{
    let mut t: Vec<(Vec<char>, bool)> = Vec::new();
    t.push((chars_of("-s"), false));
    t.push((chars_of("--no-patch"), false));
    t.push((chars_of("--raw"), false));
    t.push((chars_of("--name-only"), false));
    t.push((chars_of("--name-status"), false));
    t.push((chars_of("--check"), false));
    t.push((chars_of("--quiet"), false));
    t.push((chars_of("--exit-code"), false));
    t.push((chars_of("--stat"), false));
    t.push((chars_of("--compact-summary"), false));
    t.push((chars_of("--numstat"), false));
    t.push((chars_of("--shortstat"), false));
    t.push((chars_of("--summary"), false));
    t.push((chars_of("--dirstat"), false));
    t.push((chars_of("--dirstat-by-file"), false));
    t.push((chars_of("--cumulative"), false));
    t.push((chars_of("--patch-with-raw"), false));
    t.push((chars_of("--patch-with-stat"), false));
    t.push((chars_of("--word-diff"), false));
    t.push((chars_of("--word-diff-regex"), true));
    t.push((chars_of("--color-words"), false));
    t.push((chars_of("--color"), false));
    t.push((chars_of("-z"), false));
    t.push((chars_of("--output"), true));
    t.push((chars_of("--output-indicator-new"), true));
    t.push((chars_of("--output-indicator-old"), true));
    t.push((chars_of("--output-indicator-context"), true));
    t.push((chars_of("--ext-diff"), false));
    assert(table_view(t@) =~= ignored_table());
    t
}

fn silent_entries() -> (t: Vec<Vec<char>>)
    ensures
        crate::text::vecs_view(t@) == silent_table(),
{
    let mut t: Vec<Vec<char>> = Vec::new();
    t.push(chars_of("--no-color"));
    t.push(chars_of("-p"));
    t.push(chars_of("-u"));
    t.push(chars_of("--patch"));
    assert(crate::text::vecs_view(t@) =~= silent_table());
    t
}

fn lookup_exec(table: &Vec<(Vec<char>, bool)>, flag: &Vec<char>) -> (r: Option<bool>)
    requires
        table_view(table@) == ignored_table(),
    ensures
        match r {
            Some(b) => lookup(flag@) is Some && (lookup(flag@)->0).1 == b,
            None => lookup(flag@) is None,
        },
{
    let e = index_of_exec(flag, '=', 0);
    let name = slice_of(flag, 0, e);
    let mut k: usize = 0;
    while k < table.len()
        invariant
            k <= table.len(),
            table_view(table@) == ignored_table(),
            name@ == flag@.take(index_of_from(flag@, '=', 0)),
            table_find(ignored_table(), name@, 0) == table_find(ignored_table(), name@, k as int),
        decreases table.len() - k,
    {
        assert(ignored_table()[k as int] == (table@[k as int].0@, table@[k as int].1));
        if same(&table[k].0, &name) {
            return Some(table[k].1);
        }
        k += 1;
    }
    None
}

fn contains_chars(list: &Vec<Vec<char>>, x: &Vec<char>) -> (b: bool)
    ensures
        b == crate::text::vecs_view(list@).contains(x@),
{
    let mut k: usize = 0;
    while k < list.len()
        invariant
            k <= list.len(),
            forall|t: int| 0 <= t < k ==> list@[t]@ != x@,
        decreases list.len() - k,
    {
        if same(&list[k], x) {
            assert(crate::text::vecs_view(list@)[k as int] == x@);
            return true;
        }
        k += 1;
    }
    proof {
        if crate::text::vecs_view(list@).contains(x@) {
            let t = choose|t: int|
                0 <= t < list@.len() && crate::text::vecs_view(list@)[t] == x@;
            assert(list@[t]@ == x@);
        }
    }
    false
}

pub(crate) fn has_char(s: &Vec<char>, c: char) -> (b: bool)
    ensures
        b == s@.contains(c),
{
    let e = index_of_exec(s, c, 0);
    proof {
        crate::text::lemma_index_of_from(s@, c, 0);
    }
    e < s.len()
}

/// Reads `diffuse`'s arguments the way git would read them after `git`.
pub fn parse(argv: Vec<String>) -> (p: Parsed)
    ensures
        p@ == parse_spec(strings_view(argv@)),
{
    let ghost av = strings_view(argv@);
    let mut cs: Vec<Vec<char>> = Vec::new();
    let mut k: usize = 0;
    while k < argv.len()
        invariant
            k <= argv.len(),
            av == strings_view(argv@),
            crate::text::vecs_view(cs@) == av.take(k as int),
        decreases argv.len() - k,
    {
        let c = chars_of(argv[k].as_str());
        let ghost before = cs@;
        cs.push(c);
        k += 1;
        assert(crate::text::vecs_view(cs@) =~= crate::text::vecs_view(before).push(c@));
        assert(av[k - 1] == argv@[k - 1]@);
        assert(crate::text::vecs_view(cs@) =~= av.take(k as int));
    }
    assert(av.take(argv.len() as int) =~= av);
    let h = chars_of("-h");
    let help = chars_of("--help");
    let v = chars_of("-V");
    let version = chars_of("--version");
    let sep = chars_of("--");
    let mut wants_help = false;
    let mut wants_version = false;
    let mut k: usize = 0;
    while k < cs.len() && !same(&cs[k], &sep)
        invariant
            k <= cs.len(),
            crate::text::vecs_view(cs@) == av,
            h@ == "-h"@,
            help@ == "--help"@,
            v@ == "-V"@,
            version@ == "--version"@,
            sep@ == "--"@,
            before_separator(av, k as int),
            wants_help == exists|i: int| 0 <= i < k && is_help(#[trigger] av[i]),
            wants_version == exists|i: int| 0 <= i < k && is_version(#[trigger] av[i]),
        decreases cs.len() - k,
    {
        assert(av[k as int] == cs@[k as int]@);
        if same(&cs[k], &h) || same(&cs[k], &help) {
            wants_help = true;
        }
        if same(&cs[k], &v) || same(&cs[k], &version) {
            wants_version = true;
        }
        k += 1;
        proof {
            if !wants_help {
                assert forall|i: int| 0 <= i < k implies !is_help(#[trigger] av[i]) by {
                    if i < k - 1 {
                        assert(!is_help(av[i]));
                    }
                }
            }
            if !wants_version {
                assert forall|i: int| 0 <= i < k implies !is_version(#[trigger] av[i]) by {
                    if i < k - 1 {
                        assert(!is_version(av[i]));
                    }
                }
            }
        }
    }
    proof {
        reveal_strlit("--");
        reveal_strlit("-h");
        reveal_strlit("--help");
        reveal_strlit("-V");
        reveal_strlit("--version");
        if k < cs.len() {
            assert(av[k as int] == "--"@);
        }
        if wants_help {
            let i = choose|i: int| 0 <= i < k && is_help(#[trigger] av[i]);
            assert(before_separator(av, i));
        } else {
            assert forall|i: int| 0 <= i < av.len() && #[trigger] is_help(av[i]) implies !before_separator(av, i) by {
                assert(i >= k);
                assert(k < av.len());
                assert(av[k as int] == "--"@);
                if i == k {
                    assert(av[i][1] == '-');
                    assert("-h"@[1] != '-');
                    assert("--help"@.len() != 2);
                } else {
                    assert(0 <= k < i && !(av[k as int] != "--"@));
                }
            }
        }
        if wants_version {
            let i = choose|i: int| 0 <= i < k && is_version(#[trigger] av[i]);
            assert(before_separator(av, i));
        } else {
            assert forall|i: int| 0 <= i < av.len() && #[trigger] is_version(av[i]) implies !before_separator(av, i) by {
                assert(i >= k);
                assert(k < av.len());
                assert(av[k as int] == "--"@);
                if i == k {
                    assert(av[i][1] == '-');
                    assert("-V"@[1] != '-');
                    assert("--version"@.len() != 2);
                } else {
                    assert(0 <= k < i && !(av[k as int] != "--"@));
                }
            }
        }
    }
    if wants_help {
        return Parsed::Help;
    }
    if wants_version {
        return Parsed::Version;
    }
    let diff = chars_of("diff");
    let show = chars_of("show");
    let (subcommand, start): (Subcommand, usize) = if cs.len() > 0 && same(&cs[0], &diff) {
        (Subcommand::Diff, 1)
    } else if cs.len() > 0 && same(&cs[0], &show) {
        (Subcommand::Show, 1)
    } else {
        (Subcommand::Diff, 0)
    };
    proof {
        if cs.len() > 0 {
            assert(av[0] == cs@[0]@);
        }
    }
    let ghost rest = av.skip(start as int);
    let table = ignored_entries();
    let silent = silent_entries();
    let sep = chars_of("--");
    let no_untracked = chars_of("--no-untracked");
    let no_open = chars_of("--no-open");
    let inline = chars_of("--inline-all");
    let mut args: Vec<String> = Vec::new();
    let mut ignored: Vec<String> = Vec::new();
    let mut want_untracked = true;
    let mut open_browser = true;
    let mut inline_all = false;
    let mut past_separator = false;
    let mut skip_next = false;
    let mut i = start;
    assert(strings_view(args@) =~= Seq::<Seq<char>>::empty());
    assert(strings_view(ignored@) =~= Seq::<Seq<char>>::empty());
    assert(rest.take(0) =~= Seq::<Seq<char>>::empty());
    while i < cs.len()
        invariant
            start <= i <= cs.len(),
            cs.len() == argv.len(),
            crate::text::vecs_view(cs@) == av,
            av == strings_view(argv@),
            rest == av.skip(start as int),
            table_view(table@) == ignored_table(),
            crate::text::vecs_view(silent@) == silent_table(),
            sep@ == "--"@,
            no_untracked@ == "--no-untracked"@,
            no_open@ == "--no-open"@,
            inline@ == "--inline-all"@,
            read_args(rest.take(i - start)) == (ArgState {
                args: strings_view(args@),
                ignored: strings_view(ignored@),
                want_untracked,
                open_browser,
                inline_all,
                past_separator,
                skip_next,
            }),
        decreases cs.len() - i,
    {
        let a = &cs[i];
        proof {
            assert(rest.take(i + 1 - start).drop_last() =~= rest.take(i - start));
            assert(rest.take(i + 1 - start).last() == a@);
        }
        let ghost before_args = args@;
        let ghost before_ignored = ignored@;
        if skip_next {
            skip_next = false;
        } else if past_separator {
            args.push(argv[i].clone());
            assert(strings_view(args@) =~= strings_view(before_args).push(a@));
        } else if same(a, &sep) {
            past_separator = true;
            args.push(argv[i].clone());
            assert(strings_view(args@) =~= strings_view(before_args).push(a@));
        } else if same(a, &no_untracked) {
            want_untracked = false;
        } else if same(a, &no_open) {
            open_browser = false;
        } else if same(a, &inline) {
            inline_all = true;
        } else if a.len() > 0 && a[0] == '-' && contains_chars(&silent, a) {
        } else if a.len() > 0 && a[0] == '-' && lookup_exec(&table, a).is_some() {
            let takes_value = lookup_exec(&table, a).unwrap();
            ignored.push(argv[i].clone());
            assert(strings_view(ignored@) =~= strings_view(before_ignored).push(a@));
            // `--output file` must lose its value too, or the value would be
            // reinterpreted as a revision.
            skip_next = takes_value && !has_char(a, '=');
        } else {
            args.push(argv[i].clone());
            assert(strings_view(args@) =~= strings_view(before_args).push(a@));
        }
        i += 1;
    }
    assert(rest.take(i - start) =~= rest);
    Parsed::Run(
        Invocation { subcommand, args, ignored, want_untracked, open_browser, inline_all },
    )
}

/// An argument diffuse takes for itself or drops when it meets it before a
/// `--`: one of its own flags, a silently redundant flag, or a flag on the
/// ignore-list.
pub open spec fn claimed(a: Seq<char>) -> bool {
    ||| a == "--no-untracked"@
    ||| a == "--no-open"@
    ||| a == "--inline-all"@
    ||| (a.len() > 0 && a[0] == '-' && (is_silent(a) || lookup(a) is Some))
}

proof fn lemma_table_find_none(t: Seq<(Seq<char>, bool)>, name: Seq<char>, k: int)
    requires
        0 <= k,
        forall|j: int| k <= j < t.len() ==> t[j].0 != name,
    ensures
        table_find(t, name, k) is None,
    decreases t.len() - k,
{
    if k < t.len() {
        lemma_table_find_none(t, name, k + 1);
    }
}

proof fn lemma_separator_not_claimed()
    ensures
        !claimed("--"@),
{
    reveal_strlit("-s");
    reveal_strlit("--no-patch");
    reveal_strlit("--raw");
    reveal_strlit("--name-only");
    reveal_strlit("--name-status");
    reveal_strlit("--check");
    reveal_strlit("--quiet");
    reveal_strlit("--exit-code");
    reveal_strlit("--stat");
    reveal_strlit("--compact-summary");
    reveal_strlit("--numstat");
    reveal_strlit("--shortstat");
    reveal_strlit("--summary");
    reveal_strlit("--dirstat");
    reveal_strlit("--dirstat-by-file");
    reveal_strlit("--cumulative");
    reveal_strlit("--patch-with-raw");
    reveal_strlit("--patch-with-stat");
    reveal_strlit("--word-diff");
    reveal_strlit("--word-diff-regex");
    reveal_strlit("--color-words");
    reveal_strlit("--color");
    reveal_strlit("-z");
    reveal_strlit("--output");
    reveal_strlit("--output-indicator-new");
    reveal_strlit("--output-indicator-old");
    reveal_strlit("--output-indicator-context");
    reveal_strlit("--ext-diff");
    reveal_strlit("--no-color");
    reveal_strlit("-p");
    reveal_strlit("-u");
    reveal_strlit("--patch");
    reveal_strlit("--no-untracked");
    reveal_strlit("--no-open");
    reveal_strlit("--inline-all");
    reveal_strlit("--");
    let d = "--"@;
    assert(d.len() == 2);
    assert(d.take(index_of_from(d, '=', 0)) =~= d) by {
        assert(index_of_from(d, '=', 2) == 2);
        assert(index_of_from(d, '=', 1) == 2);
    }
    let t = ignored_table();
    assert forall|k: int| 0 <= k < t.len() implies t[k].0 != d by {
        assert(t[k].0.len() != 2 || t[k].0[1] != '-');
    }
    lemma_table_find_none(t, d, 0);
    let st = silent_table();
    assert(!st.contains(d)) by {
        if st.contains(d) {
            let i = choose|i: int| 0 <= i < st.len() && st[i] == d;
            assert(st[i].len() != 2 || st[i][1] != '-');
        }
    }
}

spec fn separated(args: Seq<Seq<char>>) -> bool {
    forall|k: int|
        0 <= k < args.len() && claimed(#[trigger] args[k]) ==> exists|j: int|
            0 <= j < k && args[j] == "--"@
}

proof fn lemma_read_args_separated(args: Seq<Seq<char>>)
    ensures
        separated(read_args(args).args),
        read_args(args).past_separator ==> exists|j: int|
            0 <= j < read_args(args).args.len() && read_args(args).args[j] == "--"@,
    decreases args.len(),
{
    if args.len() > 0 {
        lemma_read_args_separated(args.drop_last());
        lemma_separator_not_claimed();
        let st = read_args(args.drop_last());
        let st2 = read_args(args);
        if st2.args.len() > st.args.len() {
            assert(st2.args.drop_last() == st.args);
            assert forall|k: int|
                0 <= k < st2.args.len() && claimed(#[trigger] st2.args[k]) implies exists|j: int|
                0 <= j < k && st2.args[j] == "--"@ by {
                if k < st.args.len() {
                    assert(st2.args[k] == st.args[k]);
                    let j = choose|j: int| 0 <= j < k && st.args[j] == "--"@;
                    assert(st2.args[j] == st.args[j]);
                } else if st.past_separator {
                    let j = choose|j: int| 0 <= j < st.args.len() && st.args[j] == "--"@;
                    assert(st2.args[j] == st.args[j]);
                }
            }
            if st2.past_separator {
                if st.past_separator {
                    let j = choose|j: int| 0 <= j < st.args.len() && st.args[j] == "--"@;
                    assert(st2.args[j] == st.args[j]);
                } else {
                    assert(st2.args[st.args.len() as int] == "--"@);
                }
            }
        }
    }
}

/// Diffuse's own flags, and flags it drops, reach git only as pathspecs:
/// any such word among the arguments passed to git comes after a `--`.
pub proof fn law_claimed_words_reach_git_only_after_separator(argv: Seq<Seq<char>>)
    ensures
        parse_spec(argv) matches ParsedView::Run(inv) ==> forall|k: int|
            0 <= k < inv.args.len() && claimed(#[trigger] inv.args[k]) ==> exists|j: int|
                0 <= j < k && inv.args[j] == "--"@,
{
    if !asks_help(argv) && !asks_version(argv) {
        lemma_read_args_separated(argv);
        lemma_read_args_separated(argv.drop_first());
    }
}

proof fn lemma_unclaimed_read(args: Seq<Seq<char>>)
    requires
        forall|i: int| 0 <= i < args.len() ==> !claimed(#[trigger] args[i]),
    ensures
        read_args(args).args == args,
        read_args(args).ignored.len() == 0,
        !read_args(args).skip_next,
    decreases args.len(),
{
    if args.len() > 0 {
        assert forall|i: int| 0 <= i < args.drop_last().len() implies !claimed(
            #[trigger] args.drop_last()[i],
        ) by {
            assert(args.drop_last()[i] == args[i]);
        }
        lemma_unclaimed_read(args.drop_last());
        assert(!claimed(args[args.len() - 1]));
        assert(args.drop_last().push(args.last()) =~= args);
    }
}

/// Paste-compatibility: a command none of whose words diffuse claims or
/// answers itself (help, version) reaches git exactly as typed after its
/// subcommand, with nothing reported as dropped. Flags git may add in the
/// future pass through the same way.
pub proof fn law_unclaimed_arguments_pass_through(argv: Seq<Seq<char>>)
    requires
        forall|i: int|
            0 <= i < argv.len() ==> !claimed(#[trigger] argv[i]) && !is_help(argv[i]) && !is_version(
                argv[i],
            ),
    ensures
        parse_spec(argv) matches ParsedView::Run(inv) && inv.args == (if argv.len() > 0 && (argv[0]
            == "diff"@ || argv[0] == "show"@) {
            argv.drop_first()
        } else {
            argv
        }) && inv.ignored.len() == 0,
{
    assert(!asks_help(argv));
    assert(!asks_version(argv));
    if argv.len() > 0 && (argv[0] == "diff"@ || argv[0] == "show"@) {
        assert forall|i: int| 0 <= i < argv.drop_first().len() implies !claimed(
            #[trigger] argv.drop_first()[i],
        ) by {
            assert(argv.drop_first()[i] == argv[i + 1]);
        }
        lemma_unclaimed_read(argv.drop_first());
    } else {
        lemma_unclaimed_read(argv);
    }
}

/// Whether an argument read as an option is a value-taking flag of the
/// ignore-list written without `=`, so that the argument after it is its
/// value.
pub open spec fn takes_value(a: Seq<char>) -> bool {
    &&& a != "--"@ && a != "--no-untracked"@ && a != "--no-open"@ && a != "--inline-all"@
    &&& a.len() > 0 && a[0] == '-' && !is_silent(a)
    &&& lookup(a) matches Some(e) && e.1 && !a.contains('=')
}

proof fn lemma_read_before_separator(args: Seq<Seq<char>>)
    requires
        forall|i: int| 0 <= i < args.len() ==> (#[trigger] args[i]) != "--"@,
        args.len() == 0 || !takes_value(args.last()),
    ensures
        !read_args(args).past_separator,
        !read_args(args).skip_next,
    decreases args.len(),
{
    if args.len() > 0 {
        let pre = args.drop_last();
        assert forall|i: int| 0 <= i < pre.len() implies (#[trigger] pre[i]) != "--"@ by {
            assert(pre[i] == args[i]);
        }
        lemma_read_past(pre);
        assert(args[args.len() - 1] != "--"@);
    }
}

/// Without a `--`, reading never passes a separator.
proof fn lemma_read_past(args: Seq<Seq<char>>)
    requires
        forall|i: int| 0 <= i < args.len() ==> (#[trigger] args[i]) != "--"@,
    ensures
        !read_args(args).past_separator,
    decreases args.len(),
{
    if args.len() > 0 {
        let pre = args.drop_last();
        assert forall|i: int| 0 <= i < pre.len() implies (#[trigger] pre[i]) != "--"@ by {
            assert(pre[i] == args[i]);
        }
        lemma_read_past(pre);
        assert(args[args.len() - 1] != "--"@);
    }
}

/// Past a `--`, every argument goes to git as it is and nothing else
/// changes.
proof fn lemma_read_after_separator(a: Seq<Seq<char>>, s: Seq<Seq<char>>)
    requires
        read_args(a).past_separator,
        !read_args(a).skip_next,
    ensures
        read_args(a + s) == (ArgState { args: read_args(a).args + s, ..read_args(a) }),
    decreases s.len(),
{
    if s.len() == 0 {
        assert(a + s =~= a);
        assert(read_args(a).args + s =~= read_args(a).args);
    } else {
        lemma_read_after_separator(a, s.drop_last());
        assert((a + s).drop_last() =~= a + s.drop_last());
        assert((a + s).last() == s.last());
        let st = read_args(a + s.drop_last());
        assert(st.past_separator && !st.skip_next);
        assert(read_args(a + s) == arg_step(st, s.last()));
        assert((read_args(a).args + s.drop_last()).push(s.last()) =~= read_args(a).args + s);
    }
}

/// Nothing after `--` is interpreted: where the arguments before the first
/// `--` ask for neither help nor the version and do not end with a flag
/// that takes the `--` as its value, the command parses as those arguments
/// alone, with `--` and everything after it appended, as typed, to what
/// reaches git.
pub proof fn law_separator_ends_interpretation(p: Seq<Seq<char>>, s: Seq<Seq<char>>)
    requires
        forall|i: int|
            0 <= i < p.len() ==> (#[trigger] p[i]) != "--"@ && !is_help(p[i]) && !is_version(p[i]),
        p.len() == 0 || !takes_value(p.last()),
    ensures
        ({
            let argv = p + seq!["--"@] + s;
            &&& parse_spec(argv) matches ParsedView::Run(i)
            &&& parse_spec(p) matches ParsedView::Run(j)
            &&& i.args == j.args + seq!["--"@] + s
            &&& i.subcommand == j.subcommand
            &&& i.ignored == j.ignored
            &&& i.want_untracked == j.want_untracked
            &&& i.open_browser == j.open_browser
            &&& i.inline_all == j.inline_all
        }),
{
    let argv = p + seq!["--"@] + s;
    reveal_strlit("--");
    reveal_strlit("-h");
    reveal_strlit("--help");
    reveal_strlit("-V");
    reveal_strlit("--version");
    reveal_strlit("diff");
    reveal_strlit("show");
    assert(argv[p.len() as int] == "--"@);
    assert(("--"@)[1] == '-' && ("-h"@)[1] == 'h' && ("-V"@)[1] == 'V');
    assert(!is_help("--"@) && !is_version("--"@));
    assert("--"@ != "diff"@ && "--"@ != "show"@);
    assert(!asks_help(argv)) by {
        if exists|i: int| 0 <= i < argv.len() && is_help(#[trigger] argv[i]) && before_separator(argv, i) {
            let i = choose|i: int| 0 <= i < argv.len() && is_help(#[trigger] argv[i]) && before_separator(argv, i);
            if i < p.len() {
                assert(argv[i] == p[i]);
            } else if i > p.len() {
                assert(argv[p.len() as int] != "--"@);
            }
        }
    }
    assert(!asks_version(argv)) by {
        if exists|i: int| 0 <= i < argv.len() && is_version(#[trigger] argv[i]) && before_separator(argv, i) {
            let i = choose|i: int| 0 <= i < argv.len() && is_version(#[trigger] argv[i]) && before_separator(argv, i);
            if i < p.len() {
                assert(argv[i] == p[i]);
            } else if i > p.len() {
                assert(argv[p.len() as int] != "--"@);
            }
        }
    }
    assert(!asks_help(p));
    assert(!asks_version(p));
    let rest_p = if p.len() > 0 && (p[0] == "diff"@ || p[0] == "show"@) {
        p.drop_first()
    } else {
        p
    };
    if p.len() > 0 {
        assert(argv[0] == p[0]);
    }
    let rest = if argv.len() > 0 && (argv[0] == "diff"@ || argv[0] == "show"@) {
        argv.drop_first()
    } else {
        argv
    };
    if p.len() > 0 && (p[0] == "diff"@ || p[0] == "show"@) {
        assert(argv.drop_first() =~= p.drop_first() + seq!["--"@] + s);
    } else if p.len() == 0 {
        assert(argv =~= seq!["--"@] + s);
        assert(rest_p =~= Seq::<Seq<char>>::empty());
        assert(rest_p + seq!["--"@] + s =~= seq!["--"@] + s);
    }
    assert(rest == rest_p + seq!["--"@] + s);
    assert forall|i: int| 0 <= i < rest_p.len() implies (#[trigger] rest_p[i]) != "--"@ by {
        if rest_p == p.drop_first() {
            assert(rest_p[i] == p[i + 1]);
        }
    }
    if rest_p.len() > 0 {
        assert(rest_p.last() == p.last());
    }
    lemma_read_before_separator(rest_p);
    let a = rest_p + seq!["--"@];
    assert(a.drop_last() =~= rest_p);
    assert(a.last() == "--"@);
    assert(rest =~= a + s);
    lemma_read_after_separator(a, s);
}

/// The facts about the ignore-list's flags that reading arguments relies on:
/// each is a dash flag without `=` that is none of diffuse's own words.
proof fn lemma_ignored_flag(t: int)
    requires
        0 <= t < ignored_table().len(),
    ensures
        ({
            let f = ignored_table()[t].0;
            &&& f.len() >= 2 && f[0] == '-' && !f.contains('=')
            &&& f != "--"@ && f != "--no-untracked"@ && f != "--no-open"@ && f != "--inline-all"@
            &&& !is_help(f) && !is_version(f) && !is_silent(f)
            &&& f != "diff"@ && f != "show"@
        }),
{
    reveal_strlit("-s");
    reveal_strlit("--no-patch");
    reveal_strlit("--raw");
    reveal_strlit("--name-only");
    reveal_strlit("--name-status");
    reveal_strlit("--check");
    reveal_strlit("--quiet");
    reveal_strlit("--exit-code");
    reveal_strlit("--stat");
    reveal_strlit("--compact-summary");
    reveal_strlit("--numstat");
    reveal_strlit("--shortstat");
    reveal_strlit("--summary");
    reveal_strlit("--dirstat");
    reveal_strlit("--dirstat-by-file");
    reveal_strlit("--cumulative");
    reveal_strlit("--patch-with-raw");
    reveal_strlit("--patch-with-stat");
    reveal_strlit("--word-diff");
    reveal_strlit("--word-diff-regex");
    reveal_strlit("--color-words");
    reveal_strlit("--color");
    reveal_strlit("-z");
    reveal_strlit("--output");
    reveal_strlit("--output-indicator-new");
    reveal_strlit("--output-indicator-old");
    reveal_strlit("--output-indicator-context");
    reveal_strlit("--ext-diff");
    reveal_strlit("--");
    reveal_strlit("--no-untracked");
    reveal_strlit("--no-open");
    reveal_strlit("--inline-all");
    reveal_strlit("-h");
    reveal_strlit("--help");
    reveal_strlit("-V");
    reveal_strlit("--version");
    reveal_strlit("--no-color");
    reveal_strlit("-p");
    reveal_strlit("-u");
    reveal_strlit("--patch");
    reveal_strlit("diff");
    reveal_strlit("show");
    let f = ignored_table()[t].0;
    assert(f.len() >= 2 && f[0] == '-' && f[1] != 'h' && f[1] != 'V' && f[1] != 'p' && f[1] != 'u');
    assert(!f.contains('='));
    assert(f.len() == 2 ==> f[1] != '-' && f[1] != 'h' && f[1] != 'V');
    assert(f.len() == 6 ==> f[2] != 'h');
    assert(f.len() == 9 ==> f[3] != 'o' && f[3] != 'e');
    assert(f.len() == 12 ==> f[2] != 'i');
    assert(f.len() != 14);
    let words = seq!["--"@, "--no-untracked"@, "--no-open"@, "--inline-all"@, "-h"@, "--help"@, "-V"@, "--version"@];
    assert forall|w: int| 0 <= w < 8 implies f != #[trigger] words[w] by {
        let x = words[w];
        if f == x {
            assert(f.len() == x.len());
            assert(f[1] == x[1]);
            if x.len() > 3 {
                assert(f[2] == x[2] && f[3] == x[3]);
            }
        }
    }
    assert(f != words[0] && f != words[1] && f != words[2] && f != words[3]);
    assert(f != words[4] && f != words[5] && f != words[6] && f != words[7]);
    assert(f != "--"@ && f != "--no-untracked"@ && f != "--no-open"@ && f != "--inline-all"@);
    assert(!is_help(f) && !is_version(f));
    assert(silent_table() =~= seq!["--no-color"@, "-p"@, "-u"@, "--patch"@]);
    assert(f.len() == 2 ==> f[1] != 'p' && f[1] != 'u');
    assert(f.len() == 10 ==> f[2] != 'n' || f[5] != 'c');
    assert(f.len() == 7 ==> f[2] != 'p');
    assert(!silent_table().contains(f)) by {
        if silent_table().contains(f) {
            let k = choose|k: int| 0 <= k < silent_table().len() && silent_table()[k] == f;
            let x = silent_table()[k];
            assert(f.len() == x.len());
            assert(f[1] == x[1]);
            if x.len() > 5 {
                assert(f[2] == x[2] && f[5] == x[5]);
            }
        }
    }
}

/// Facts about a word that holds `=`: none of diffuse's own words, help,
/// version or the silent flags, nor a subcommand, holds one.
proof fn lemma_word_with_eq(a: Seq<char>)
    requires
        a.contains('='),
    ensures
        a != "--"@ && a != "--no-untracked"@ && a != "--no-open"@ && a != "--inline-all"@,
        !is_help(a) && !is_version(a) && !is_silent(a),
        a != "diff"@ && a != "show"@,
{
    reveal_strlit("--");
    reveal_strlit("--no-untracked");
    reveal_strlit("--no-open");
    reveal_strlit("--inline-all");
    reveal_strlit("-h");
    reveal_strlit("--help");
    reveal_strlit("-V");
    reveal_strlit("--version");
    reveal_strlit("--no-color");
    reveal_strlit("-p");
    reveal_strlit("-u");
    reveal_strlit("--patch");
    reveal_strlit("diff");
    reveal_strlit("show");
    let k = choose|k: int| 0 <= k < a.len() && a[k] == '=';
    assert(silent_table() =~= seq!["--no-color"@, "-p"@, "-u"@, "--patch"@]);
    assert(!silent_table().contains(a)) by {
        if silent_table().contains(a) {
            let j = choose|j: int| 0 <= j < silent_table().len() && silent_table()[j] == a;
        }
    }
}

/// The first entry of the table from `k` with the flag of entry `t` exists
/// and has that flag.
proof fn lemma_table_find(table: Seq<(Seq<char>, bool)>, name: Seq<char>, k: int, t: int)
    requires
        0 <= k <= t < table.len(),
        table[t].0 == name,
    ensures
        table_find(table, name, k) matches Some(e) && e.0 == name && exists|u: int|
            k <= u <= t && table[u] == e,
    decreases t - k,
{
    if table[k].0 != name {
        lemma_table_find(table, name, k + 1, t);
    }
}

/// A flag of the ignore-list with a value attached by `=` is dropped from
/// what reaches git and reported, just as the flag alone is: after any
/// arguments before the first `--` that ask for neither help nor the
/// version and do not end with a flag awaiting its value, `f=v` and `f`
/// each add nothing to the arguments and are added, as written, to the
/// ignored flags.
pub proof fn law_ignored_flags_with_values(p: Seq<Seq<char>>, t: int, v: Seq<char>)
    requires
        forall|i: int|
            0 <= i < p.len() ==> (#[trigger] p[i]) != "--"@ && !is_help(p[i]) && !is_version(p[i]),
        p.len() == 0 || !takes_value(p.last()),
        0 <= t < ignored_table().len(),
    ensures
        ({
            let f = ignored_table()[t].0;
            let a = f + "="@ + v;
            &&& parse_spec(p) matches ParsedView::Run(j)
            &&& parse_spec(p.push(a)) matches ParsedView::Run(i)
            &&& parse_spec(p.push(f)) matches ParsedView::Run(k)
            &&& i.args == j.args && i.ignored == j.ignored.push(a)
            &&& k.args == j.args && k.ignored == j.ignored.push(f)
            &&& i.subcommand == j.subcommand && k.subcommand == j.subcommand
        }),
{
    let f = ignored_table()[t].0;
    reveal_strlit("=");
    let a = f + "="@ + v;
    lemma_ignored_flag(t);
    assert(a[f.len() as int] == '=');
    assert(a.contains('='));
    lemma_word_with_eq(a);
    // `a` is looked up by the text before its `=`, which is `f`.
    crate::text::lemma_index_of_from(a, '=', 0);
    if index_of_from(a, '=', 0) < f.len() {
        assert(a[index_of_from(a, '=', 0)] == f[index_of_from(a, '=', 0)]);
    }
    assert(index_of_from(a, '=', 0) == f.len());
    assert(a.take(f.len() as int) =~= f);
    crate::text::lemma_index_of_from(f, '=', 0);
    if index_of_from(f, '=', 0) < f.len() {
        assert(f.contains('='));
    }
    assert(f.take(f.len() as int) =~= f);
    lemma_table_find(ignored_table(), f, 0, t);
    assert(lookup(a) is Some);
    assert(lookup(f) is Some);
    assert(a[0] == '-' && a.len() > 0);
    assert(!asks_help(p) && !asks_version(p));
    let rest_p = if p.len() > 0 && (p[0] == "diff"@ || p[0] == "show"@) {
        p.drop_first()
    } else {
        p
    };
    assert forall|i: int| 0 <= i < rest_p.len() implies (#[trigger] rest_p[i]) != "--"@ by {
        if rest_p == p.drop_first() {
            assert(rest_p[i] == p[i + 1]);
        }
    }
    if rest_p.len() > 0 {
        assert(rest_p.last() == p.last());
    }
    lemma_read_before_separator(rest_p);
    let st = read_args(rest_p);
    // Both words are read as options, before any separator, with no
    // value awaited.
    assert(!asks_help(p.push(a))) by {
        if exists|i: int| 0 <= i < p.push(a).len() && is_help(#[trigger] p.push(a)[i]) && before_separator(p.push(a), i) {
            let i = choose|i: int| 0 <= i < p.push(a).len() && is_help(#[trigger] p.push(a)[i]) && before_separator(p.push(a), i);
            if i < p.len() {
                assert(p.push(a)[i] == p[i]);
            }
        }
    }
    assert(!asks_version(p.push(a))) by {
        if exists|i: int| 0 <= i < p.push(a).len() && is_version(#[trigger] p.push(a)[i]) && before_separator(p.push(a), i) {
            let i = choose|i: int| 0 <= i < p.push(a).len() && is_version(#[trigger] p.push(a)[i]) && before_separator(p.push(a), i);
            if i < p.len() {
                assert(p.push(a)[i] == p[i]);
            }
        }
    }
    assert(!asks_help(p.push(f))) by {
        if exists|i: int| 0 <= i < p.push(f).len() && is_help(#[trigger] p.push(f)[i]) && before_separator(p.push(f), i) {
            let i = choose|i: int| 0 <= i < p.push(f).len() && is_help(#[trigger] p.push(f)[i]) && before_separator(p.push(f), i);
            if i < p.len() {
                assert(p.push(f)[i] == p[i]);
            }
        }
    }
    assert(!asks_version(p.push(f))) by {
        if exists|i: int| 0 <= i < p.push(f).len() && is_version(#[trigger] p.push(f)[i]) && before_separator(p.push(f), i) {
            let i = choose|i: int| 0 <= i < p.push(f).len() && is_version(#[trigger] p.push(f)[i]) && before_separator(p.push(f), i);
            if i < p.len() {
                assert(p.push(f)[i] == p[i]);
            }
        }
    }
    if p.len() > 0 {
        assert(p.push(a)[0] == p[0] && p.push(f)[0] == p[0]);
        if p[0] == "diff"@ || p[0] == "show"@ {
            assert(p.push(a).drop_first() =~= rest_p.push(a));
            assert(p.push(f).drop_first() =~= rest_p.push(f));
        }
    } else {
        assert(p.push(a) =~= seq![a]);
        assert(p.push(f) =~= seq![f]);
        assert(rest_p.push(a) =~= seq![a]);
        assert(rest_p.push(f) =~= seq![f]);
    }
    assert(rest_p.push(a).drop_last() =~= rest_p);
    assert(rest_p.push(f).drop_last() =~= rest_p);
}

/// A value-taking flag of the ignore-list (one whose entries all take a
/// value) written without `=` takes the argument after it with it: after arguments before the first `--` as in
/// `law_ignored_flags_with_values`, `f w` adds nothing to the arguments
/// that reach git, whatever `w` is, and reports `f` alone.
pub proof fn law_ignored_flag_takes_its_value(p: Seq<Seq<char>>, t: int, w: Seq<char>)
    requires
        forall|i: int|
            0 <= i < p.len() ==> (#[trigger] p[i]) != "--"@ && !is_help(p[i]) && !is_version(p[i]),
        p.len() == 0 || !takes_value(p.last()),
        0 <= t < ignored_table().len(),
        forall|u: int|
            0 <= u < ignored_table().len() && ignored_table()[u].0 == ignored_table()[t].0
                ==> #[trigger] ignored_table()[u].1,
        !is_help(w) && !is_version(w),
    ensures
        ({
            let f = ignored_table()[t].0;
            &&& parse_spec(p) matches ParsedView::Run(j)
            &&& parse_spec(p.push(f).push(w)) matches ParsedView::Run(k)
            &&& k.args == j.args && k.ignored == j.ignored.push(f)
            &&& k.subcommand == j.subcommand
        }),
{
    let f = ignored_table()[t].0;
    law_ignored_flags_with_values(p, t, Seq::empty());
    lemma_ignored_flag(t);
    let q = p.push(f);
    let argv = q.push(w);
    assert(!asks_help(argv)) by {
        if exists|i: int| 0 <= i < argv.len() && is_help(#[trigger] argv[i]) && before_separator(argv, i) {
            let i = choose|i: int| 0 <= i < argv.len() && is_help(#[trigger] argv[i]) && before_separator(argv, i);
            if i < p.len() {
                assert(argv[i] == p[i]);
            } else if i == p.len() {
                assert(argv[i] == f);
            }
        }
    }
    assert(!asks_version(argv)) by {
        if exists|i: int| 0 <= i < argv.len() && is_version(#[trigger] argv[i]) && before_separator(argv, i) {
            let i = choose|i: int| 0 <= i < argv.len() && is_version(#[trigger] argv[i]) && before_separator(argv, i);
            if i < p.len() {
                assert(argv[i] == p[i]);
            } else if i == p.len() {
                assert(argv[i] == f);
            }
        }
    }
    let rest_p = if p.len() > 0 && (p[0] == "diff"@ || p[0] == "show"@) {
        p.drop_first()
    } else {
        p
    };
    assert forall|i: int| 0 <= i < rest_p.len() implies (#[trigger] rest_p[i]) != "--"@ by {
        if rest_p == p.drop_first() {
            assert(rest_p[i] == p[i + 1]);
        }
    }
    if rest_p.len() > 0 {
        assert(rest_p.last() == p.last());
    }
    lemma_read_before_separator(rest_p);
    crate::text::lemma_index_of_from(f, '=', 0);
    if index_of_from(f, '=', 0) < f.len() {
        assert(f.contains('='));
    }
    assert(f.take(f.len() as int) =~= f);
    lemma_table_find(ignored_table(), f, 0, t);
    if p.len() > 0 {
        assert(argv[0] == p[0] && q[0] == p[0]);
        if p[0] == "diff"@ || p[0] == "show"@ {
            assert(argv.drop_first() =~= rest_p.push(f).push(w));
            assert(q.drop_first() =~= rest_p.push(f));
        }
    } else {
        assert(argv =~= seq![f, w]);
        assert(q =~= seq![f]);
        assert(rest_p.push(f).push(w) =~= seq![f, w]);
        assert(rest_p.push(f) =~= seq![f]);
    }
    assert(rest_p.push(f).push(w).drop_last() =~= rest_p.push(f));
    assert(rest_p.push(f).drop_last() =~= rest_p);
    let u = choose|u: int| 0 <= u <= t && ignored_table()[u] == lookup(f)->0;
    assert(ignored_table()[u].1);
    assert(read_args(rest_p.push(f)).skip_next);
}

/// The words joined with `sep` between each two, as `[str]::join` does.
pub open spec fn joined_with(v: Seq<Seq<char>>, sep: Seq<char>) -> Seq<char>
    decreases v.len(),
{
    if v.len() == 0 {
        Seq::empty()
    } else if v.len() == 1 {
        v[0]
    } else {
        joined_with(v.drop_last(), sep) + sep + v.last()
    }
}

impl Invocation {
    /// The line reporting the dropped flags, for the terminal, where the
    /// person who typed the command is looking; none when nothing was
    /// dropped.
    pub fn ignored_notice(&self) -> (r: Option<String>)
        ensures
            match r {
                Some(s) => self.ignored@.len() > 0 && s@ == "diffuse: ignoring "@ + joined_with(
                    strings_view(self.ignored@),
                    ", "@,
                ) + " (diffuse always renders the full patch)"@,
                None => self.ignored@.len() == 0,
            },
    {
        if self.ignored.len() == 0 {
            return None;
        }
        let ghost iv = strings_view(self.ignored@);
        let mut s = String::new();
        s.append("diffuse: ignoring ");
        let ghost s0 = s@;
        s.append(self.ignored[0].as_str());
        assert(iv.take(1).len() == 1);
        assert(joined_with(iv.take(1), ", "@) == iv[0]);
        let mut k: usize = 1;
        while k < self.ignored.len()
            invariant
                1 <= k <= self.ignored.len(),
                iv == strings_view(self.ignored@),
                s0 == "diffuse: ignoring "@,
                s@ == s0 + joined_with(iv.take(k as int), ", "@),
            decreases self.ignored.len() - k,
        {
            let ghost before = s@;
            s.append(", ");
            s.append(self.ignored[k].as_str());
            proof {
                let t = iv.take(k + 1);
                assert(t.drop_last() =~= iv.take(k as int));
                assert(t.last() == iv[k as int]);
                assert(s@ =~= s0 + joined_with(t, ", "@));
            }
            k += 1;
        }
        assert(iv.take(self.ignored.len() as int) =~= iv);
        s.append(" (diffuse always renders the full patch)");
        Some(s)
    }
}

/// The usage text.
pub const HELP: &'static str = "\
diffuse — a browser-based pager for git's diff output

USAGE:
    diffuse [<git-diff-args>...]
    diffuse diff [<args>...]
    diffuse show [<args>...]

Any diff-producing git command works by replacing `git` with `diffuse`:

    diffuse                      same as  git diff
    diffuse main                 same as  git diff main
    diffuse diff main...HEAD     same as  git diff main...HEAD
    diffuse diff --cached -w     same as  git diff --cached -w
    diffuse show <commit>        same as  git show <commit>

OPTIONS:
    --no-untracked    Do not synthesize diffs for untracked files
    --no-open         Print the URL instead of opening a browser
    --inline-all      Send the whole diff up front however large, so the
                      browser's own find reaches every file
    -h, --help        Show this help
    -V, --version     Show version

Flags that produce no patch (--stat, --name-only, --raw, ...) are ignored with
a warning; diffuse always renders the full patch.
";

} // verus!
