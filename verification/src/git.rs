//! The git invocation layer.
//!
//! diffuse shells out to git rather than using a library because the CLI
//! contract requires git's full revision syntax (`main...HEAD`, `HEAD@{2}`,
//! `:/fix typo`). git is the parser.
//!
//! diffuse holds no diff state: the file list comes from one `--numstat -z`
//! call and each file's body is fetched by re-running the same argv with a
//! pathspec appended. This module decides which git commands to run and
//! what their output means; running them is the caller's part.

use vstd::prelude::*;

use crate::cli::{strings_view, subcommand_name, Invocation, InvocationView, Subcommand};
use crate::model::{
    empty_file_view, hunks_view, lines_view, FileDiff, FileDiffView, FileEntry, FileEntryView, Hunk, HunkView,
    Line, LineKind, LineView, Status,
};
use crate::parse::{lemma_next_no, wrap_add};
use crate::text::{
    chars_of, find, find_from, index_of_exec, index_of_from, nonempty_pieces,
    nonempty_pieces_exec, parse_u32, parse_u32_exec, same, slice_of, split_exec, split_on,
    string_from, trim_end, trim_end_exec, vecs_view, words, words_of, from_utf8_lossy, utf8_lossy,
    lines, lines_of, decimal, decimal_exec,
};

verus! {

/// What running a git command gave: whether it exited successfully, and its
/// output streams as text.
pub struct GitOutput {
    pub success: bool,
    pub stdout: String,
    pub stderr: String,
}

/// A failed git command: diffuse's own message, and what git said.
#[derive(Debug)]
pub struct GitError {
    pub message: String,
    pub stderr: String,
}

impl GitError {
    /// What to tell the user: git's own words when it said anything,
    /// otherwise diffuse's message.
    pub fn describe(&self) -> (s: String)
        ensures
            s@ == (if self.stderr@.len() == 0 {
                self.message@
            } else {
                trim_end(self.stderr@)
            }),
    {
        let e = chars_of(self.stderr.as_str());
        if e.len() == 0 {
            self.message.clone()
        } else {
            string_from(trim_end_exec(&e).as_slice())
        }
    }

    /// The error for a git that could not be started at all.
    pub fn could_not_run(detail: &str) -> (e: GitError)
        ensures
            e.message@ == "could not run git: "@ + detail@,
            e.stderr@.len() == 0,
    {
        let mut message = String::new();
        message.append("could not run git: ");
        message.append(detail);
        GitError { message, stderr: String::new() }
    }
}

/// The repository diffuse runs in.
#[derive(Debug, Clone)]
pub struct Repo {
    /// The top level of the working tree, as git prints it.
    pub root: String,
}

/// Locate the repository from what `git rev-parse --show-toplevel` printed,
/// exactly as git would.
pub fn discover(out: &GitOutput) -> (r: Result<Repo, GitError>)
    ensures
        match r {
            Ok(repo) => out.success && repo.root@ == trim_end(out.stdout@),
            Err(e) => !out.success && e.message@ == "not a git repository"@ && e.stderr@
                == out.stderr@,
        },
{
    if !out.success {
        return Err(
            GitError { message: String::from_str("not a git repository"), stderr: out.stderr.clone() },
        );
    }
    let s = chars_of(out.stdout.as_str());
    Ok(Repo { root: string_from(trim_end_exec(&s).as_slice()) })
}

/// Where `HEAD` is: its branch (or that it is detached), sha and subject.
#[derive(Debug, Clone)]
pub struct Head {
    pub branch: String,
    pub sha: String,
    pub subject: String,
    pub detached: bool,
}

/// The commit that `show` displays.
#[derive(Debug, Clone)]
pub struct CommitMeta {
    pub sha: String,
    pub author: String,
    pub date: String,
    pub subject: String,
    pub body: String,
    /// A merge is shown against its first parent, which the UI says out loud.
    pub merge: bool,
}

/// A repository and the command diffuse was asked to show from it.
pub struct Runner {
    pub repo: Repo,
    pub inv: Invocation,
}

/// The options that protect the parser and the transport, and the
/// subcommand. Never anything that changes what the diff means: colour
/// escapes appear even through a pipe when `color.ui = always`, an external
/// diff driver replaces the patch with arbitrary output, and non-ASCII paths
/// arrive octal-escaped. These three are all diffuse adds to a command.
pub open spec fn base_args(sub: Subcommand) -> Seq<Seq<char>> {
    seq!["-c"@, "core.quotepath=false"@, subcommand_name(sub), "--no-color"@, "--no-ext-diff"@]
}

/// The index of the first `--` in `args`, if any.
pub open spec fn separator_index(args: Seq<Seq<char>>, k: int) -> Option<int>
    decreases args.len() - k,
{
    if k < 0 || k >= args.len() {
        None
    } else if args[k] == "--"@ {
        Some(k)
    } else {
        separator_index(args, k + 1)
    }
}

/// The user's arguments split at the first `--` into (revisions and flags,
/// pathspecs).
pub open spec fn split_at_separator(args: Seq<Seq<char>>) -> (Seq<Seq<char>>, Seq<Seq<char>>) {
    match separator_index(args, 0) {
        Some(i) => (args.take(i), args.skip(i + 1)),
        None => (args, Seq::empty()),
    }
}

fn push_str(v: &mut Vec<String>, s: &str)
    ensures
        strings_view(final(v)@) == strings_view(old(v)@).push(s@),
{
    let ghost before = v@;
    v.push(String::from_str(s));
    assert(strings_view(v@) =~= strings_view(before).push(s@));
}

fn push_clone(v: &mut Vec<String>, s: &String)
    ensures
        strings_view(final(v)@) == strings_view(old(v)@).push(s@),
{
    let ghost before = v@;
    let c = s.clone();
    v.push(c);
    assert(strings_view(v@) =~= strings_view(before).push(s@));
}

fn push_all(v: &mut Vec<String>, w: &Vec<String>)
    ensures
        strings_view(final(v)@) == strings_view(old(v)@) + strings_view(w@),
{
    let ghost start = strings_view(v@);
    let mut k: usize = 0;
    while k < w.len()
        invariant
            k <= w.len(),
            strings_view(v@) == start + strings_view(w@).take(k as int),
        decreases w.len() - k,
    {
        push_clone(v, &w[k]);
        k += 1;
        assert(strings_view(v@) =~= start + strings_view(w@).take(k as int));
    }
    assert(strings_view(w@).take(w.len() as int) =~= strings_view(w@));
}

impl Runner {
    /// The runner for `inv` in `repo`.
    pub fn new(repo: Repo, inv: Invocation) -> (r: Runner)
        ensures
            r.repo.root@ == repo.root@,
            r.inv@ == inv@,
    {
        Runner { repo, inv }
    }

    fn base(&self) -> (v: Vec<String>)
        ensures
            strings_view(v@) == base_args(self.inv.subcommand),
    {
        let mut v: Vec<String> = Vec::new();
        push_str(&mut v, "-c");
        push_str(&mut v, "core.quotepath=false");
        push_str(&mut v, self.inv.subcommand.as_str());
        push_str(&mut v, "--no-color");
        push_str(&mut v, "--no-ext-diff");
        assert(strings_view(v@) =~= base_args(self.inv.subcommand));
        v
    }

    /// Split the user's arguments at `--` into (revisions and flags, pathspecs).
    fn split_pathspec(&self) -> (r: (Vec<String>, Vec<String>))
        ensures
            (strings_view(r.0@), strings_view(r.1@)) == split_at_separator(self.inv@.args),
    {
        let ghost args = self.inv@.args;
        let sep = chars_of("--");
        let mut i: usize = 0;
        while i < self.inv.args.len()
            invariant
                i <= self.inv.args.len(),
                args == strings_view(self.inv.args@),
                sep@ == "--"@,
                separator_index(args, 0) == separator_index(args, i as int),
            decreases self.inv.args.len() - i,
        {
            let a = chars_of(self.inv.args[i].as_str());
            if same(&a, &sep) {
                let mut head: Vec<String> = Vec::new();
                let mut tail: Vec<String> = Vec::new();
                let mut k: usize = 0;
                while k < i
                    invariant
                        k <= i < self.inv.args.len(),
                        args == strings_view(self.inv.args@),
                        strings_view(head@) == args.take(k as int),
                    decreases i - k,
                {
                    push_clone(&mut head, &self.inv.args[k]);
                    k += 1;
                    assert(strings_view(head@) =~= args.take(k as int));
                }
                let mut k = i + 1;
                while k < self.inv.args.len()
                    invariant
                        i < k <= self.inv.args.len(),
                        args == strings_view(self.inv.args@),
                        strings_view(tail@) == args.subrange(i + 1, k as int),
                    decreases self.inv.args.len() - k,
                {
                    push_clone(&mut tail, &self.inv.args[k]);
                    k += 1;
                    assert(strings_view(tail@) =~= args.subrange(i + 1, k as int));
                }
                assert(args.subrange(i + 1, args.len() as int) =~= args.skip(i + 1));
                return (head, tail);
            }
            i += 1;
        }
        let mut head: Vec<String> = Vec::new();
        push_all(&mut head, &self.inv.args);
        assert(strings_view(head@) =~= args);
        let tail: Vec<String> = Vec::new();
        assert(strings_view(tail@) =~= Seq::<Seq<char>>::empty());
        (head, tail)
    }
}

/// `git <subcommand> --numstat -z <args>`: the file list, from git's
/// authoritative machine-readable stat output.
pub open spec fn numstat_args(inv: InvocationView) -> Seq<Seq<char>> {
    base_args(inv.subcommand) + seq!["--numstat"@, "-z"@] + inv.args
}

/// `git <subcommand> --name-status -z <args>`: what happened to each file.
pub open spec fn name_status_args(inv: InvocationView) -> Seq<Seq<char>> {
    base_args(inv.subcommand) + seq!["--name-status"@, "-z"@] + inv.args
}

/// `git ls-files --others --exclude-standard -z`, bounded by the user's
/// pathspecs, or a `diffuse HEAD -- src/` would leak new files from outside
/// `src/`.
pub open spec fn untracked_args(inv: InvocationView) -> Seq<Seq<char>> {
    let ps = split_at_separator(inv.args).1;
    seq!["ls-files"@, "--others"@, "--exclude-standard"@, "-z"@] + if ps.len() > 0 {
        seq!["--"@] + ps
    } else {
        Seq::empty()
    }
}

/// The patch for a single file: the same argv, with the pathspec replaced by
/// this file (appending would union with the user's pathspecs and return
/// the whole diff again), and both sides of a rename, or git reports it as
/// an add.
pub open spec fn patch_args(inv: InvocationView, path: Seq<char>, old_path: Option<Seq<char>>) -> Seq<
    Seq<char>,
> {
    seq!["--literal-pathspecs"@] + base_args(inv.subcommand) + split_at_separator(inv.args).0
        + seq!["--"@] + match old_path {
        Some(o) => seq![o],
        None => Seq::empty(),
    } + seq![path]
}

impl Runner {
    /// The command that validates the user's arguments and lists the files.
    pub fn numstat_command(&self) -> (v: Vec<String>)
        ensures
            strings_view(v@) == numstat_args(self.inv@),
    {
        let mut v = self.base();
        push_str(&mut v, "--numstat");
        push_str(&mut v, "-z");
        push_all(&mut v, &self.inv.args);
        assert(strings_view(v@) =~= numstat_args(self.inv@));
        v
    }

    /// The command that says what happened to each file.
    pub fn name_status_command(&self) -> (v: Vec<String>)
        ensures
            strings_view(v@) == name_status_args(self.inv@),
    {
        let mut v = self.base();
        push_str(&mut v, "--name-status");
        push_str(&mut v, "-z");
        push_all(&mut v, &self.inv.args);
        assert(strings_view(v@) =~= name_status_args(self.inv@));
        v
    }

    /// The command that lists the untracked files the pathspecs admit.
    pub fn untracked_command(&self) -> (v: Vec<String>)
        ensures
            strings_view(v@) == untracked_args(self.inv@),
    {
        let mut v: Vec<String> = Vec::new();
        push_str(&mut v, "ls-files");
        push_str(&mut v, "--others");
        push_str(&mut v, "--exclude-standard");
        push_str(&mut v, "-z");
        let (_, pathspecs) = self.split_pathspec();
        if pathspecs.len() > 0 {
            push_str(&mut v, "--");
            push_all(&mut v, &pathspecs);
        }
        assert(strings_view(v@) =~= untracked_args(self.inv@));
        v
    }

    /// The command for one file's patch, under both names of a rename.
    pub fn patch_command(&self, path: &str, old_path: Option<&str>) -> (v: Vec<String>)
        ensures
            strings_view(v@) == patch_args(
                self.inv@,
                path@,
                match old_path {
                    Some(o) => Some(o@),
                    None => None,
                },
            ),
    {
        let (head, _) = self.split_pathspec();
        let mut v: Vec<String> = Vec::new();
        push_str(&mut v, "--literal-pathspecs");
        let b = self.base();
        push_all(&mut v, &b);
        push_all(&mut v, &head);
        push_str(&mut v, "--");
        match old_path {
            Some(o) => push_str(&mut v, o),
            None => {},
        }
        push_str(&mut v, path);
        assert(strings_view(v@) =~= patch_args(
            self.inv@,
            path@,
            match old_path {
                Some(o) => Some(o@),
                None => None,
            },
        ));
        v
    }

    /// Whether the user's command, run once, was valid: mirrors git's own
    /// failure so the terminal reports the problem.
    pub fn validate(&self, out: &GitOutput) -> (r: Result<(), GitError>)
        ensures
            match r {
                Ok(()) => out.success,
                Err(e) => !out.success && e.message@ == "git command failed"@ && e.stderr@
                    == out.stderr@,
            },
    {
        if !out.success {
            return Err(
                GitError {
                    message: String::from_str("git command failed"),
                    stderr: out.stderr.clone(),
                },
            );
        }
        Ok(())
    }

    /// The patch text from the output of `patch_command`. Diff content is
    /// not guaranteed to be UTF-8; it arrives already decoded with what
    /// could not be decoded replaced.
    pub fn patch_for(&self, path: &str, out: &GitOutput) -> (r: Result<String, GitError>)
        ensures
            match r {
                Ok(text) => out.success && text@ == out.stdout@,
                Err(e) => !out.success && e.message@ == "could not diff "@ + path@ && e.stderr@
                    == out.stderr@,
            },
    {
        if !out.success {
            let mut message = String::new();
            message.append("could not diff ");
            message.append(path);
            return Err(GitError { message, stderr: out.stderr.clone() });
        }
        Ok(out.stdout.clone())
    }
}

/// What a plumbing command yields: its output without trailing whitespace,
/// when it succeeded.
pub fn plumbing(out: &GitOutput) -> (r: Option<String>)
    ensures
        match r {
            Some(s) => out.success && s@ == trim_end(out.stdout@),
            None => !out.success,
        },
{
    if !out.success {
        return None;
    }
    let s = chars_of(out.stdout.as_str());
    Some(string_from(trim_end_exec(&s).as_slice()))
}

/// The plumbing commands that describe `HEAD`: its short sha, its branch,
/// and its subject.
pub fn head_commands() -> (v: Vec<Vec<String>>)
    ensures
        v.len() == 3,
        strings_view(v@[0]@) == seq!["rev-parse"@, "--short"@, "HEAD"@],
        strings_view(v@[1]@) == seq!["symbolic-ref"@, "--short"@, "HEAD"@],
        strings_view(v@[2]@) == seq!["log"@, "-1"@, "--format=%s"@],
{
    let mut a: Vec<String> = Vec::new();
    push_str(&mut a, "rev-parse");
    push_str(&mut a, "--short");
    push_str(&mut a, "HEAD");
    let mut b: Vec<String> = Vec::new();
    push_str(&mut b, "symbolic-ref");
    push_str(&mut b, "--short");
    push_str(&mut b, "HEAD");
    let mut c: Vec<String> = Vec::new();
    push_str(&mut c, "log");
    push_str(&mut c, "-1");
    push_str(&mut c, "--format=%s");
    assert(strings_view(a@) =~= seq!["rev-parse"@, "--short"@, "HEAD"@]);
    assert(strings_view(b@) =~= seq!["symbolic-ref"@, "--short"@, "HEAD"@]);
    assert(strings_view(c@) =~= seq!["log"@, "-1"@, "--format=%s"@]);
    let mut v: Vec<Vec<String>> = Vec::new();
    v.push(a);
    v.push(b);
    v.push(c);
    v
}

impl Runner {
    /// What `HEAD` is, from the answers of `head_commands`: none without a
    /// sha; on no branch, a detached head named after its sha.
    pub fn head(&self, sha: Option<String>, branch: Option<String>, subject: Option<String>) -> (r:
        Option<Head>)
        ensures
            match sha {
                None => r is None,
                Some(s) => r matches Some(h) && {
                    let b = match branch {
                        Some(b) => b@,
                        None => Seq::empty(),
                    };
                    &&& h.sha@ == s@
                    &&& h.detached == (b.len() == 0)
                    &&& h.branch@ == if b.len() == 0 {
                        "detached at "@ + s@
                    } else {
                        b
                    }
                    &&& h.subject@ == match subject {
                        Some(t) => t@,
                        None => Seq::empty(),
                    }
                },
            },
    {
        let sha = match sha {
            Some(s) => s,
            None => return None,
        };
        let branch = match branch {
            Some(b) => b,
            None => String::new(),
        };
        let subject = match subject {
            Some(t) => t,
            None => String::new(),
        };
        let detached = chars_of(branch.as_str()).len() == 0;
        let branch = if detached {
            let mut d = String::new();
            d.append("detached at ");
            d.append(sha.as_str());
            d
        } else {
            branch
        };
        Some(Head { branch, sha, subject, detached })
    }
}

/// The three tab-separated columns of a numstat record: added, deleted, and
/// the rest; none when it has fewer than two tabs.
pub open spec fn tab_columns(rec: Seq<char>) -> Option<(Seq<char>, Seq<char>, Seq<char>)> {
    let t1 = index_of_from(rec, '\t', 0);
    let t2 = index_of_from(rec, '\t', t1 + 1);
    if t1 >= rec.len() || t2 >= rec.len() {
        None
    } else {
        Some((rec.take(t1), rec.subrange(t1 + 1, t2), rec.skip(t2 + 1)))
    }
}

/// A field of a NUL-separated listing, or nothing past its end.
pub open spec fn field_or_empty(fields: Seq<Seq<char>>, k: int) -> Seq<char> {
    if 0 <= k < fields.len() {
        fields[k]
    } else {
        Seq::empty()
    }
}

/// A count column: binary files report `-`, which counts as nothing.
pub open spec fn count_of(col: Seq<char>) -> u32 {
    match parse_u32(col) {
        Some(v) => v,
        None => 0,
    }
}

/// The entry for one numstat record, marked modified until the
/// name-status output says otherwise.
pub open spec fn numstat_entry(path: Seq<char>, old_path: Option<Seq<char>>, add: Seq<char>, del: Seq<char>) -> FileEntryView {
    FileEntryView {
        path,
        old_path,
        status: Status::Modified,
        additions: count_of(add),
        deletions: count_of(del),
        binary: add == "-"@ || del == "-"@,
        untracked: false,
    }
}

/// The file list of `--numstat -z` output from field `k` on:
/// `add\tdel\tpath\0`, or for renames `add\tdel\t\0old\0new\0`.
pub open spec fn numstat_from(fields: Seq<Seq<char>>, k: int) -> Seq<FileEntryView>
    decreases fields.len() + 3 - k,
{
    if k < 0 || k >= fields.len() {
        Seq::empty()
    } else {
        let rec = fields[k];
        if rec.len() == 0 {
            numstat_from(fields, k + 1)
        } else {
            match tab_columns(rec) {
                None => numstat_from(fields, k + 1),
                Some((add, del, rest)) => if rest.len() == 0 {
                    seq![
                        numstat_entry(
                            field_or_empty(fields, k + 2),
                            Some(field_or_empty(fields, k + 1)),
                            add,
                            del,
                        ),
                    ] + numstat_from(fields, k + 3)
                } else {
                    seq![numstat_entry(rest, None, add, del)] + numstat_from(fields, k + 1)
                },
            }
        }
    }
}

/// The views of a list of entries.
pub open spec fn entries_view(v: Seq<FileEntry>) -> Seq<FileEntryView> {
    v.map_values(|e: FileEntry| e@)
}

fn tab_columns_exec(rec: &Vec<char>) -> (r: Option<(Vec<char>, Vec<char>, Vec<char>)>)
    ensures
        match r {
            Some((a, b, c)) => tab_columns(rec@) == Some((a@, b@, c@)),
            None => tab_columns(rec@) is None,
        },
{
    let t1 = index_of_exec(rec, '\t', 0);
    if t1 >= rec.len() {
        return None;
    }
    let t2 = index_of_exec(rec, '\t', t1 + 1);
    if t2 >= rec.len() {
        return None;
    }
    Some((slice_of(rec, 0, t1), slice_of(rec, t1 + 1, t2), slice_of(rec, t2 + 1, rec.len())))
}

fn is_dash(s: &Vec<char>) -> (b: bool)
    ensures
        b == (s@ == "-"@),
{
    let d = chars_of("-");
    same(s, &d)
}

fn count_exec(col: &Vec<char>) -> (n: u32)
    ensures
        n == count_of(col@),
{
    match parse_u32_exec(col) {
        Some(v) => v,
        None => 0,
    }
}

/// Parses `git diff --numstat -z` output into the file list, every file
/// first marked modified.
pub fn parse_numstat_z(text: &str) -> (files: Vec<FileEntry>)
    ensures
        entries_view(files@) == numstat_from(split_on(text@, '\0'), 0),
{
    let chars = chars_of(text);
    let fields = split_exec(&chars, '\0');
    let ghost fv = vecs_view(fields@);
    let mut files: Vec<FileEntry> = Vec::new();
    let mut k: usize = 0;
    while k < fields.len()
        invariant
            fv == vecs_view(fields@),
            fv == split_on(text@, '\0'),
            entries_view(files@) + numstat_from(fv, k as int) == numstat_from(fv, 0),
        decreases fields.len() - k,
    {
        let rec = &fields[k];
        assert(fv[k as int] == rec@);
        let ghost before = files@;
        let ghost k0 = k as int;
        if rec.len() == 0 {
            k += 1;
            continue;
        }
        match tab_columns_exec(rec) {
            None => {
                k += 1;
            },
            Some((add, del, rest)) => {
                let binary = is_dash(&add) || is_dash(&del);
                let e = if rest.len() == 0 {
                    let old = if k + 1 < fields.len() {
                        slice_of(&fields[k + 1], 0, fields[k + 1].len())
                    } else {
                        Vec::new()
                    };
                    let new = if fields.len() - k > 2 {
                        slice_of(&fields[k + 2], 0, fields[k + 2].len())
                    } else {
                        Vec::new()
                    };
                    proof {
                        if k + 1 < fields.len() {
                            assert(old@ =~= fv[k + 1]);
                        } else {
                            assert(old@ =~= Seq::<char>::empty());
                        }
                        if fields.len() - k > 2 {
                            assert(new@ =~= fv[k + 2]);
                        } else {
                            assert(new@ =~= Seq::<char>::empty());
                        }
                    }
                    k = if fields.len() - k > 3 {
                        k + 3
                    } else {
                        fields.len()
                    };
                    FileEntry {
                        path: string_from(new.as_slice()),
                        old_path: Some(string_from(old.as_slice())),
                        status: Status::Modified,
                        additions: count_exec(&add),
                        deletions: count_exec(&del),
                        binary,
                        untracked: false,
                    }
                } else {
                    k += 1;
                    FileEntry {
                        path: string_from(rest.as_slice()),
                        old_path: None,
                        status: Status::Modified,
                        additions: count_exec(&add),
                        deletions: count_exec(&del),
                        binary,
                        untracked: false,
                    }
                };
                proof {
                    if rest@.len() == 0 {
                        assert(numstat_from(fv, k0 + 3) == numstat_from(fv, k as int));
                    }
                    assert(numstat_from(fv, k0) == seq![e@] + numstat_from(fv, k as int));
                }
                files.push(e);
                assert(entries_view(files@) =~= entries_view(before).push(e@));
            },
        }
    }
    assert(numstat_from(fv, k as int) =~= Seq::<FileEntryView>::empty());
    assert(entries_view(files@) =~= entries_view(files@) + numstat_from(fv, k as int));
    files
}

/// What a `--name-status` code says happened to a file, by its letter.
pub open spec fn status_of_code(letter: char) -> Status {
    if letter == 'A' {
        Status::Added
    } else if letter == 'D' {
        Status::Deleted
    } else if letter == 'R' {
        Status::Renamed
    } else if letter == 'C' {
        Status::Copied
    } else {
        Status::Modified
    }
}

/// The first letter of a status code, `M` for an empty one.
pub open spec fn code_letter(code: Seq<char>) -> char {
    if code.len() > 0 {
        code[0]
    } else {
        'M'
    }
}

/// The (status, path) pairs that the nonempty fields of `--name-status -z`
/// output report, from field `k` on. Renames and copies are followed by two
/// paths, the new one last; every other code by one. A code whose paths are
/// missing ends the listing.
pub open spec fn name_status_from(fields: Seq<Seq<char>>, k: int) -> Seq<(Status, Seq<char>)>
    decreases fields.len() - k,
{
    if k < 0 || k >= fields.len() {
        Seq::empty()
    } else {
        let letter = code_letter(fields[k]);
        if letter == 'R' || letter == 'C' {
            if k + 2 < fields.len() {
                seq![(status_of_code(letter), fields[k + 2])] + name_status_from(fields, k + 3)
            } else {
                Seq::empty()
            }
        } else {
            if k + 1 < fields.len() {
                seq![(status_of_code(letter), fields[k + 1])] + name_status_from(fields, k + 2)
            } else {
                Seq::empty()
            }
        }
    }
}

/// The index of the first entry from `j` on whose path is `path`, or the
/// length when there is none.
pub open spec fn first_with_path(files: Seq<FileEntryView>, path: Seq<char>, j: int) -> int
    decreases files.len() - j,
{
    if j < 0 || j >= files.len() {
        files.len() as int
    } else if files[j].path == path {
        j
    } else {
        first_with_path(files, path, j + 1)
    }
}

/// The entry with status `st`.
pub open spec fn with_status(e: FileEntryView, st: Status) -> FileEntryView {
    FileEntryView {
        path: e.path,
        old_path: e.old_path,
        status: st,
        additions: e.additions,
        deletions: e.deletions,
        binary: e.binary,
        untracked: e.untracked,
    }
}

/// The list with the first entry for `path`, if any, given status `st`.
pub open spec fn set_status(files: Seq<FileEntryView>, st: Status, path: Seq<char>) -> Seq<
    FileEntryView,
> {
    let j = first_with_path(files, path, 0);
    if j < files.len() {
        files.update(j, with_status(files[j], st))
    } else {
        files
    }
}

/// The list after each reported status is applied in turn.
pub open spec fn apply_statuses(files: Seq<FileEntryView>, ups: Seq<(Status, Seq<char>)>) -> Seq<
    FileEntryView,
>
    decreases ups.len(),
{
    if ups.len() == 0 {
        files
    } else {
        set_status(apply_statuses(files, ups.drop_last()), ups.last().0, ups.last().1)
    }
}

fn status_of_code_exec(letter: char) -> (st: Status)
    ensures
        st == status_of_code(letter),
{
    if letter == 'A' {
        Status::Added
    } else if letter == 'D' {
        Status::Deleted
    } else if letter == 'R' {
        Status::Renamed
    } else if letter == 'C' {
        Status::Copied
    } else {
        Status::Modified
    }
}

fn name_status_exec(fields: &Vec<Vec<char>>) -> (ups: Vec<(Status, Vec<char>)>)
    ensures
        ups@.len() == name_status_from(vecs_view(fields@), 0).len(),
        forall|i: int|
            0 <= i < ups@.len() ==> (#[trigger] ups@[i]).0 == name_status_from(
                vecs_view(fields@),
                0,
            )[i].0 && ups@[i].1@ == name_status_from(vecs_view(fields@), 0)[i].1,
{
    let ghost fv = vecs_view(fields@);
    let ghost all = name_status_from(fv, 0);
    let mut ups: Vec<(Status, Vec<char>)> = Vec::new();
    let mut k: usize = 0;
    while k < fields.len()
        invariant
            fv == vecs_view(fields@),
            all == name_status_from(fv, 0),
            ups@.len() + name_status_from(fv, k as int).len() == all.len(),
            forall|i: int|
                0 <= i < ups@.len() ==> (#[trigger] ups@[i]).0 == all[i].0 && ups@[i].1@
                    == all[i].1,
            forall|i: int|
                0 <= i < name_status_from(fv, k as int).len() ==> #[trigger] name_status_from(
                    fv,
                    k as int,
                )[i] == all[ups@.len() + i],
        ensures
            ups@.len() == all.len(),
            forall|i: int|
                0 <= i < ups@.len() ==> (#[trigger] ups@[i]).0 == all[i].0 && ups@[i].1@
                    == all[i].1,
        decreases fields.len() - k,
    {
        let ghost rest = name_status_from(fv, k as int);
        let letter = if fields[k].len() > 0 {
            fields[k][0]
        } else {
            'M'
        };
        assert(letter == code_letter(fv[k as int]));
        let two = letter == 'R' || letter == 'C';
        let need: usize = if two {
            2
        } else {
            1
        };
        if fields.len() - k <= need {
            assert(rest =~= Seq::<(Status, Seq<char>)>::empty());
            break;
        }
        let p = slice_of(&fields[k + need], 0, fields[k + need].len());
        assert(p@ =~= fv[k + need]);
        let st = status_of_code_exec(letter);
        let ghost n = ups@.len();
        ups.push((st, p));
        let ghost next = name_status_from(fv, k + need + 1);
        assert(rest == seq![(st, p@)] + next);
        assert(rest[0] == all[n as int]);
        assert forall|i: int| 0 <= i < next.len() implies #[trigger] next[i] == all[ups@.len() + i] by {
            assert(next[i] == rest[i + 1]);
        }
        k = k + need + 1;
    }
    ups
}

fn first_with_path_exec(keys: &Vec<Vec<char>>, path: &Vec<char>, Ghost(fv): Ghost<Seq<FileEntryView>>) -> (j: usize)
    requires
        keys.len() == fv.len(),
        forall|k: int| 0 <= k < keys.len() ==> (#[trigger] keys@[k])@ == fv[k].path,
    ensures
        j == first_with_path(fv, path@, 0),
{
    let mut j: usize = 0;
    while j < keys.len()
        invariant
            j <= keys.len() == fv.len(),
            forall|k: int| 0 <= k < keys.len() ==> (#[trigger] keys@[k])@ == fv[k].path,
            first_with_path(fv, path@, 0) == first_with_path(fv, path@, j as int),
        decreases keys.len() - j,
    {
        if same(&keys[j], path) {
            return j;
        }
        j += 1;
    }
    j
}

/// numstat reports counts but not add, delete or modify; `--name-status`
/// does. Applies what the output of `name_status_command` says to the file
/// list; a failed command leaves the list as it was.
pub fn classify(files: &mut Vec<FileEntry>, out: &GitOutput)
    ensures
        entries_view(final(files)@) == if out.success {
            apply_statuses(
                entries_view(old(files)@),
                name_status_from(nonempty_pieces(out.stdout@, '\0'), 0),
            )
        } else {
            entries_view(old(files)@)
        },
{
    if !out.success {
        return;
    }
    let text = chars_of(out.stdout.as_str());
    let fields = nonempty_pieces_exec(&text, '\0');
    let ups = name_status_exec(&fields);
    let ghost all = name_status_from(nonempty_pieces(out.stdout@, '\0'), 0);
    let ghost start = entries_view(files@);
    let mut keys: Vec<Vec<char>> = Vec::new();
    let mut k: usize = 0;
    while k < files.len()
        invariant
            k <= files.len(),
            keys.len() == k,
            forall|t: int| 0 <= t < k ==> (#[trigger] keys@[t])@ == files@[t].path@,
        decreases files.len() - k,
    {
        keys.push(chars_of(files[k].path.as_str()));
        k += 1;
    }
    let mut i: usize = 0;
    while i < ups.len()
        invariant
            i <= ups@.len() == all.len(),
            keys.len() == files.len(),
            forall|t: int| 0 <= t < keys.len() ==> (#[trigger] keys@[t])@ == files@[t].path@,
            forall|t: int| 0 <= t < ups@.len() ==> (#[trigger] ups@[t]).0 == all[t].0 && ups@[t].1@ == all[t].1,
            entries_view(files@) == apply_statuses(start, all.take(i as int)),
        decreases ups.len() - i,
    {
        let ghost cur = entries_view(files@);
        let j = first_with_path_exec(&keys, &ups[i].1, Ghost(cur));
        assert(all.take(i + 1).drop_last() =~= all.take(i as int));
        if j < files.len() {
            files[j].status = ups[i].0;
            assert(entries_view(files@) =~= cur.update(j as int, with_status(cur[j as int], ups@[i as int].0)));
        }
        i += 1;
    }
    assert(all.take(all.len() as int) =~= all);
}

/// The paths that `untracked_command` listed.
pub fn untracked_paths(out: &GitOutput) -> (paths: Vec<String>)
    ensures
        strings_view(paths@) == nonempty_pieces(out.stdout@, '\0'),
{
    let text = chars_of(out.stdout.as_str());
    let fields = nonempty_pieces_exec(&text, '\0');
    let mut paths: Vec<String> = Vec::new();
    let mut k: usize = 0;
    while k < fields.len()
        invariant
            k <= fields.len(),
            strings_view(paths@) == vecs_view(fields@).take(k as int),
        decreases fields.len() - k,
    {
        let ghost before = paths@;
        let p = string_from(fields[k].as_slice());
        assert(p@ == vecs_view(fields@)[k as int]);
        paths.push(p);
        assert(strings_view(paths@) =~= strings_view(before).push(p@));
        assert(vecs_view(fields@).take(k + 1) =~= vecs_view(fields@).take(k as int).push(p@));
        k += 1;
    }
    assert(vecs_view(fields@).take(fields.len() as int) =~= vecs_view(fields@));
    paths
}

/// The entry for an untracked file with `lines` lines.
pub open spec fn untracked_entry(path: Seq<char>, lines: u32, binary: bool) -> FileEntryView {
    FileEntryView {
        path,
        old_path: None,
        status: Status::Untracked,
        additions: lines,
        deletions: 0,
        binary,
        untracked: true,
    }
}

/// The entries for untracked files, from each path and what measuring the
/// file gave: a file that could not be read is left out.
pub open spec fn untracked_from(measured: Seq<(Seq<char>, Option<(u32, bool)>)>) -> Seq<
    FileEntryView,
>
    decreases measured.len(),
{
    if measured.len() == 0 {
        Seq::empty()
    } else {
        let rest = untracked_from(measured.drop_last());
        match measured.last().1 {
            Some((lines, binary)) => rest.push(untracked_entry(measured.last().0, lines, binary)),
            None => rest,
        }
    }
}

/// The measured paths with their paths as character sequences.
pub open spec fn measured_view(m: Seq<(String, Option<(u32, bool)>)>) -> Seq<
    (Seq<char>, Option<(u32, bool)>),
> {
    m.map_values(|x: (String, Option<(u32, bool)>)| (x.0@, x.1))
}

/// Untracked files are invisible to every git diff mode, so a brand-new file
/// would silently not appear. These are their entries, all additions.
pub fn untracked_entries(measured: Vec<(String, Option<(u32, bool)>)>) -> (files: Vec<FileEntry>)
    ensures
        entries_view(files@) == untracked_from(measured_view(measured@)),
{
    let ghost mv = measured_view(measured@);
    let mut files: Vec<FileEntry> = Vec::new();
    let mut k: usize = 0;
    while k < measured.len()
        invariant
            k <= measured.len(),
            mv == measured_view(measured@),
            entries_view(files@) == untracked_from(mv.take(k as int)),
        decreases measured.len() - k,
    {
        assert(mv.take(k + 1).drop_last() =~= mv.take(k as int));
        let ghost before = files@;
        match measured[k].1 {
            Some((lines, binary)) => {
                let e = FileEntry {
                    path: measured[k].0.clone(),
                    old_path: None,
                    status: Status::Untracked,
                    additions: lines,
                    deletions: 0,
                    binary,
                    untracked: true,
                };
                files.push(e);
                assert(entries_view(files@) =~= entries_view(before).push(e@));
            },
            None => {},
        }
        k += 1;
    }
    assert(mv.take(measured.len() as int) =~= mv);
    files
}

/// How much of an untracked file is read to decide whether it is binary, as
/// git decides it from the first few kilobytes.
pub const SNIFF: usize = 8192;

/// The number of line feeds in `b`, counted in 32 bits, wrapping as release
/// builds do.
pub open spec fn newlines(b: Seq<u8>) -> u32
    decreases b.len(),
{
    if b.len() == 0 {
        0
    } else if b.last() == 10 {
        crate::parse::next_no(newlines(b.drop_last()))
    } else {
        newlines(b.drop_last())
    }
}

/// What measuring an untracked file gives, from its first bytes `head`
/// (up to `SNIFF` of them) and the rest: binary when `head` holds a NUL,
/// else the number of its lines, a final line without a line feed counting
/// too.
pub open spec fn measure(head: Seq<u8>, rest: Seq<u8>) -> (u32, bool) {
    if head.contains(0u8) {
        (0, true)
    } else if head.len() == 0 {
        (0, false)
    } else {
        let all = head + rest;
        if all.last() == 10 {
            (newlines(all), false)
        } else {
            (crate::parse::next_no(newlines(all)), false)
        }
    }
}

/// Counts an untracked file's lines without loading it: the first bytes
/// decide whether it is binary, the rest is fed in chunks, so a large text
/// file costs buffer space rather than its own size in memory.
pub struct LineTally {
    binary: bool,
    empty: bool,
    lines: u32,
    last_newline: bool,
    head: Ghost<Seq<u8>>,
    rest: Ghost<Seq<u8>>,
}

impl LineTally {
    /// The first bytes of the file.
    pub closed spec fn head(&self) -> Seq<u8> {
        self.head@
    }

    /// The bytes fed after the first ones.
    pub closed spec fn rest(&self) -> Seq<u8> {
        self.rest@
    }

    /// The counts agree with the bytes seen so far.
    pub closed spec fn wf(&self) -> bool {
        &&& self.binary == self.head@.contains(0u8)
        &&& self.empty == (self.head@.len() == 0)
        &&& !self.binary && !self.empty ==> {
            let all = self.head@ + self.rest@;
            &&& all.len() > 0
            &&& self.lines == newlines(all)
            &&& self.last_newline == (all.last() == 10)
        }
    }

    fn count_into(lines: u32, chunk: &[u8], Ghost(pre): Ghost<Seq<u8>>) -> (n: u32)
        requires
            newlines(pre) == lines,
        ensures
            n == newlines(pre + chunk@),
    {
        let mut n = lines;
        let mut i: usize = 0;
        while i < chunk.len()
            invariant
                i <= chunk.len(),
                n == newlines(pre + chunk@.take(i as int)),
            decreases chunk.len() - i,
        {
            let ghost prev = n;
            if chunk[i] == 10 {
                n = n.wrapping_add(1);
            }
            let ghost cur = pre + chunk@.take(i + 1);
            assert(cur.drop_last() =~= pre + chunk@.take(i as int));
            assert(cur.last() == chunk@[i as int]);
            i += 1;
        }
        assert(chunk@.take(chunk.len() as int) =~= chunk@);
        n
    }

    /// Starts measuring a file from its first bytes.
    pub fn start(head: &[u8]) -> (t: LineTally)
        ensures
            t.wf(),
            t.head() == head@,
            t.rest() == Seq::<u8>::empty(),
    {
        let mut binary = false;
        let mut i: usize = 0;
        while i < head.len()
            invariant
                i <= head.len(),
                binary == head@.take(i as int).contains(0u8),
            decreases head.len() - i,
        {
            if head[i] == 0 {
                binary = true;
            }
            proof {
                let t = head@.take(i + 1);
                assert(t.drop_last() =~= head@.take(i as int));
                if head@[i as int] == 0 {
                    assert(t[i as int] == 0u8);
                }
                if t.contains(0u8) && !head@.take(i as int).contains(0u8) {
                    let w = choose|w: int| 0 <= w < t.len() && t[w] == 0u8;
                    if w < i {
                        assert(head@.take(i as int)[w] == 0u8);
                    }
                }
                if head@.take(i as int).contains(0u8) {
                    let w = choose|w: int| 0 <= w < i && head@.take(i as int)[w] == 0u8;
                    assert(t[w] == 0u8);
                }
            }
            i += 1;
        }
        assert(head@.take(head.len() as int) =~= head@);
        let empty = head.len() == 0;
        let lines = LineTally::count_into(0, head, Ghost(Seq::empty()));
        assert(Seq::<u8>::empty() + head@ =~= head@);
        assert(head@ + Seq::<u8>::empty() =~= head@);
        let last_newline = head.len() > 0 && head[head.len() - 1] == 10;
        LineTally {
            binary,
            empty,
            lines,
            last_newline,
            head: Ghost(head@),
            rest: Ghost(Seq::empty()),
        }
    }

    /// Whether the bytes after the first ones still matter: not for a binary
    /// or an empty file.
    pub fn wants_rest(&self) -> (b: bool)
        requires
            self.wf(),
        ensures
            b == !(self.head().contains(0u8) || self.head().len() == 0),
    {
        !self.binary && !self.empty
    }

    /// Feeds the next chunk of the file.
    pub fn feed(&mut self, chunk: &[u8])
        requires
            old(self).wf(),
        ensures
            final(self).wf(),
            final(self).head() == old(self).head(),
            final(self).rest() == old(self).rest() + chunk@,
    {
        let ghost all = self.head@ + self.rest@;
        if !self.binary && !self.empty && chunk.len() > 0 {
            self.lines = LineTally::count_into(self.lines, chunk, Ghost(all));
            self.last_newline = chunk[chunk.len() - 1] == 10;
        }
        self.rest = Ghost(self.rest@ + chunk@);
        assert(self.head@ + self.rest@ =~= all + chunk@);
        if chunk.len() == 0 {
            assert(all + chunk@ =~= all);
        }
    }

    /// The file's line count and whether it is binary.
    pub fn finish(&self) -> (r: (u32, bool))
        requires
            self.wf(),
        ensures
            r == measure(self.head(), self.rest()),
    {
        if self.binary {
            (0, true)
        } else if self.empty {
            (0, false)
        } else if self.last_newline {
            (self.lines, false)
        } else {
            (self.lines.wrapping_add(1), false)
        }
    }
}

/// Whether `a[i..]` sorts no later than `b[i..]`: character by character,
/// a prefix first. On UTF-8 text this is the byte order that `str::cmp`
/// uses.
pub open spec fn path_le_from(a: Seq<char>, b: Seq<char>, i: int) -> bool
    decreases a.len() - i,
{
    if i < 0 || i >= a.len() {
        true
    } else if i >= b.len() {
        false
    } else if a[i] != b[i] {
        a[i] < b[i]
    } else {
        path_le_from(a, b, i + 1)
    }
}

/// Whether path `a` sorts no later than path `b`.
pub open spec fn path_le(a: Seq<char>, b: Seq<char>) -> bool {
    path_le_from(a, b, 0)
}

/// Where a stable insertion puts `e` in `s`: after every entry that does not
/// sort after it.
pub open spec fn insert_pos(s: Seq<FileEntryView>, e: FileEntryView, i: int) -> int
    decreases s.len() - i,
{
    if i < 0 || i >= s.len() {
        s.len() as int
    } else if !path_le(s[i].path, e.path) {
        i
    } else {
        insert_pos(s, e, i + 1)
    }
}

/// The entries ordered by path, entries with equal paths in the order they
/// came: a stable sort.
pub open spec fn sort_by_path(s: Seq<FileEntryView>) -> Seq<FileEntryView>
    decreases s.len(),
{
    if s.len() == 0 {
        Seq::empty()
    } else {
        let t = sort_by_path(s.drop_last());
        t.insert(insert_pos(t, s.last(), 0), s.last())
    }
}

fn path_le_exec(a: &Vec<char>, b: &Vec<char>) -> (r: bool)
    ensures
        r == path_le(a@, b@),
{
    let mut i: usize = 0;
    while i < a.len()
        invariant
            path_le(a@, b@) == path_le_from(a@, b@, i as int),
        decreases a.len() - i,
    {
        if i >= b.len() {
            return false;
        }
        if a[i] != b[i] {
            return a[i] < b[i];
        }
        i += 1;
    }
    true
}

fn clone_entry(e: &FileEntry) -> (c: FileEntry)
    ensures
        c@ == e@,
{
    let old_path = match &e.old_path {
        Some(o) => Some(o.clone()),
        None => None,
    };
    FileEntry {
        path: e.path.clone(),
        old_path,
        status: e.status,
        additions: e.additions,
        deletions: e.deletions,
        binary: e.binary,
        untracked: e.untracked,
    }
}

proof fn lemma_path_le_total(a: Seq<char>, b: Seq<char>, i: int)
    requires
        0 <= i,
    ensures
        path_le_from(a, b, i) || path_le_from(b, a, i),
    decreases a.len() - i,
{
    if i < a.len() && i < b.len() {
        if a[i] == b[i] {
            lemma_path_le_total(a, b, i + 1);
        }
    }
}

proof fn lemma_path_le_trans(a: Seq<char>, b: Seq<char>, c: Seq<char>, i: int)
    requires
        0 <= i,
        path_le_from(a, b, i),
        path_le_from(b, c, i),
    ensures
        path_le_from(a, c, i),
    decreases a.len() - i,
{
    if i < a.len() && a[i] == b[i] && b[i] == c[i] {
        lemma_path_le_trans(a, b, c, i + 1);
    }
}

proof fn lemma_insert_pos(t: Seq<FileEntryView>, e: FileEntryView, i: int)
    requires
        0 <= i <= t.len(),
    ensures
        i <= insert_pos(t, e, i) <= t.len(),
        forall|k: int| i <= k < insert_pos(t, e, i) ==> path_le(#[trigger] t[k].path, e.path),
        insert_pos(t, e, i) < t.len() ==> !path_le(t[insert_pos(t, e, i)].path, e.path),
    decreases t.len() - i,
{
    if i < t.len() && path_le(t[i].path, e.path) {
        lemma_insert_pos(t, e, i + 1);
    }
}

/// Whether the entries come in path order.
pub open spec fn sorted_by_path(s: Seq<FileEntryView>) -> bool {
    forall|i: int, j: int| 0 <= i < j < s.len() ==> path_le(#[trigger] s[i].path, #[trigger] s[j].path)
}

/// The file list comes in path order, and sorting neither drops nor adds
/// an entry: the sorted list holds exactly the entries it was given.
pub proof fn law_sorted_by_path(s: Seq<FileEntryView>)
    ensures
        sorted_by_path(sort_by_path(s)),
        sort_by_path(s).to_multiset() == s.to_multiset(),
    decreases s.len(),
{
    broadcast use vstd::seq_lib::to_multiset_insert, vstd::seq_lib::to_multiset_build;

    if s.len() == 0 {
        assert(sort_by_path(s).to_multiset() =~= s.to_multiset()) by {
            assert(s =~= Seq::<FileEntryView>::empty());
        }
    } else {
        let t = sort_by_path(s.drop_last());
        law_sorted_by_path(s.drop_last());
        let e = s.last();
        lemma_insert_pos(t, e, 0);
        let p = insert_pos(t, e, 0);
        let r = t.insert(p, e);
        assert(r == sort_by_path(s));
        assert forall|i: int, j: int| 0 <= i < j < r.len() implies path_le(
            #[trigger] r[i].path,
            #[trigger] r[j].path,
        ) by {
            if j < p {
                assert(r[i] == t[i] && r[j] == t[j]);
            } else if j == p {
                assert(r[i] == t[i] && r[j] == e);
            } else if i < p {
                assert(r[i] == t[i] && r[j] == t[j - 1]);
                if i < j - 1 {
                    assert(path_le(t[i].path, t[j - 1].path));
                } else {
                    lemma_path_le_total(t[i].path, t[i].path, 0);
                }
            } else if i == p {
                assert(r[i] == e && r[j] == t[j - 1]);
                lemma_path_le_total(t[p].path, e.path, 0);
                if p < j - 1 {
                    assert(path_le(t[p].path, t[j - 1].path));
                    lemma_path_le_trans(e.path, t[p].path, t[j - 1].path, 0);
                }
            } else {
                assert(r[i] == t[i - 1] && r[j] == t[j - 1]);
            }
        }
        assert(s.drop_last().push(e) =~= s);
    }
}

/// Sorts the entries by path, stably.
pub fn sort_entries(files: &Vec<FileEntry>) -> (r: Vec<FileEntry>)
    ensures
        entries_view(r@) == sort_by_path(entries_view(files@)),
{
    let ghost fv = entries_view(files@);
    let mut keys: Vec<Vec<char>> = Vec::new();
    let mut out: Vec<FileEntry> = Vec::new();
    let mut k: usize = 0;
    while k < files.len()
        invariant
            k <= files.len(),
            fv == entries_view(files@),
            entries_view(out@) == sort_by_path(fv.take(k as int)),
            keys@.len() == out@.len(),
            forall|i: int| 0 <= i < keys@.len() ==> (#[trigger] keys@[i])@ == out@[i].path@,
        decreases files.len() - k,
    {
        let ghost cur = entries_view(out@);
        assert(fv.take(k + 1).drop_last() =~= fv.take(k as int));
        let key = chars_of(files[k].path.as_str());
        // Binary search for the insertion point: `out` is already in order.
        let ghost ek = fv[k as int];
        proof {
            law_sorted_by_path(fv.take(k as int));
            lemma_insert_pos(cur, ek, 0);
        }
        let mut lo: usize = 0;
        let mut hi: usize = out.len();
        while lo < hi
            invariant
                lo <= hi <= out@.len() == keys@.len() == cur.len(),
                cur == entries_view(out@),
                sorted_by_path(cur),
                key@ == ek.path,
                forall|i: int| 0 <= i < keys@.len() ==> (#[trigger] keys@[i])@ == out@[i].path@,
                forall|t: int| 0 <= t < lo ==> path_le(#[trigger] cur[t].path, ek.path),
                forall|t: int| hi <= t < cur.len() ==> !path_le(#[trigger] cur[t].path, ek.path),
            decreases hi - lo,
        {
            let mid = lo + (hi - lo) / 2;
            assert(keys@[mid as int]@ == cur[mid as int].path);
            if path_le_exec(&keys[mid], &key) {
                assert forall|t: int| 0 <= t < mid + 1 implies path_le(#[trigger] cur[t].path, ek.path) by {
                    if t < mid {
                        lemma_path_le_trans(cur[t].path, cur[mid as int].path, ek.path, 0);
                    }
                }
                lo = mid + 1;
            } else {
                assert forall|t: int| mid <= t < cur.len() implies !path_le(#[trigger] cur[t].path, ek.path) by {
                    if t > mid && path_le(cur[t].path, ek.path) {
                        lemma_path_le_trans(cur[mid as int].path, cur[t].path, ek.path, 0);
                    }
                }
                hi = mid;
            }
        }
        let p = lo;
        proof {
            let ip = insert_pos(cur, ek, 0);
            if ip < p {
                assert(path_le(cur[ip].path, ek.path));
            }
            if ip > p {
                assert(path_le(cur[p as int].path, ek.path));
            }
        }
        let e = clone_entry(&files[k]);
        let ghost keys_before = keys@;
        out.insert(p, e);
        keys.insert(p, key);
        assert(entries_view(out@) =~= cur.insert(p as int, fv[k as int]));
        assert forall|i: int| 0 <= i < keys@.len() implies (#[trigger] keys@[i])@ == out@[i].path@ by {
            if i < p {
                assert(keys@[i] == keys_before[i]);
            } else if i > p {
                assert(keys@[i] == keys_before[i - 1]);
            }
        }
        k += 1;
    }
    assert(fv.take(files.len() as int) =~= fv);
    out
}

/// Whether an argument is a flag rather than a revision.
pub open spec fn is_flag(a: Seq<char>) -> bool {
    a.len() > 0 && a[0] == '-'
}

/// The arguments before `--` that may name revisions.
pub open spec fn rev_candidates_of(inv: InvocationView) -> Seq<Seq<char>> {
    split_at_separator(inv.args).0.filter(|a: Seq<char>| !is_flag(a))
}

/// The plumbing command that succeeds exactly when `arg` names a commit.
pub open spec fn rev_check_args(arg: Seq<char>) -> Seq<Seq<char>> {
    seq!["rev-parse"@, "--verify"@, "--quiet"@, arg + "^{commit}"@]
}

/// How many of the answers are yes.
pub open spec fn count_true(bs: Seq<bool>) -> nat
    decreases bs.len(),
{
    if bs.len() == 0 {
        0
    } else {
        count_true(bs.drop_last()) + if bs.last() {
            1nat
        } else {
            0nat
        }
    }
}

/// Whether the right-hand side of the comparison is the working tree, given
/// for each candidate revision whether it names a commit: only for `diff`,
/// never for the index (`--cached`, `--staged`), never for a range (`A..B`,
/// `A...B` compare two commits), and only while fewer than two commits are
/// named.
pub open spec fn worktree_right(inv: InvocationView, is_commit: Seq<bool>) -> bool {
    let head = split_at_separator(inv.args).0;
    &&& inv.subcommand == Subcommand::Diff
    &&& !head.contains("--cached"@)
    &&& !head.contains("--staged"@)
    &&& forall|i: int|
        0 <= i < rev_candidates_of(inv).len() ==> find_from(
            #[trigger] rev_candidates_of(inv)[i],
            ".."@,
            0,
        ) is None
    &&& count_true(is_commit) < 2
}

impl Runner {
    /// The arguments that may name revisions, each to be checked with
    /// `rev_check_command`.
    pub fn rev_candidates(&self) -> (v: Vec<String>)
        ensures
            strings_view(v@) == rev_candidates_of(self.inv@),
    {
        let (head, _) = self.split_pathspec();
        let ghost hv = strings_view(head@);
        let mut v: Vec<String> = Vec::new();
        let mut k: usize = 0;
        while k < head.len()
            invariant
                k <= head.len(),
                hv == strings_view(head@),
                strings_view(v@) == hv.take(k as int).filter(|a: Seq<char>| !is_flag(a)),
            decreases head.len() - k,
        {
            proof {
                let t = hv.take(k + 1);
                assert(t.drop_last() =~= hv.take(k as int));
                assert(t.last() == head@[k as int]@);
                reveal(Seq::filter);
            }
            let a = chars_of(head[k].as_str());
            if !(a.len() > 0 && a[0] == '-') {
                push_clone(&mut v, &head[k]);
            }
            k += 1;
        }
        assert(hv.take(head.len() as int) =~= hv);
        v
    }
}

/// The command that checks whether `arg` names a commit.
pub fn rev_check_command(arg: &str) -> (v: Vec<String>)
    ensures
        strings_view(v@) == rev_check_args(arg@),
{
    let mut v: Vec<String> = Vec::new();
    push_str(&mut v, "rev-parse");
    push_str(&mut v, "--verify");
    push_str(&mut v, "--quiet");
    let mut last = String::from_str(arg);
    last.append("^{commit}");
    push_clone(&mut v, &last);
    assert(strings_view(v@) =~= rev_check_args(arg@));
    v
}

fn contains_str(list: &Vec<String>, x: &str) -> (b: bool)
    ensures
        b == strings_view(list@).contains(x@),
{
    let xv = chars_of(x);
    let mut k: usize = 0;
    while k < list.len()
        invariant
            k <= list.len(),
            xv@ == x@,
            forall|i: int| 0 <= i < k ==> list@[i]@ != x@,
        decreases list.len() - k,
    {
        let a = chars_of(list[k].as_str());
        if same(&a, &xv) {
            assert(strings_view(list@)[k as int] == x@);
            return true;
        }
        k += 1;
    }
    proof {
        if strings_view(list@).contains(x@) {
            let w = choose|w: int| 0 <= w < strings_view(list@).len() && strings_view(list@)[w] == x@;
            assert(list@[w]@ == x@);
        }
    }
    false
}

impl Runner {
    /// Whether the right-hand side of this comparison is the working tree,
    /// which decides whether untracked files belong in the view.
    /// `is_commit[i]` says whether `rev_check_command` succeeded for the
    /// `i`th of `rev_candidates`.
    pub fn worktree_is_right_side(&self, is_commit: &[bool]) -> (b: bool)
        ensures
            b == worktree_right(self.inv@, is_commit@),
    {
        if self.inv.subcommand != Subcommand::Diff {
            return false;
        }
        let (head, _) = self.split_pathspec();
        if contains_str(&head, "--cached") || contains_str(&head, "--staged") {
            return false;
        }
        let cands = self.rev_candidates();
        let dots = chars_of("..");
        let mut k: usize = 0;
        while k < cands.len()
            invariant
                k <= cands.len(),
                dots@ == ".."@,
                strings_view(cands@) == rev_candidates_of(self.inv@),
                forall|i: int|
                    0 <= i < k ==> find_from(
                        #[trigger] rev_candidates_of(self.inv@)[i],
                        ".."@,
                        0,
                    ) is None,
            decreases cands.len() - k,
        {
            let a = chars_of(cands[k].as_str());
            assert(a@ == rev_candidates_of(self.inv@)[k as int]);
            if find(&a, &dots, 0).is_some() {
                return false;
            }
            k += 1;
        }
        let mut n: usize = 0;
        let mut i: usize = 0;
        while i < is_commit.len()
            invariant
                i <= is_commit.len(),
                n == count_true(is_commit@.take(i as int)),
                n <= i,
            decreases is_commit.len() - i,
        {
            assert(is_commit@.take(i + 1).drop_last() =~= is_commit@.take(i as int));
            if is_commit[i] {
                n += 1;
            }
            i += 1;
        }
        assert(is_commit@.take(is_commit.len() as int) =~= is_commit@);
        n < 2
    }
}

/// The file list before sorting: the numstat entries classified by the
/// name-status output when that command succeeded, then the untracked files
/// when they belong.
pub open spec fn listed_files(
    inv: InvocationView,
    numstat: Seq<char>,
    name_status: Option<Seq<char>>,
    worktree_right: bool,
    untracked: Seq<FileEntryView>,
) -> Seq<FileEntryView> {
    let counted = numstat_from(split_on(numstat, '\0'), 0);
    let classified = match name_status {
        Some(t) => apply_statuses(counted, name_status_from(nonempty_pieces(t, '\0'), 0)),
        None => counted,
    };
    classified + if inv.want_untracked && worktree_right {
        untracked
    } else {
        Seq::empty()
    }
}

impl Runner {
    /// The file list, from git's authoritative machine-readable stat output
    /// (counting lines out of the parsed patch would be a second source of
    /// truth), given the outputs of `numstat_command` and
    /// `name_status_command`, whether the working tree is the right side,
    /// and the untracked entries. Sorted by path.
    pub fn file_list(
        &self,
        numstat: &GitOutput,
        name_status: &GitOutput,
        worktree_right: bool,
        untracked: Vec<FileEntry>,
    ) -> (r: Result<Vec<FileEntry>, GitError>)
        ensures
            match r {
                Ok(files) => numstat.success && entries_view(files@) == sort_by_path(
                    listed_files(
                        self.inv@,
                        numstat.stdout@,
                        if name_status.success {
                            Some(name_status.stdout@)
                        } else {
                            None
                        },
                        worktree_right,
                        entries_view(untracked@),
                    ),
                ),
                Err(e) => !numstat.success && e.message@ == "git command failed"@ && e.stderr@
                    == numstat.stderr@,
            },
    {
        if !numstat.success {
            return Err(
                GitError {
                    message: String::from_str("git command failed"),
                    stderr: numstat.stderr.clone(),
                },
            );
        }
        let mut files = parse_numstat_z(numstat.stdout.as_str());
        classify(&mut files, name_status);
        if self.inv.want_untracked && worktree_right {
            let mut extra = untracked;
            let ghost a = entries_view(files@);
            let ghost b = entries_view(extra@);
            files.append(&mut extra);
            assert(entries_view(files@) =~= a + b);
        } else {
            assert(entries_view(files@) =~= entries_view(files@) + Seq::<FileEntryView>::empty());
        }
        Ok(sort_entries(&files))
    }
}

/// The revision that `show` displays: the first argument before `--` that
/// is not a flag, or `HEAD`.
pub open spec fn shown_rev(inv: InvocationView) -> Seq<char> {
    if rev_candidates_of(inv).len() > 0 {
        rev_candidates_of(inv)[0]
    } else {
        "HEAD"@
    }
}

/// The plumbing command that describes the shown commit, fields separated
/// by NUL: sha, author, date, subject, body, parents.
pub open spec fn commit_meta_args(inv: InvocationView) -> Seq<Seq<char>> {
    seq!["show"@, "-s"@, "--format=%H%x00%an%x00%aI%x00%s%x00%b%x00%P"@, shown_rev(inv)]
}

/// A commit's description over character sequences.
pub struct CommitMetaView {
    pub sha: Seq<char>,
    pub author: Seq<char>,
    pub date: Seq<char>,
    pub subject: Seq<char>,
    pub body: Seq<char>,
    pub merge: bool,
}

impl View for CommitMeta {
    type V = CommitMetaView;

    open spec fn view(&self) -> CommitMetaView {
        CommitMetaView {
            sha: self.sha@,
            author: self.author@,
            date: self.date@,
            subject: self.subject@,
            body: self.body@,
            merge: self.merge,
        }
    }
}

/// The commit described by the output of `commit_meta_args`: a missing
/// field is empty, the body loses its trailing whitespace, and more than one
/// parent makes a merge.
pub open spec fn meta_of(raw: Seq<char>) -> CommitMetaView {
    let parts = split_on(raw, '\0');
    CommitMetaView {
        sha: field_or_empty(parts, 0),
        author: field_or_empty(parts, 1),
        date: field_or_empty(parts, 2),
        subject: field_or_empty(parts, 3),
        body: trim_end(field_or_empty(parts, 4)),
        merge: words_of(field_or_empty(parts, 5)).len() > 1,
    }
}

fn field_exec(parts: &Vec<Vec<char>>, k: usize) -> (f: Vec<char>)
    ensures
        f@ == field_or_empty(vecs_view(parts@), k as int),
{
    if k < parts.len() {
        slice_of(&parts[k], 0, parts[k].len())
    } else {
        Vec::new()
    }
}

impl Runner {
    /// For `show`, the command that describes the commit being displayed;
    /// diffuse renders that itself because `--format=` suppresses git's own
    /// header.
    pub fn commit_meta_command(&self) -> (r: Option<Vec<String>>)
        ensures
            match r {
                Some(v) => self.inv.subcommand == Subcommand::Show && strings_view(v@)
                    == commit_meta_args(self.inv@),
                None => self.inv.subcommand != Subcommand::Show,
            },
    {
        if self.inv.subcommand != Subcommand::Show {
            return None;
        }
        let cands = self.rev_candidates();
        let mut v: Vec<String> = Vec::new();
        push_str(&mut v, "show");
        push_str(&mut v, "-s");
        push_str(&mut v, "--format=%H%x00%an%x00%aI%x00%s%x00%b%x00%P");
        if cands.len() > 0 {
            push_clone(&mut v, &cands[0]);
        } else {
            push_str(&mut v, "HEAD");
        }
        assert(strings_view(v@) =~= commit_meta_args(self.inv@));
        Some(v)
    }

    /// The commit being displayed by `show`, from what `plumbing` made of the
    /// output of `commit_meta_command`.
    pub fn commit_meta(&self, raw: Option<String>) -> (r: Option<CommitMeta>)
        ensures
            match r {
                Some(m) => self.inv.subcommand == Subcommand::Show && raw is Some && m@ == meta_of(
                    raw->0@,
                ),
                None => self.inv.subcommand != Subcommand::Show || raw is None,
            },
    {
        if self.inv.subcommand != Subcommand::Show {
            return None;
        }
        let raw = match raw {
            Some(t) => t,
            None => return None,
        };
        let text = chars_of(raw.as_str());
        let parts = split_exec(&text, '\0');
        let sha = field_exec(&parts, 0);
        let author = field_exec(&parts, 1);
        let date = field_exec(&parts, 2);
        let subject = field_exec(&parts, 3);
        let body = trim_end_exec(&field_exec(&parts, 4));
        let parents = words(&field_exec(&parts, 5));
        Some(
            CommitMeta {
                sha: string_from(sha.as_slice()),
                author: string_from(author.as_slice()),
                date: string_from(date.as_slice()),
                subject: string_from(subject.as_slice()),
                body: string_from(body.as_slice()),
                merge: parents.len() > 1,
            },
        )
    }
}

/// The line of an untracked file at index `i` of its `n` lines: an
/// addition numbered `i + 1` (in 32 bits, wrapping as release builds do).
pub open spec fn added_line(content: Seq<char>, i: int, n: int, ends_with_newline: bool) -> LineView {
    LineView {
        kind: LineKind::Add,
        old_no: None,
        new_no: Some(wrap_add(1, i)),
        content,
        no_newline: !ends_with_newline && i + 1 == n,
        words: None,
        syntax: None,
    }
}

/// The synthesized diff of an untracked file, from its path and bytes: a
/// NUL byte makes it binary; otherwise every line is an addition against
/// an empty left side, in one hunk when there are lines.
pub open spec fn untracked_diff_of(path: Seq<char>, bytes: Seq<u8>) -> FileDiffView {
    if bytes.contains(0u8) {
        FileDiffView { path, binary: true, ..empty_file_view() }
    } else {
        let text = utf8_lossy(bytes);
        let ls = lines_of(text);
        let ends = text.len() > 0 && text.last() == '\n';
        let count = wrap_add(0, ls.len() as int);
        let hunks = if count == 0 {
            Seq::empty()
        } else {
            seq![
                HunkView {
                    header: "@@ -0,0 +1,"@ + decimal(count as nat) + " @@"@,
                    old_start: 0,
                    old_lines: 0,
                    new_start: 1,
                    new_lines: count,
                    section: None,
                    lines: Seq::new(ls.len(), |i: int| added_line(ls[i], i, ls.len() as int, ends)),
                },
            ]
        };
        FileDiffView { path, hunks, ..empty_file_view() }
    }
}

fn has_nul(bytes: &[u8]) -> (b: bool)
    ensures
        b == bytes@.contains(0u8),
{
    let mut i: usize = 0;
    while i < bytes.len()
        invariant
            i <= bytes.len(),
            forall|t: int| 0 <= t < i ==> bytes@[t] != 0u8,
        decreases bytes.len() - i,
    {
        if bytes[i] == 0 {
            assert(bytes@[i as int] == 0u8);
            return true;
        }
        i += 1;
    }
    false
}

impl Runner {
    /// Untracked files appear in no git diff, so their patch is
    /// synthesized from the file's bytes: every line is an addition against
    /// an empty left side.
    pub fn untracked_diff(&self, path: &str, bytes: &[u8]) -> (d: FileDiff)
        ensures
            d@ == untracked_diff_of(path@, bytes@),
    {
        if has_nul(bytes) {
            let mut d = FileDiff::default();
            d.path = String::from_str(path);
            d.binary = true;
            return d;
        }
        let text = from_utf8_lossy(bytes);
        let chars = chars_of(text.as_str());
        let ends = chars.len() > 0 && chars[chars.len() - 1] == '\n';
        let ls = lines(&chars);
        let ghost lv = vecs_view(ls@);
        let n = ls.len();
        let count: u32 = ((n as u64) % 0x1_0000_0000) as u32;
        let mut out: Vec<Line> = Vec::new();
        let mut no: u32 = 1;
        let mut i: usize = 0;
        while i < n
            invariant
                i <= n == ls@.len() == lv.len(),
                lv == vecs_view(ls@),
                no == wrap_add(1, i as int),
                lines_view(out@) == Seq::new(i as nat, |t: int| added_line(lv[t], t, n as int, ends)),
            decreases n - i,
        {
            let l = Line {
                kind: LineKind::Add,
                old_no: None,
                new_no: Some(no),
                content: string_from(ls[i].as_slice()),
                no_newline: !ends && i + 1 == n,
                words: None,
                syntax: None,
            };
            let ghost before = out@;
            assert(l@ == added_line(lv[i as int], i as int, n as int, ends));
            out.push(l);
            assert(lines_view(out@) =~= lines_view(before).push(l@));
            assert(lines_view(out@) =~= Seq::new((i + 1) as nat, |t: int| added_line(lv[t], t, n as int, ends)));
            proof {
                lemma_next_no(1, i as int);
            }
            no = no.wrapping_add(1);
            i += 1;
        }
        let mut d = FileDiff::default();
        d.path = String::from_str(path);
        if count != 0 {
            let mut header: Vec<char> = chars_of("@@ -0,0 +1,");
            let digits = decimal_exec(count);
            let mut k: usize = 0;
            let ghost h0 = header@;
            while k < digits.len()
                invariant
                    k <= digits.len(),
                    header@ == h0 + digits@.take(k as int),
                decreases digits.len() - k,
            {
                header.push(digits[k]);
                k += 1;
                assert(header@ =~= h0 + digits@.take(k as int));
            }
            header.push(' ');
            header.push('@');
            header.push('@');
            proof {
                reveal_strlit("@@ -0,0 +1,");
                reveal_strlit(" @@");
                assert(digits@.take(digits@.len() as int) =~= digits@);
            }
            assert(header@ =~= "@@ -0,0 +1,"@ + decimal(count as nat) + " @@"@);
            let h = Hunk {
                header: string_from(header.as_slice()),
                old_start: 0,
                old_lines: 0,
                new_start: 1,
                new_lines: count,
                section: None,
                lines: out,
            };
            let mut hunks: Vec<Hunk> = Vec::new();
            hunks.push(h);
            d.hunks = hunks;
            assert(hunks_view(d.hunks@) =~= untracked_diff_of(path@, bytes@).hunks);
        } else {
            assert(hunks_view(d.hunks@) =~= untracked_diff_of(path@, bytes@).hunks);
        }
        d
    }
}

impl Runner {
    /// The text of an untracked file from its bytes, what could not be
    /// decoded as UTF-8 replaced.
    pub fn read_untracked(&self, bytes: &[u8]) -> (s: String)
        ensures
            s@ == utf8_lossy(bytes@),
    {
        from_utf8_lossy(bytes)
    }
}

/// `git <subcommand> <args>`: the patch of the whole diff, in one stream.
pub open spec fn whole_patch_args(inv: InvocationView) -> Seq<Seq<char>> {
    base_args(inv.subcommand) + inv.args
}

impl Runner {
    /// The command whose output is the whole diff's patch.
    pub fn whole_patch_command(&self) -> (v: Vec<String>)
        ensures
            strings_view(v@) == whole_patch_args(self.inv@),
    {
        let mut v = self.base();
        push_all(&mut v, &self.inv.args);
        v
    }
}

/// The git subcommand a command line runs: what comes after the leading
/// options and `-c <setting>` pairs.
pub open spec fn subcommand_of(args: Seq<Seq<char>>, k: int) -> Seq<char>
    decreases args.len() + 2 - k,
{
    if k < 0 || k >= args.len() {
        Seq::empty()
    } else if args[k] == "-c"@ {
        subcommand_of(args, k + 2)
    } else if args[k].len() > 0 && args[k][0] == '-' {
        subcommand_of(args, k + 1)
    } else {
        args[k]
    }
}

/// The subcommands that only read the repository.
pub open spec fn reads_only(cmd: Seq<char>) -> bool {
    ||| cmd == "diff"@
    ||| cmd == "show"@
    ||| cmd == "ls-files"@
    ||| cmd == "rev-parse"@
    ||| cmd == "symbolic-ref"@
    ||| cmd == "log"@
}

/// diffuse is read-only, permanently: every git command it builds runs a
/// subcommand that only reads. The user's own command can only be `diff` or
/// `show`, the allowlist that keeps `diffuse add .` from touching the
/// repository, whatever arguments follow it; the rest is plumbing.
pub proof fn law_commands_only_read(
    inv: InvocationView,
    path: Seq<char>,
    old_path: Option<Seq<char>>,
    arg: Seq<char>,
)
    ensures
        reads_only(subcommand_of(numstat_args(inv), 0)),
        reads_only(subcommand_of(name_status_args(inv), 0)),
        reads_only(subcommand_of(whole_patch_args(inv), 0)),
        reads_only(subcommand_of(patch_args(inv, path, old_path), 0)),
        reads_only(subcommand_of(untracked_args(inv), 0)),
        reads_only(subcommand_of(commit_meta_args(inv), 0)),
        reads_only(subcommand_of(rev_check_args(arg), 0)),
        reads_only(subcommand_of(seq!["rev-parse"@, "--short"@, "HEAD"@], 0)),
        reads_only(subcommand_of(seq!["symbolic-ref"@, "--short"@, "HEAD"@], 0)),
        reads_only(subcommand_of(seq!["log"@, "-1"@, "--format=%s"@], 0)),
{
    reveal_strlit("-c");
    reveal_strlit("diff");
    reveal_strlit("show");
    reveal_strlit("--literal-pathspecs");
    reveal_strlit("ls-files");
    reveal_strlit("rev-parse");
    reveal_strlit("symbolic-ref");
    reveal_strlit("log");
    let sub = subcommand_name(inv.subcommand);
    let b = base_args(inv.subcommand);
    assert(b[0] == "-c"@ && b[2] == sub);
    if inv.subcommand == Subcommand::Diff {
        assert(sub.len() == 4 && sub[0] == 'd');
    } else {
        assert(sub.len() == 4 && sub[0] == 's');
    }
    assert(sub != "-c"@ && sub[0] != '-');
    assert(subcommand_of(numstat_args(inv), 2) == sub);
    assert(subcommand_of(name_status_args(inv), 2) == sub);
    assert(subcommand_of(whole_patch_args(inv), 2) == sub);
    let pa = patch_args(inv, path, old_path);
    assert(pa[0] == "--literal-pathspecs"@ && pa[1] == "-c"@ && pa[3] == sub);
    assert(subcommand_of(pa, 3) == sub);
    assert(subcommand_of(pa, 1) == sub);
}

/// The number of line feed bytes in `b`.
pub open spec fn feed_bytes(b: Seq<u8>) -> nat
    decreases b.len(),
{
    if b.len() == 0 {
        0
    } else {
        (if b[0] == 10 {
            1nat
        } else {
            0nat
        }) + feed_bytes(b.drop_first())
    }
}

/// The number of line feeds in `s`.
pub open spec fn feed_chars(s: Seq<char>) -> nat
    decreases s.len(),
{
    if s.len() == 0 {
        0
    } else {
        (if s[0] == '\n' {
            1nat
        } else {
            0nat
        }) + feed_chars(s.drop_first())
    }
}

proof fn lemma_feed_bytes_push(b: Seq<u8>, x: u8)
    ensures
        feed_bytes(b.push(x)) == feed_bytes(b) + (if x == 10 {
            1nat
        } else {
            0nat
        }),
    decreases b.len(),
{
    let bx = b.push(x);
    if b.len() > 0 {
        assert(bx.drop_first() =~= b.drop_first().push(x));
        assert(bx[0] == b[0]);
        lemma_feed_bytes_push(b.drop_first(), x);
        assert(feed_bytes(bx) == (if bx[0] == 10 {
            1nat
        } else {
            0nat
        }) + feed_bytes(bx.drop_first()));
        assert(feed_bytes(b) == (if b[0] == 10 {
            1nat
        } else {
            0nat
        }) + feed_bytes(b.drop_first()));
    } else {
        assert(bx.drop_first() =~= Seq::<u8>::empty());
        assert(bx[0] == x);
        assert(feed_bytes(bx.drop_first()) == 0);
        assert(feed_bytes(b) == 0);
    }
}

/// `newlines` is the count of line feeds, wrapped to 32 bits.
proof fn lemma_newlines_count(b: Seq<u8>)
    ensures
        newlines(b) == wrap_add(0, feed_bytes(b) as int),
    decreases b.len(),
{
    if b.len() > 0 {
        lemma_newlines_count(b.drop_last());
        assert(b.drop_last().push(b.last()) =~= b);
        lemma_feed_bytes_push(b.drop_last(), b.last());
        if b.last() == 10 {
            lemma_next_no(0, feed_bytes(b.drop_last()) as int);
        }
    } else {
        assert(wrap_add(0, 0) == 0);
    }
}

proof fn lemma_feed_chars_split(s: Seq<char>, i: int)
    requires
        0 <= i <= s.len(),
    ensures
        feed_chars(s) == feed_chars(s.take(i)) + feed_chars(s.skip(i)),
    decreases i,
{
    if i > 0 {
        lemma_feed_chars_split(s.drop_first(), i - 1);
        assert(s.take(i).drop_first() =~= s.drop_first().take(i - 1));
        assert(s.skip(i) =~= s.drop_first().skip(i - 1));
    } else {
        assert(s.skip(0) =~= s);
        assert(s.take(0) =~= Seq::<char>::empty());
    }
}

proof fn lemma_no_feeds(s: Seq<char>)
    requires
        forall|k: int| 0 <= k < s.len() ==> s[k] != '\n',
    ensures
        feed_chars(s) == 0,
    decreases s.len(),
{
    if s.len() > 0 {
        lemma_no_feeds(s.drop_first());
    }
}

/// `str::lines` yields one line per line feed, and one more for a final
/// line without one.
proof fn lemma_lines_count(s: Seq<char>, i: int)
    requires
        0 <= i <= s.len(),
    ensures
        crate::text::lines_from(s, i).len() == feed_chars(s.skip(i)) + if i < s.len() && s.last()
            != '\n' {
            1nat
        } else {
            0nat
        },
    decreases s.len() - i,
{
    if i < s.len() {
        crate::text::lemma_line_break(s, i);
        let e = crate::text::line_break(s, i);
        let t = s.skip(i);
        lemma_feed_chars_split(t, e - i);
        assert(t.take(e - i) =~= s.subrange(i, e));
        lemma_no_feeds(s.subrange(i, e));
        if e < s.len() {
            lemma_lines_count(s, e + 1);
            assert(t.skip(e - i) =~= s.skip(e));
            assert(s.skip(e).drop_first() =~= s.skip(e + 1));
            assert(s.skip(e)[0] == '\n');
        } else {
            assert(t.skip(e - i) =~= Seq::<char>::empty());
            assert(s.last() == s[s.len() - 1]);
        }
    } else {
        assert(s.skip(i) =~= Seq::<char>::empty());
    }
}

proof fn lemma_decode_feeds(b: Seq<u8>)
    requires
        vstd::utf8::valid_utf8(b),
    ensures
        feed_chars(vstd::utf8::decode_utf8(b)) == feed_bytes(b),
        vstd::utf8::decode_utf8(b).len() == 0 <==> b.len() == 0,
        b.len() > 0 ==> (vstd::utf8::decode_utf8(b).last() == '\n' <==> b.last() == 10),
    decreases b.len(),
{
    if b.len() > 0 {
        let n = vstd::utf8::length_of_first_scalar(b);
        let rest = vstd::utf8::pop_first_scalar(b);
        let c = vstd::utf8::decode_first_scalar(b);
        assert(1 <= n <= b.len());
        assert(rest =~= b.subrange(n, b.len() as int));
        assert(rest.len() < b.len());
        lemma_decode_feeds(rest);
        let dr = vstd::utf8::decode_utf8(rest);
        let d = vstd::utf8::decode_utf8(b);
        assert(d == seq![c as char] + dr);
        assert(d.drop_first() =~= dr);
        assert(d[0] == c as char);
        let x = b[0];
        // Whether the first scalar is a line feed, and what its bytes hold.
        let first_is_feed = x == 10;
        if vstd::utf8::is_leading_byte_width_1(x) {
            assert(x & 0x7f == x) by (bit_vector)
                requires
                    x <= 0x7f,
            ;
            assert(c == x as u32);
            assert(n == 1);
            assert(rest =~= b.drop_first());
            assert((c as char == '\n') <==> first_is_feed);
            assert(feed_bytes(b) == (if first_is_feed {
                1nat
            } else {
                0nat
            }) + feed_bytes(rest));
        } else {
            if vstd::utf8::is_leading_byte_width_2(x) {
                let y = b[1];
                assert(((x & 0x1F) as u32) << 6 | ((y & 0x3F) as u32) <= 0x7FF) by (bit_vector);
                assert(c <= 0x7FF);
            } else if vstd::utf8::is_leading_byte_width_3(x) {
                let y = b[1];
                let z = b[2];
                assert(((x & 0x0F) as u32) << 12 | ((y & 0x3F) as u32) << 6 | ((z & 0x3F) as u32)
                    <= 0xFFFF) by (bit_vector);
                assert(c <= 0xFFFF);
            }
            assert(0x80 <= c <= 0x10ffff);
            assert(!(0xD800 <= c <= 0xDFFF));
            assert(c as char != '\n');
            assert forall|k: int| 0 <= k < n implies b[k] >= 0x80 by {}
            lemma_feed_bytes_skip(b, n);
            assert(feed_bytes(b) == feed_bytes(rest));
            assert(b[n - 1] >= 0x80);
        }
        if rest.len() == 0 {
            assert(d =~= seq![c as char]);
            assert(b.last() == b[n - 1]);
        } else {
            assert(d.last() == dr.last());
            assert(b.last() == rest.last());
        }
    }
}

proof fn lemma_feed_bytes_skip(b: Seq<u8>, n: int)
    requires
        0 <= n <= b.len(),
        forall|k: int| 0 <= k < n ==> b[k] >= 0x80,
    ensures
        feed_bytes(b) == feed_bytes(b.subrange(n, b.len() as int)),
    decreases n,
{
    if n > 0 {
        assert(b.drop_first().subrange(n - 1, b.drop_first().len() as int) =~= b.subrange(
            n,
            b.len() as int,
        ));
        lemma_feed_bytes_skip(b.drop_first(), n - 1);
    } else {
        assert(b.subrange(0, b.len() as int) =~= b);
    }
}

/// For a UTF-8 text file without a NUL byte, the additions the file list
/// shows are the lines its synthesized diff holds: measuring in chunks
/// counts the same lines as decoding the whole file and splitting it, in
/// 32 bits.
pub proof fn law_untracked_count_matches_its_diff(head: Seq<u8>, rest: Seq<u8>)
    requires
        vstd::utf8::valid_utf8(head + rest),
        !(head + rest).contains(0u8),
        head.len() == 0 ==> rest.len() == 0,
    ensures
        measure(head, rest) == (
            wrap_add(0, crate::text::lines_of(vstd::utf8::decode_utf8(head + rest)).len() as int),
            false,
        ),
{
    let all = head + rest;
    let text = vstd::utf8::decode_utf8(all);
    assert(!head.contains(0u8)) by {
        if head.contains(0u8) {
            let w = choose|w: int| 0 <= w < head.len() && head[w] == 0u8;
            assert(all[w] == 0u8);
        }
    }
    lemma_decode_feeds(all);
    lemma_lines_count(text, 0);
    assert(text.skip(0) =~= text);
    lemma_newlines_count(all);
    if head.len() == 0 {
        assert(all =~= Seq::<u8>::empty());
        assert(crate::text::lines_of(text) =~= Seq::<Seq<char>>::empty());
        assert(wrap_add(0, 0) == 0);
    } else {
        let f = feed_bytes(all) as int;
        if all.last() != 10 {
            lemma_next_no(0, f);
        }
    }
}

proof fn lemma_separator_index(args: Seq<Seq<char>>, j: int)
    requires
        0 <= j,
    ensures
        match separator_index(args, j) {
            Some(i) => j <= i < args.len() && args[i] == "--"@ && forall|t: int|
                j <= t < i ==> args[t] != "--"@,
            None => forall|t: int| j <= t < args.len() ==> args[t] != "--"@,
        },
    decreases args.len() - j,
{
    if j < args.len() && args[j] != "--"@ {
        lemma_separator_index(args, j + 1);
    }
}

/// A diff of the index is never against the working tree: where `--staged`
/// or `--cached` stands among the arguments before the first `--`, the
/// working tree is not the right-hand side, whatever the revisions name.
pub proof fn law_index_diff_is_not_worktree(inv: InvocationView, is_commit: Seq<bool>, k: int)
    requires
        0 <= k < inv.args.len(),
        inv.args[k] == "--staged"@ || inv.args[k] == "--cached"@,
        forall|t: int| 0 <= t < k ==> inv.args[t] != "--"@,
    ensures
        !worktree_right(inv, is_commit),
{
    reveal_strlit("--");
    reveal_strlit("--staged");
    reveal_strlit("--cached");
    assert("--"@.len() == 2 && "--staged"@.len() == 8 && "--cached"@.len() == 8);
    assert(inv.args[k] != "--"@);
    lemma_separator_index(inv.args, 0);
    let head = split_at_separator(inv.args).0;
    match separator_index(inv.args, 0) {
        Some(i) => {
            assert(k < i);
            assert(head[k] == inv.args[k]);
        },
        None => {
            assert(head[k] == inv.args[k]);
        },
    }
    assert(head.contains(inv.args[k]));
}

/// Fields joined by NUL bytes, as `git log -z` separates them.
pub open spec fn nul_joined(f: Seq<Seq<char>>) -> Seq<char>
    decreases f.len(),
{
    if f.len() == 0 {
        Seq::empty()
    } else if f.len() == 1 {
        f[0]
    } else {
        f[0] + seq!['\0'] + nul_joined(f.drop_first())
    }
}

proof fn lemma_split_nul_joined(f: Seq<Seq<char>>)
    requires
        f.len() >= 1,
        forall|i: int| 0 <= i < f.len() ==> !(#[trigger] f[i]).contains('\0'),
    ensures
        split_on(nul_joined(f), '\0') == f,
    decreases f.len(),
{
    if f.len() == 1 {
        crate::text::lemma_split_field(f[0], '\0', Seq::empty());
        assert(seq![f[0]] =~= f);
    } else {
        let rest = f.drop_first();
        assert forall|i: int| 0 <= i < rest.len() implies !(#[trigger] rest[i]).contains('\0') by {
            assert(rest[i] == f[i + 1]);
        }
        lemma_split_nul_joined(rest);
        crate::text::lemma_split_field(f[0], '\0', nul_joined(rest));
        assert(seq![f[0]] + rest =~= f);
    }
}

/// The commit shown is read field by field: for a sha, author, date,
/// subject, body and parent list without NUL, joined by NUL bytes as git
/// prints them, the description holds each field as given (the body without
/// its trailing whitespace), and it is a merge exactly when the parent list
/// names at least two parents, so a commit with a single parent is none.
pub proof fn law_commit_meta_fields(f: Seq<Seq<char>>)
    requires
        f.len() == 6,
        forall|i: int| 0 <= i < 6 ==> !(#[trigger] f[i]).contains('\0'),
    ensures
        meta_of(nul_joined(f)) == (CommitMetaView {
            sha: f[0],
            author: f[1],
            date: f[2],
            subject: f[3],
            body: trim_end(f[4]),
            merge: words_of(f[5]).len() >= 2,
        }),
{
    lemma_split_nul_joined(f);
}

/// Only `diff` can compare with the working tree: `show` never does.
pub proof fn law_show_is_not_worktree(inv: InvocationView, is_commit: Seq<bool>)
    requires
        inv.subcommand == Subcommand::Show,
    ensures
        !worktree_right(inv, is_commit),
{
}

} // verus!
