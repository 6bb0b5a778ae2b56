# diffuse

A browser-based pager for git's diff output: take any diff-producing `git`
command, replace `git` with `diffuse`, and read the patch in a browser tab.

The decisions are verified with Verus; the process, network and file I/O
around them is ordinary Rust.

- `src/` — the verified library.
  - `cli` — the command-line contract: which flags are diffuse's own, which
    are dropped, and what reaches git.
  - `git` — the git commands diffuse runs and what their output means: the
    file list from `--numstat -z` and `--name-status -z`, untracked files,
    the per-file patch, `HEAD` and commit metadata.
  - `parse` — the unified-diff parser, including combined diffs.
  - `words` — word-level changed ranges between paired lines.
  - `highlight` — syntax classes from the whole file, over `syntect` and
    the grammars `two-face` bundles.
  - `graph` — lane assignment for the commit graph.
  - `server` — the request checks and what each route sends.
  - `model`, `text` — the wire types and the text primitives the rest is
    stated in.
- `app/` — `main`, running git, reading files, and the HTTP server.
- `tests/` — tests of the library.
