# rv

Core of a terminal browser for git commits: a commit list, the tree of a
commit's changed files, and side-by-side diffs. The library in `src/` is
verified with Verus; `app/` is the terminal front end (git processes,
crossterm events, ratatui drawing) around it.

- `scroll`: cursor and window of a scrollable list.
- `text`: characters, trimming and lines of text.
- `git`: commits, changed files and the reading of `git diff --name-status`.
- `diff`: unified diff hunks read into side-by-side rows.
- `tree`: the directory tree of changed files, its rows, collapsing and expanding.
- `app`: the three panels and how keys change them.
- `ui`: gutters, cells and labels the panels draw.
- `error`: what can go wrong.
