# mox

A Git-like version control tool for game mod folders: files are stored once
per content (BLAKE3), snapshots ("commits") live in a local SQLite database,
and profiles ("branches") point at snapshots.

- `src/` is the library: the ignore rules, the ordering and hashing of a
  commit, the decision to refuse an unchanged commit, the status scan (modified,
  deleted and untracked files) and the clean plan (remove untracked files,
  restore changed or missing committed files from the store), the profile list, checkout resolution and the
  history display, each with its contract, plus the laws that relate them.
- `app/` is the command-line program around it: argument parsing, the
  database queries and transactions, the directory walk, file reads, copies
  and links, and printing.

Files are named relative to the repository root by the components of their
paths joined with `/`, on every platform, so that the names the walk gives,
the names stored at `add` and the names in commits agree.
