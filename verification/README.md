# git-rs

A small implementation of Git's object storage engine: blobs, trees and
commits framed as `"<kind> <size>\0<content>"`, named by their SHA-1,
stored zlib-compressed under `.git/objects/xx/yyyy…`, plus the `HEAD` and
branch references.

## Layout

- `src/` — the library, verified with Verus. It computes everything that goes
  to or comes from the disk: object framing and parsing (`object`), tree
  sorting and serialization (`tree`), commit text (`commit`), the identity
  fallback (`config`), reference parsing and updates (`refs`), path joining
  (`paths`), decimal and hexadecimal encodings (`encoding`), the
  `cat-file` flag rule (`commands`), the directory walk that snapshots a
  working tree as a state machine (`walk`: what to do with each listed entry,
  closing each directory into its tree after its children), and what a whole
  walk computes (`snapshot`: the root tree's name, which depends on what the
  directory holds and not on the order of any listing). Calls into `sha1`, `flate2`, `hex` and a
  few std functions sit in `outside`, each with the contract the rest relies
  on.
- `app/` — the `git-rs` command-line program: argument parsing (`clap`),
  reading `.git/config` (`toml`, `serde`), listing directories and reading
  files for the walk, and writing objects and references to disk.
- `tests/` — tests of the library.

The library treats paths as Unix paths: `/`-separated text, joined as
`Path::join` joins them on Unix.
