# domino

Finds the projects of a monorepo that a change affects, and says why.

A changed file affects the projects that own it. Where it is a source file, the
symbols on its changed lines are traced: through the declarations of its file that
refer to them, through its exports, and through the references in other files, each
of which affects the projects of the file it stands in. Assets, lockfiles, implicit
dependencies and global triggers count as well.

- `src/` is the library. It reads no files and starts no processes: sources,
  changed lines, resolved specifiers and references in other files are handed to it
  as plain values, and where it needs more in the middle of an analysis it asks.
  Every function states what it computes, and Verus proves it. `laws.rs`,
  `reach.rs`, `ending.rs`, `explained.rs`, `membership.rs` and `strategies.rs` state
  what holds of an analysis as a whole.
- `tests/` runs the library on small workspaces.
- `app/` reads a workspace from disk, resolves specifiers, runs an analysis, and
  offers it to JavaScript.

What is believed without proof stands in three places: the hash collections and the
sort in `src/fx.rs`, the syntax trees in `src/semantic/syntax.rs`, and the removal of
comments in `src/semantic/tsconfig_paths.rs`, besides `String::push` in
`src/text.rs`.
