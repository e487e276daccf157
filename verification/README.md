# diskard

A terminal disk usage analyzer: it scans a directory tree in parallel, lists
each directory's contents largest first, breaks a directory down by file
extension, and moves items to the trash or deletes them, keeping the sizes
of every directory above them up to date.

The library under `src/` is verified with Verus:

- `arena.rs`: the `boxcar` vectors that hold the tree's nodes and each node's
  children, seen through the sequences they hold.
- `tree.rs`: the directory tree, its well-formedness, adding nodes and
  deleting subtrees.
- `trav.rs`: what a directory scan records in the tree, and the errors.
- `consistency.rs`: directory sizes that agree with their contents, and why
  deleting an item keeps them so.
- `listing.rs`: the live children of a directory, largest first.
- `filetype.rs`, `counts.rs`, `totals.rs`: the breakdown by extension, the
  number of files below each directory, and why both add up.
- `size_text.rs`, `display.rs`: sizes as text, and what the screens show.
- `app.rs`: the browser's state and how each key changes it.

`app/` is the program around it: reading directories, drawing with
`ratatui`, reading keys with `crossterm`, and removing files with `trash`.

Usage: `diskard [path]` (the current directory when no path is given).
