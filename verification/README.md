# helix_workspace

The workspace side of a terminal editor, verified with Verus: the file tree
sidebar, per-workspace sessions, the command line, layered configuration and
the directories that all of these live in.

## What is proved

Every function of the library has a contract over mathematical models (the
texts and components of paths, the flattened file tree, TOML values as trees
and maps, layouts as trees of views), and Verus proves that it keeps it. Laws
that relate several functions stand beside them as `law_...` proof functions:
that a tree goes on displaying what is on disk whatever key is pressed, that a
closed tree reopens where it was, that the highest layer of a configuration
wins, that a layout is restored view by view, and others.

## Layout

- `src/text.rs`, `order.rs`, `sort.rs`, `path.rs`, `path_set.rs`,
  `normalize.rs`: texts, orders, stable sorting and paths
- `src/entry.rs`, `file_tree.rs`, `navigate.rs`, `marks.rs`, `events.rs`,
  `key.rs`, `prompt.rs`, `render.rs`: the file tree
- `src/forest.rs`: the file tree as a view of the directories on disk
- `src/value.rs`, `document.rs`, `layers.rs`, `config.rs`, `lang_config.rs`:
  TOML values, and how layers of them are merged
- `src/disk.rs`, `dry_run.rs`, `loader.rs`: directories, and what a dry run
  reports of them
- `src/args.rs`: the command line
- `src/session.rs`, `layout.rs`, `restore.rs`: sessions
- `app/`: the file system, the environment and the editor around the library
- `tests/`: tests of the library from outside

The library reads nothing by itself. What it needs to know of the file system
comes as a value (`Disk`, `Listings`), and what is to be done there goes back
as one.

## What is trusted

Calls into other crates stand behind small items whose contracts are believed:
parsing TOML and opening up its values (`document.rs`), the display width of a
text (`file_tree.rs`), a table that keeps its order (`args.rs`), and a few
functions of the standard library on characters and strings (`text.rs`). Each
says above it what it claims.
