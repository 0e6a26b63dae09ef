# LiteSDB core

The storage core of LiteSDB, a database for sparse time series, written in Rust and verified with
Verus. Every function under `src/` states what it returns or changes, and is proved to do so.

## Layout

- `src/types.rs`, `src/limits.rs`, `src/options.rs`, `src/error.rs`: identifiers, values, budgets,
  options and errors.
- `src/manifest/`: the catalog. What a valid catalog is, how it is written to bytes and read back,
  and which catalog may follow which.
- `src/tail.rs`, `src/unit.rs`: what the log holds behind the catalog, and how units are read.
- `src/query/`: point lookups, scans and samples over units, tail and retention heads. `meaning.rs`
  says what a stream is; the other modules are proved against it. `walk.rs`, `alike.rs` and
  `regrid.rs` say what scans, lookups and samples promise of stores that are less than sound.
- `src/retention/`: the heads that stand for expired units, and the fold that makes them.
- `src/db.rs`, `src/maintenance.rs`, `src/scheduler.rs`, `src/files.rs`, `src/lifecycle.rs`: sealing,
  compaction, retention, and which files are needed before and after each of them. `src/upkeep.rs`
  says what each of them, and a round of maintenance, does as a whole, and `src/handover.rs` what
  retention promises of stores that are less than sound.
- `src/shared_wal/`: one write-ahead log for many databases. Frames, segments, appending, batches,
  reclaiming, recovery, membership and archives. `reopen.rs` shows that a log that is opened again is
  the log that was written, `history.rs` that this stays so through everything that happens to it,
  and `rescan.rs` that a damaged log is recovered to the same state as often as it is opened.
- `app/`: the file work around the library: directories, locks, publication, loading and the loops
  that carry out what the library decides.
- `tests/`: scenarios, run against in-memory stores.

## Deciding and doing

The library does no I/O. An operation that has to touch the disk is decided in steps: the library
says what to write, the embedding program writes it, and the new state is installed only then. Work
on the log comes back as a list of actions that are performed in order.

## What is trusted

Three functions outside this crate are believed to do what their documentation says:
`crc32fast::hash`, `sha2::Sha256::digest` and `core::str::from_utf8`. Each has one wrapper, in
`src/checksum.rs` or `src/text.rs`, and its comment says what is claimed of it.

Checksums and digests are only named, not described: that a changed file is found out is not proved,
only that it is accepted exactly when its checksum agrees.
