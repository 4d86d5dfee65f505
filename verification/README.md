# Tandem

Tandem gives agents on different machines real local working copies backed by one
shared [Jujutsu](https://jj-vcs.github.io/jj/latest/) repository. Objects, operations
and operation heads live behind an authenticated HTTP server. The library also decides
how a publish goes through a write-ahead log in a bucket before it is applied, and how a
server comes back from that log.

- `src/` is the library: every decision and every format, in Rust verified with
  [Verus](https://verus-lang.github.io/verus/). It does no I/O.
- `tests/` runs the library on concrete values, with the real outside crates.
- `app/` is the program around it: the command line, the HTTP server and client, the
  control socket, jj's store traits, and the files on disk. It has no bucket: its server
  keeps the repository on its own disk. Nor does it have a cache, or rules for what a
  workspace token may change, so it refuses what such a token publishes.

## What is proved

- Formats read back: hex, WAL entries, the index, batch frames, entity tags, trees,
  commits, operations and views come out of their bytes as they went in, and frames and
  entries that are accepted are exactly the ones that would be written.
- Bytes in, bytes out: what a client writes in a batch, under whatever backend, is what
  another client reads and what a replay writes.
- The heads move by compare-and-swap: of two publishes from one version one wins, the
  other wins the next time unless somebody was faster again, a publish moves one
  workspace, and heads that it does not name stay.
- A publish is durable before it is applied. Wherever it is cut off, recovery leaves
  either the state before it or the state after it.
- No upload is stranded: whatever happens to the publishes, an object is staged, on its
  way in an entry, or in an entry that the index names.
- One workspace has one writer until its hold runs out, and no handler runs for a
  request whose bearer is not known.
- A server in the background shows its admin token unless one was supplied.
- A publish is only built on history that the server serves, which holds nothing but
  operations that were accepted, and the base it is measured against is the closest one.

## What is trusted

Calls into `prost`, `serde_json`, `jj-lib` and the standard library stand behind small
functions whose contracts are believed. Each of them names the function it calls and
says what it claims of it.
