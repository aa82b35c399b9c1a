# mvsqlite

The logic of a multi-version page store that runs on an ordered key-value database, written in
Rust and verified with Verus.

- `src/` is the library. It decides and computes: which pages of a batch have to be stored, what
  a transaction asks the store for, what a commit hands over and what its outcome means, who may
  use a namespace, how pages of an overlay base show through, how long to hold a commit back, and
  what the benchmark and the stress test do. A function states in its contract what it
  returns. Where chance or the clock decides, it states what holds of every outcome, and a
  function beside it that takes the draw or the time as an argument states the rest. Public proof
  functions state what holds across functions.
- `src/outside.rs` holds the calls into other crates, with the contracts that are taken for
  granted about them.
- `tests/` runs the library on concrete values.
- `app/` is the code around the library: FoundationDB, caches, threads, the command line. It is
  generic over an `Engine`, which supplies the layout of keys and the encoding of contents.

The library never performs I/O. A step that needs the database is split in two: the library hands
out what to do, and takes in what came of it.
