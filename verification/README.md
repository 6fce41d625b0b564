# resonate-library

The catalog logic of a music player, written in Verus: what the library
decides about the files, playlists and lookups it keeps, stated in contracts
the verifier proves. The progress counters are the exception: they are
shared atomics, and their contracts say nothing of the numbers read.

- `src/` is the verified library. Each module opens with what it covers:
  naming layouts and planning the moves that file each track or each group
  a cue sheet ties together (`organise`, `mounts`, `moves`), playlists, the
  rows an import brings that are not held already, and the M3U and PLS
  sheets they are read from (`playlist`, `sheet`), what a lookup against
  MusicBrainz takes and how a pass asks it step by step
  (`enrich`, `asking`, `sought`, `enriched`, `elsewhere`, `fingerprint`), why
  an enrichment ended (`progress`), which copies of a song are one
  (`alternatives`), what a retagging writes (`retag`), the order an import
  weighs its work in (`import`), and the queries the catalog is read with
  (`query`, `db`). `hashed` declares the `ahash` sets and maps the logic
  keeps what it has seen in; `text` and `fold` hold the text handling,
  including the calls into `unicode-normalization`.
- The catalog store itself (the SQLite-backed `Library` and its methods
  that read and write the catalog) is not here, nor is the scanning of
  folders: they are input and output. The library holds the decisions
  made around them, such as the columns a pane is read by and what a kept
  queue resumes once read back.
- `tests/` runs the library on concrete values.
- `app/` is ordinary Rust around it: the library's faults as a standard
  error, the questions an organise asks of the file system, and the loops that
  make the lookups the library names and hand the answers back.
