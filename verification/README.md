# xiv_core

Verified core of a FINAL FANTASY XIV patch toolkit: it reads ZiPatch files, keeps what
each patch writes as a LUT, folds LUTs into CLUTs (per-version lookup tables of where
every byte of an install comes from), diffs two installs, plans the ranged downloads a
diff needs, and keeps the repository index that lists every patch.

The library in `src/` is written in Verus: every function carries a contract over
mathematical models (sequences, maps and views of the types), and the laws the format
promises (a written file reads back to what was written, merged ranges keep every
reference, and so on) are stated as proof functions beside the code they describe.
Compression, checksums and HTTP header parsing are done by established crates
(`flate2`, `brotli`, `zstd`, `crc32fast`, `http-content-range`), each behind a small
trusted wrapper whose contract states or names what it returns.

Layout:

- `src/zipatch.rs`, `src/chunk.rs`: the ZiPatch format and its chunks.
- `src/lut.rs`, `src/clut_*.rs`, `src/data_ref.rs`, `src/file_data.rs`: LUT and CLUT
  files, eager and lazy readers, the builder, the rewrite into the indexed format.
- `src/rewrite_laws.rs`, `src/lazy_laws.rs`: what reading back a rewritten CLUT gives,
  through either reader, and what the lazy reader agrees on with the eager one.
- `src/diff.rs`, `src/download.rs`, `src/ref_groups.rs`, `src/plan.rs`,
  `src/batching.rs`: what a download run fetches and writes, and how queued requests
  are grouped.
- `src/index.rs`, `src/chain.rs`, `src/liveness.rs`, `src/poll.rs`, `src/discover.rs`,
  `src/coverage.rs`: the repository index, patch chains, and the checks run on them.
- `app/`: the command line front end (file I/O, JSON through serde).
- `tests/`: tests run against the compiled library.
