# albumfs

A read/write filesystem that lives in the low bits of a pool of photos,
written in Verus: the library is specified with `requires`/`ensures`
contracts and proved.

Layout:

- `src/stego/` — carrier codecs: PNG (one bit per red, green and blue
  channel) and JPEG (nonzero AC coefficients), the chunk header, and the
  keyed embedding order.
- `src/fs/` — the block store over a pool of carriers (plaintext or
  per-block XChaCha20-Poly1305), the superblock and manifest, the bitmap,
  inodes with direct, single- and double-indirect pointers, directory
  records, formatting and opening, statistics, and the decisions of the
  kernel adapter.
- `src/primitives.rs` — the calls into the hashing, key-derivation,
  encryption and randomness crates, each with the contract the library
  relies on.
- `app/` — the command line: reading and writing image files, the FUSE
  mount, and the statistics report.
- `tests/` — scenarios run against the compiled library.
