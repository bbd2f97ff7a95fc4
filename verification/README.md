# There Can Only Be One

A verified library that finds files with identical contents, and `tcobo`, a
command-line program around it. The program reads and reports; it never changes
or deletes a file.

A scan runs in passes:

1. Bucket the files of a walk by size. Files below the size floor are ignored,
   and of several names for one physical file only the last is kept. All files
   of one size are sampled to one length, wherever they lie.
2. Hash a small sample of every file that shares its size with another, and
   bucket by size and digest. A file whose size is its own is never read.
3. Hash what is left in full, and split each bucket by that digest. A file that
   its sample covered is not read a second time.
4. Report the buckets of more than one file: paths in order within each group,
   largest files first.

## Layout

- `src/dedupe.rs`: the passes. The engine plans what has to be read and sorts
  what came back; the caller reads the files.
- `src/digest.rs`: hashing a region of a stream, piece by piece.
- `src/globs.rs`, `src/paths.rs`, `src/platform.rs`: exclude globs, the order of
  paths, and how much of a file is sampled.
- `src/order.rs`, `src/sort.rs`: orders, a stable sort, and bucketing by key.
- `src/output.rs`, `src/text.rs`: listings, progress lines, the log, and the
  report that is serialized.
- `src/laws/`: what holds of the walk, of every report and of a scan as a whole.
- `app/`: the command line, the directory walk, reading files in parallel, and
  printing.

## What is proved

Where files are read faithfully and BLAKE3 does not collide on the files
scanned, a scan reports exactly the sets of several readable kept files that hold
the same, each of them whole, wherever the samples are taken
(`src/laws/scan.rs`). Collisions or not, no two identical files are missed, and
the files of a group agree in size and in the hashes of sample and contents.

Taken on trust are BLAKE3, the matching of globs, and the way in which the
platform splits and prints paths; each such item says what it claims.
