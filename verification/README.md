# depot

A small content-addressed file tracker in the spirit of the first version of
git, written in Verus.

- `src/` is the verified library: hexadecimal object names (`hex`), the
  sorted index and its binary search (`cache`), the index file format with its
  SHA-1 checksum (`index_file`), blob, tree and commit objects (`object`,
  `commit`), number encodings (`encoding`), metadata comparison and diffs
  (`diff`), and the trusted calls into `flate2`, `sha1`, `similar` and std
  (`external`).
- `app/` is the command-line program (`init`, `add`, `diff`, `write-tree`,
  `read-tree`, `commit-tree`): file and memory-map I/O around the library.
- `tests/` exercises the library on concrete values.
