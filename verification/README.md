# tinygit

A small git implementation whose object formats and transfer protocol are
verified with Verus.

- `src/` is the verified library: the "<kind> <length>\0" framing of loose
  objects, blobs and commits (`object`), reading tree objects the way
  `ls-tree` lists them (`tree`), writing trees from directory listings
  (`tree_write`), pkt-lines (`pkt`), git deltas (`delta`), pack files
  (`pack`), and the steps of a clone (`clone`). `external` holds the calls
  into sha1, flate2, hex and the standard library, with the contracts that
  the rest of the library relies on.
- `app/` is the command line: argument parsing, the `.git` directory on
  disk and the HTTP requests of `clone`.
- `tests/` runs the library on concrete values.
