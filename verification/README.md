# applesauce

Transparent file compression for HFS+/APFS on macOS: a file's data is moved
into compressed blocks stored either in its `com.apple.decmpfs` extended
attribute or in its resource fork, and the file system decompresses it on
read.  Three algorithms are supported: LZFSE (the default), LZVN and ZLIB.

The library in `src/` is verified with Verus:

- `decmpfs`: the 16-byte header of the decmpfs attribute, compression types,
  and the block tables of resource forks.
- `compressor`: the resource-fork layouts of ZLIB and of the LZ algorithms,
  reading and writing their block tables, and the zlib block compressor.
- `writer`, `reader`: building the attribute and resource fork of a file from
  its compressed blocks, and reading the blocks back.
- `info`, `stats`, `xattr`: what decides whether a file can be compressed, and
  the accounting of an operation.
- `pipeline`, `seq_queue`, `progress`, `scan`: the decisions of the threads
  that rewrite files, and the interfaces a user interface implements.
- `path`, `rfork`, `spooled`, `bytes`, `text`, `error`: path shortening for
  display, resource-fork offsets, an in-memory file, byte encodings, the
  texts shown to users, and errors.

`app/` is the command line tool around the library: argument parsing,
progress bars, the threads, and the macOS system calls.  `tests/` holds the
tests of the library.
