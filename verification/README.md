# chronicle

A small version control system. Objects (blobs, trees, commits) are stored
zlib-compressed under the lowercase hex SHA-1 of their text, in
`.chronicle/objects/<first two hex digits>/<rest>`. Every object's text opens
with the prefix `<type> <size>\0\n`. The index records, for each staged file,
the hash of its contents, its size and its modification time; a commit builds
the tree of the staged files and a commit object that points at its root.
Two trees compare equal when they hold the same files, with the same hashes,
and the same directories, whatever order these were added in.

- `src/` is the library, written in Verus: every function there carries a
  contract that Verus checks. The calls into `sha1`, `hex`, `flate2` and
  `rand`, and a few std calls, stand behind small trusted wrappers whose doc
  comments say what is assumed of them.
- `app/` is the command-line program: argument parsing (clap), the index file
  (serde_json), and all file-system work.
- `tests/` exercises the library on concrete values.
