# tig

A small git-like version control system. The library in `src/` holds its
logic, each function with a contract that Verus proves; the program in
`app/` reads and writes the files around it.

- `src/models/objects*`: the stored objects (blobs, trees, commits), their
  framing `<type> <length>\0<content>`, their hash (the SHA-1 of that
  frame, as git computes it), git's tree entry format and order, and how
  stored objects are read back.
- `src/utils/`: the line diff (Hirschberg's LCS algorithm), ignore rules,
  HEAD and branch files, configuration keys, zlib and hashing through
  trusted wrappers of `flate2`, `sha1_smol`, `hex` and `rust-ini`.
- `src/commands/`: the arguments and decisions of each command.
- `app/`: the command line, the file system and the terminal.
