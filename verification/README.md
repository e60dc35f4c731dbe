# rust_shell

A small interactive Unix shell whose logic is a library verified with Verus.

- `src/` is the verified library:
  - `parser` splits a command line into words (quotes, escapes, blanks);
  - `shell` decides what a line asks for (exit, `history -r/-w/-a`, pipelines,
    redirections) and keeps the `history -a` marks;
  - `builtin` decides what the builtins `echo`, `type`, `pwd`, `cd`, `cat`,
    `history` and `exit` do and what they write;
  - `pipeline` checks pipelines and plans each stage;
  - `jobs` numbers, polls and lists background jobs;
  - `trie`, `lcp`, `order`, `context` and `completer` implement tab completion of
    command names and paths;
  - `text` and `number` hold the string and decimal helpers they share.
- `app/` is the program: the line editor (rustyline), files, processes and the
  terminal, calling the library for every decision.
- `tests/` exercises the library on concrete inputs.
