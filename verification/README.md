# shell

A small interactive POSIX-like shell: builtins (`exit`, `echo`, `pwd`, `cd`, `type`,
`complete`, `jobs`, `history`), external commands with output redirection (`>`, `1>`,
`2>`, `>>`, `1>>`, `2>>`), background jobs (`&`), pipelines (`|`) and tab completion of
command names, file names and, through `complete -C`, of arguments by a script.

## Layout

- `src/` is the library, verified with Verus. It decides, from plain values, how a
  line is split into words, what a command line asks for,
  what each builtin prints or asks the shell to do, how background jobs are numbered
  and reported, how the history is listed and saved, and what a tab press completes.
  - `parser.rs`: splitting a line into words (quotes and backslashes).
  - `trie.rs`: the prefix tree of command names.
  - `command.rs`: reading a command line into a plan; running a builtin.
  - `builtins.rs`, `jobs.rs`, `history.rs`: the builtins and the state they keep.
  - `redirect.rs`: where output goes under a redirection.
  - `completion.rs`: tab completion, as steps the shell carries out.
  - `executable.rs`: the parts of the `PATH` search that do not touch the disk.
  - `text.rs`: character-level helpers.
- `app/` is the program around it: the line editor (rustyline), processes, files and
  the terminal. It asks the library what to do and does it; it stops a run of piped
  commands at the first one that `PATH` does not have.
- `tests/` runs the library on concrete inputs.
