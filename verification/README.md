# shellkit

The logic of a small interactive shell, verified with Verus: splitting
command lines into words (quotes, escapes) and redirections, the builtins
`echo`, `exit`, `type`, `pwd`, `cd` and `complete`, the completer scripts
registered with `complete -C`, and tab completion of commands and file names.

- `src/` is the library. Each module states its behaviour over
  mathematical models (`Seq<char>` for strings, `Map` for the registrations)
  and proves it; the laws stand beside the functions they speak of.
- `app/main.rs` is the shell itself: the terminal (rustyline), the file
  system, the environment and the programs it runs.
- `tests/` runs the library on concrete lines.
