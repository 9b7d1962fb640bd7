# shell

A small interactive Unix shell whose logic is verified with Verus.

- `src/` is the verified library: tokenizing command lines (`tokenize`),
  output redirections (`redirection`), shell variables (`vars`), the command
  history and its file format (`history`), the background job table
  (`jobs`), the builtins and command-line planning (`builtins`), the
  `complete` builtin's registry (`completions`), PATH search (`path`), and
  TAB-completion decisions (`completion`). `text`, `order` and `strmap` hold
  the string helpers, string ordering and sorting, and a string map.
- `app/` is the program around it: the rustyline read loop, files,
  processes, pipes and the terminal.
- `tests/` exercises the library on concrete inputs.
