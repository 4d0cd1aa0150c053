# cmdrepl

A toolkit for interactive command shells, verified with Verus.

`src/` is the library. A shell is described as a tree of commands and groups
(`repl.rs`): each command has parameters (free strings, a choice of words, or a
boolean given by one of two words) and a callback. Building the tree gives the
selection tree that lines are parsed against and the table of callbacks by
command path (`callbacks.rs`), plus, with help enabled, a help list and a
`help` entry. A line is split into tokens (`tokenizer.rs`), parsed against the
tree (`parser.rs`) into the command path and its arguments (`args.rs`), and
`session.rs` decides what to do with it: run a callback, show help
(`help.rs`), report an error or stop. `completion.rs` offers tab completion.
`paths.rs` proves which lines reach a callback.

`app/` is the terminal front end: it reads lines with rustyline, prints with
colored, and carries out what the library decides.
