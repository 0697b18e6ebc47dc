# spadefmt

A formatter for Spade source code. Its library is verified by Verus against the contracts that its functions state: the printer and resolver exactly, the document builder as far as its contracts go.

## Layout

- `src/` is the verified library:
  - `ast` holds the syntax tree the formatter reads;
  - `comment_insertion` keeps the source's comments and hands each out once;
  - `document` is the interned layout document, its printer and its laws;
  - `buildable` says which trees can be formatted, and `document_builder`
    turns a tree into a document, reporting exactly the others;
  - `resolve` picks a layout for every choice in a document;
  - `format` ties these together, and `config`, `cli` and `exit` hold the
    settings, the choice of output mode and the exit codes.
- `app/` is the command-line program: it reads files, calls the Spade
  parser, converts its tree, prints diagnostics and writes the results.
- `tests/` exercises the library on hand-built trees.

Run `spadefmt --help` for usage. Exit codes: 0 formatted, 1 `--check` found
a file that would change, 2 usage, IO or config error, 3 parse error,
4 a construct that cannot be formatted yet.
