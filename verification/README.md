# sudoku_lint

A linter for plain-text sudoku boards (9x9, and 16x16 with `A`-`G` for
10-16), written in Verus: every function of the library but one carries a
contract that Verus proves. The exception is `push_char` in `src/text.rs`,
a one-line call of std's `String::push` whose contract (the string gains the
character at its end) is taken on trust. The proofs also rest on vstd's own
specifications of the std functions it uses (`str::chars`,
`str::to_owned`, `Vec` operations and appending a `&str` to a `String`).

- `src/text.rs` reads a `str` as characters, trims white space, splits lines
  as `str::lines` does, and writes decimal numbers.
- `src/row.rs` parses one row of cells and renders digits.
- `src/dups.rs` finds repeated digits in a row, in columns and in boxes.
- `src/solver.rs` decides by backtracking whether a board can be completed,
  proved sound and complete against the definition of a completion.
- `src/finding.rs` holds findings, their stable order by line, and their JSON
  form.
- `src/lint.rs` lints one board and a whole file of boards; its proof
  functions state that findings come out in line order on data lines, that
  a board gets no findings exactly when it is sound, and how its findings
  are made up.
- `src/messages.rs` proves, from the wording of the messages, that a
  board's "duplicate digit" findings are exactly what the three duplicate
  finders report, and that only a missing-rows message speaks of rows found.
- `src/shift.rs` proves that a leading blank or comment line, or another
  file joined in front, only moves the findings down.
- `app/main.rs` is the command-line program: it reads the file and prints the
  findings, as text or as JSON (`--json`).
