use sudoku_lint::{is_solvable, lint, parse_row, Row};

const CLEAN_BOARD: &str = "\
534678912
672195348
198342567
859761423
426853791
713924856
961537284
287419635
345286179
";

// Row 0 fills cols 0-7 with 1-8, leaving only col 8 open, which needs a
// 9 to complete the row. Row 1 places a 9 in that same column, so the
// one open cell in row 0 can never take the digit it needs.
const UNSOLVABLE_BOARD: &str = "\
12345678.
........9
.........
.........
.........
.........
.........
.........
.........
";

#[test]
fn a_solved_board_is_solvable() {
    let rows: Vec<Row> = CLEAN_BOARD
        .lines()
        .map(|line| parse_row(line, 9).unwrap())
        .collect();
    assert!(is_solvable(&rows, 3));
}

#[test]
fn an_empty_board_is_solvable() {
    let empty_row = parse_row(".........", 9).unwrap();
    let rows: Vec<Row> = vec![empty_row; 9];
    assert!(is_solvable(&rows, 3));
}

#[test]
fn a_board_with_no_solution_is_rejected() {
    let rows: Vec<Row> = UNSOLVABLE_BOARD
        .lines()
        .map(|line| parse_row(line, 9).unwrap())
        .collect();
    assert!(!is_solvable(&rows, 3));
}

#[test]
fn lint_flags_an_unsolvable_board() {
    let findings = lint(UNSOLVABLE_BOARD);
    assert_eq!(findings.len(), 1);
    assert_eq!(findings[0].line, 9);
    assert!(findings[0].message.contains("no valid solution"));
}
