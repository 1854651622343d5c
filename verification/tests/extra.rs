use sudoku_lint::finding::escape_json_string;
use sudoku_lint::lint::{detect_board_kind, lint_board};
use sudoku_lint::row::parse_cell;
use sudoku_lint::solver::{is_safe, solve};
use sudoku_lint::{
    find_box_duplicates, find_column_duplicates, find_duplicates, findings_to_json,
    is_ignorable_line, is_solvable, lint, parse_row, Finding, Row, Severity,
};

const CLEAN_BOARD: &str = "\
534678912
672195348
198342567
859761423
426853791
713924856
961537284
287419635
345286179
";

#[test]
fn blank_and_comment_lines_are_ignorable() {
    assert!(is_ignorable_line(""));
    assert!(is_ignorable_line(" \t \r"));
    assert!(is_ignorable_line("   # a note"));
    assert!(is_ignorable_line("\u{3000}\u{a0}"));
    assert!(!is_ignorable_line(" 123456789"));
    assert!(!is_ignorable_line("x#"));
}

#[test]
fn wrong_width_message_counts_trimmed_cells() {
    assert_eq!(
        parse_row("  12345 \t", 9).unwrap_err(),
        "expected 9 cells, found 5"
    );
    assert_eq!(parse_row("", 16).unwrap_err(), "expected 16 cells, found 0");
}

#[test]
fn invalid_character_message_names_the_first_bad_cell() {
    assert_eq!(
        parse_row("1234x67y9", 9).unwrap_err(),
        "invalid character 'x' at position 5"
    );
    assert_eq!(
        parse_row("123456789ABCDEFH", 16).unwrap_err(),
        "invalid character 'H' at position 16"
    );
}

#[test]
fn zero_and_dot_are_empty_and_whitespace_is_trimmed() {
    let row = parse_row("\u{3000}0.3456789\r", 9).unwrap();
    assert_eq!(row.len(), 9);
    assert_eq!(row[0], None);
    assert_eq!(row[1], None);
    assert_eq!(row[2], Some(3));
}

#[test]
fn each_extra_occurrence_is_reported_once() {
    let row = parse_row("1112.2..3", 9).unwrap();
    assert_eq!(find_duplicates(&row), vec![1, 1, 2]);
}

#[test]
fn column_duplicates_are_listed_column_by_column() {
    let rows: Vec<Row> = ["12.", "12.", "1.."]
        .iter()
        .map(|line| parse_row(line, 3).unwrap())
        .collect();
    assert_eq!(
        find_column_duplicates(&rows),
        vec![(1, 0, 1), (2, 0, 1), (1, 1, 2)]
    );
    assert!(find_column_duplicates(&[]).is_empty());
}

#[test]
fn box_duplicates_are_listed_in_reading_order() {
    let mut lines = vec![".........".to_string(); 9];
    lines[0] = "5...5....".to_string();
    lines[1] = ".5....7..".to_string();
    lines[2] = "........7".to_string();
    let rows: Vec<Row> = lines.iter().map(|l| parse_row(l, 9).unwrap()).collect();
    assert_eq!(find_box_duplicates(&rows, 3), vec![(1, 1, 5), (2, 8, 7)]);
}

#[test]
fn short_or_ragged_boards_are_not_solvable() {
    let rows: Vec<Row> = vec![parse_row("1........", 9).unwrap(); 8];
    assert!(!is_solvable(&rows, 3));
    // A 4x4 board with 2x2 boxes can be completed.
    let small: Vec<Row> = ["1...", "..3.", "....", "...."]
        .iter()
        .map(|line| parse_row(line, 4).unwrap())
        .collect();
    assert!(is_solvable(&small, 2));
    // No board of size zero has a row, and one with no rows is complete.
    assert!(is_solvable(&[], 0));
}

#[test]
fn a_full_board_is_accepted_as_it_stands() {
    // Givens are not checked against each other by the search.
    let rows: Vec<Row> = vec![parse_row("111111111", 9).unwrap(); 9];
    assert!(is_solvable(&rows, 3));
}

#[test]
fn extra_rows_are_reported_on_their_lines() {
    let file = format!("{}123456789\n", CLEAN_BOARD);
    let findings = lint(&file);
    assert_eq!(findings.len(), 1);
    assert_eq!(findings[0].line, 10);
    assert_eq!(findings[0].severity, Severity::Error);
    assert_eq!(findings[0].message, "unexpected extra row, board already has 9");
}

#[test]
fn parse_errors_keep_their_line_and_the_row_count_drops() {
    let file = CLEAN_BOARD.replacen("672195348", "67219534", 1);
    let findings = lint(&file);
    assert_eq!(findings.len(), 2);
    assert_eq!(findings[0].line, 2);
    assert_eq!(findings[0].message, "expected 9 cells, found 8");
    assert_eq!(findings[1].line, 9);
    assert_eq!(findings[1].message, "expected 9 rows, found 8");
}

#[test]
fn findings_come_out_in_line_order() {
    let file = "\
1........
.........
1........
.........
.........
.........
.1.......
.........
1.......x
";
    let findings = lint(file);
    let lines: Vec<usize> = findings.iter().map(|f| f.line).collect();
    let mut sorted = lines.clone();
    sorted.sort();
    assert_eq!(lines, sorted);
    // With a row short, boxes are not checked.
    assert_eq!(findings.len(), 3);
    assert_eq!(findings[0].line, 3);
    assert_eq!(findings[0].message, "duplicate digit '1' in column 1");
    assert_eq!(findings[1].line, 9);
    assert_eq!(findings[1].message, "invalid character 'x' at position 9");
    assert_eq!(findings[2].line, 9);
    assert_eq!(findings[2].message, "expected 9 rows, found 8");
}

#[test]
fn crlf_files_and_missing_final_newline_lint_alike() {
    let crlf = CLEAN_BOARD.replace('\n', "\r\n");
    assert!(lint(&crlf).is_empty());
    assert!(lint(CLEAN_BOARD.trim_end()).is_empty());
    assert!(lint("").is_empty());
    assert!(lint("\n\n# only comments\n\n").is_empty());
}

#[test]
fn an_unsolvable_16x16_row_letter_is_reported_by_column() {
    let mut lines: Vec<String> = vec![".".repeat(16); 16];
    lines[0] = format!("A{}", ".".repeat(15));
    lines[5] = format!("a{}", ".".repeat(15));
    let findings = lint(&lines.join("\n"));
    assert_eq!(findings.len(), 1);
    assert_eq!(findings[0].line, 6);
    assert_eq!(findings[0].message, "duplicate digit 'A' in column 1");
}

#[test]
fn severity_is_written_as_a_word() {
    assert_eq!(Severity::Error.as_str(), "error");
    assert_eq!(Severity::Warning.as_str(), "warning");
}

#[test]
fn json_escapes_control_characters() {
    let findings = vec![Finding::error(12, "tab\there\nnew\r\u{1}\u{1f}end")];
    assert_eq!(
        findings_to_json(&findings),
        "[{\"line\":12,\"severity\":\"error\",\"message\":\"tab\\there\\nnew\\r\\u0001\\u001fend\"}]"
    );
}

#[test]
fn json_keeps_non_ascii_messages() {
    let findings = vec![Finding::error(7, "é\u{3000}x")];
    assert_eq!(
        findings_to_json(&findings),
        "[{\"line\":7,\"severity\":\"error\",\"message\":\"é\u{3000}x\"}]"
    );
}

#[test]
fn a_sound_puzzle_has_no_findings() {
    let puzzle = "\
53..7....
6..195...
.98....6.
8...6...3
4..8.3..1
7...2...6
.6....28.
...419..5
....8..79
";
    assert!(lint(puzzle).is_empty());
    let rows: Vec<Row> = puzzle.lines().map(|l| parse_row(l, 9).unwrap()).collect();
    assert!(is_solvable(&rows, 3));
}

fn shifted(findings: &[Finding], by: usize) -> Vec<(usize, String)> {
    findings.iter().map(|f| (f.line + by, f.message.clone())).collect()
}

fn plain(findings: &[Finding]) -> Vec<(usize, String)> {
    findings.iter().map(|f| (f.line, f.message.clone())).collect()
}

#[test]
fn a_leading_comment_or_blank_line_only_shifts_findings() {
    let board = CLEAN_BOARD.replacen("534678912", "334678912", 1);
    let base = lint(&board);
    assert_eq!(plain(&lint(&format!("# note\n{}", board))), shifted(&base, 1));
    assert_eq!(plain(&lint(&format!("   \n{}", board))), shifted(&base, 1));
}

#[test]
fn joined_files_keep_each_files_findings() {
    let a = "123456789\n";
    let b = CLEAN_BOARD.replacen("534678912", "334678912", 1);
    let joined = lint(&format!("{}\n{}", a, b));
    let mut expected = plain(&lint(a));
    expected.extend(shifted(&lint(&b), a.lines().count() + 1));
    assert_eq!(plain(&joined), expected);
}

#[test]
fn every_finding_names_a_data_line() {
    let file = "\
1........
# a comment inside the board
1........
.........
";
    let findings = lint(file);
    assert!(!findings.is_empty());
    let lines: Vec<&str> = file.lines().collect();
    for f in &findings {
        assert_eq!(f.severity, Severity::Error);
        assert!(!is_ignorable_line(lines[f.line - 1]));
    }
    assert_eq!(findings.last().unwrap().message, "expected 9 rows, found 3");
}

fn board_lines(first: usize, rows: &[&str]) -> Vec<(usize, Vec<char>)> {
    rows.iter()
        .enumerate()
        .map(|(i, r)| (first + i, r.chars().collect()))
        .collect()
}

#[test]
fn an_unsolvable_board_gets_one_finding_on_its_last_line() {
    let rows = [
        "12345678.",
        "........9",
        ".........",
        ".........",
        ".........",
        ".........",
        ".........",
        ".........",
        ".........",
    ];
    let findings = lint_board(&board_lines(10, &rows));
    assert_eq!(findings.len(), 1);
    assert_eq!(findings[0].line, 18);
    assert_eq!(findings[0].severity, Severity::Error);
    assert_eq!(findings[0].message, "board has no valid solution");
}

#[test]
fn board_findings_fall_on_the_boards_own_lines() {
    let rows = ["11.......", "x........", "1........"];
    let findings = lint_board(&board_lines(4, &rows));
    let lines: Vec<(usize, String)> = findings.iter().map(|f| (f.line, f.message.clone())).collect();
    assert_eq!(
        lines,
        vec![
            (4, "duplicate digit '1' in row".to_string()),
            (5, "invalid character 'x' at position 1".to_string()),
            (6, "expected 9 rows, found 2".to_string()),
            (6, "duplicate digit '1' in column 1".to_string()),
        ]
    );
}

#[test]
fn board_kind_follows_the_first_line_width() {
    assert_eq!(detect_board_kind(&board_lines(1, &["  0123456789ABCDEF  "])), (16, 4));
    assert_eq!(detect_board_kind(&board_lines(1, &["123456789"])), (9, 3));
    assert_eq!(detect_board_kind(&Vec::new()), (9, 3));
}

#[test]
fn cells_read_digits_letters_and_blanks() {
    assert_eq!(parse_cell('.', 9), Some(None));
    assert_eq!(parse_cell('0', 16), Some(None));
    assert_eq!(parse_cell('7', 9), Some(Some(7)));
    assert_eq!(parse_cell('A', 9), None);
    assert_eq!(parse_cell('a', 16), Some(Some(10)));
    assert_eq!(parse_cell('G', 16), Some(Some(16)));
    assert_eq!(parse_cell('h', 16), None);
}

#[test]
fn escaping_quotes_backslashes_and_controls() {
    assert_eq!(escape_json_string("a\"b\\c\n\u{1}"), "a\\\"b\\\\c\\n\\u0001");
}

fn grid_is_complete(grid: &[Vec<u8>], size: usize, box_size: usize) -> bool {
    for r in 0..size {
        for c in 0..size {
            let d = grid[r][c];
            if d == 0 || d as usize > size {
                return false;
            }
            for r2 in 0..size {
                for c2 in 0..size {
                    let peer = r2 == r || c2 == c || (r2 / box_size == r / box_size && c2 / box_size == c / box_size);
                    if peer && (r2, c2) != (r, c) && grid[r2][c2] == d {
                        return false;
                    }
                }
            }
        }
    }
    true
}

#[test]
fn solve_fills_a_small_grid_and_keeps_its_givens() {
    let mut grid = vec![vec![1, 0, 0, 0], vec![0, 0, 3, 0], vec![0, 0, 0, 0], vec![0, 0, 0, 2]];
    let start = grid.clone();
    assert!(solve(&mut grid, 4, 2));
    assert!(grid_is_complete(&grid, 4, 2));
    for r in 0..4 {
        for c in 0..4 {
            if start[r][c] != 0 {
                assert_eq!(grid[r][c], start[r][c]);
            }
        }
    }
}

#[test]
fn solve_leaves_an_unsolvable_grid_as_it_was() {
    let mut grid = vec![vec![1, 2, 3, 0], vec![0, 0, 0, 4], vec![0, 0, 0, 0], vec![0, 0, 0, 0]];
    let start = grid.clone();
    assert!(!solve(&mut grid, 4, 2));
    assert_eq!(grid, start);
}

#[test]
fn is_safe_looks_at_row_column_and_box() {
    let grid = vec![vec![1, 0, 0, 0], vec![0, 0, 3, 0], vec![0, 0, 0, 0], vec![0, 0, 0, 2]];
    assert!(!is_safe(&grid, 0, 3, 1, 4, 2));
    assert!(!is_safe(&grid, 3, 2, 3, 4, 2));
    assert!(!is_safe(&grid, 1, 1, 1, 4, 2));
    assert!(is_safe(&grid, 2, 0, 3, 4, 2));
}

#[test]
fn json_escapes_hold_no_control_characters() {
    let escaped = escape_json_string("a\u{0}\u{1f}\tb\r\n");
    assert_eq!(escaped, "a\\u0000\\u001f\\tb\\r\\n");
    assert!(escaped.chars().all(|c| c as u32 >= 0x20));
}

#[test]
fn duplicate_findings_are_what_the_finders_report() {
    let lines = [
        "11.......",
        "2........",
        "1........",
        ".........",
        ".........",
        ".........",
        ".........",
        ".........",
        "........1",
    ];
    let findings = lint_board(&board_lines(1, &lines));
    let mut dup_messages: Vec<(usize, String)> = findings
        .iter()
        .filter(|f| f.message.starts_with("duplicate digit"))
        .map(|f| (f.line, f.message.clone()))
        .collect();
    dup_messages.sort();
    let rows: Vec<Row> = lines.iter().map(|l| parse_row(l, 9).unwrap()).collect();
    let mut expected: Vec<(usize, String)> = Vec::new();
    for (i, row) in rows.iter().enumerate() {
        for d in find_duplicates(row) {
            expected.push((i + 1, format!("duplicate digit '{}' in row", d)));
        }
    }
    for (r, c, d) in find_column_duplicates(&rows) {
        expected.push((r + 1, format!("duplicate digit '{}' in column {}", d, c + 1)));
    }
    for (r, c, d) in find_box_duplicates(&rows, 3) {
        expected.push((r + 1, format!("duplicate digit '{}' in 3x3 box at row {}, column {}", d, r + 1, c + 1)));
    }
    expected.sort();
    assert_eq!(expected.len(), 4);
    assert_eq!(dup_messages, expected);
}

#[test]
fn a_full_count_of_rows_never_speaks_of_rows_found() {
    let mut lines: Vec<&str> = vec!["........."; 9];
    lines.push("1........");
    let findings = lint_board(&board_lines(3, &lines));
    assert_eq!(findings.len(), 1);
    assert_eq!(findings[0].line, 12);
    assert_eq!(findings[0].message, "unexpected extra row, board already has 9");
    assert!(findings.iter().all(|f| !f.message.contains(" rows, found ")));
}
