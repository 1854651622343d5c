use sudoku_lint::lint;

const CLEAN_BOARD: &str = "\
534678912
672195348
198342567
859761423
426853791
713924856
961537284
287419635
345286179
";

// A valid 16x16 solution generated by rotating a 1..16 base row.
const CLEAN_BOARD_16: &str = "\
123456789ABCDEFG
56789ABCDEFG1234
9ABCDEFG12345678
DEFG123456789ABC
23456789ABCDEFG1
6789ABCDEFG12345
ABCDEFG123456789
EFG123456789ABCD
3456789ABCDEFG12
789ABCDEFG123456
BCDEFG123456789A
FG123456789ABCDE
456789ABCDEFG123
89ABCDEFG1234567
CDEFG123456789AB
G123456789ABCDEF
";

#[test]
fn clean_board_has_no_findings() {
    assert!(lint(CLEAN_BOARD).is_empty());
}

#[test]
fn flags_duplicate_and_reports_its_line() {
    // Changing this one cell duplicates '3' in row 1, in its 3x3 box, and in
    // column 1 against row 9.
    let board = CLEAN_BOARD.replacen("534678912", "334678912", 1);
    let findings = lint(&board);
    assert_eq!(findings.len(), 3);
    assert_eq!(findings[0].line, 1);
    assert!(findings[0].message.contains("duplicate digit '3' in row"));
    assert_eq!(findings[1].line, 1);
    assert!(findings[1].message.contains("duplicate digit '3' in 3x3 box"));
    assert_eq!(findings[2].line, 9);
    assert!(findings[2].message.contains("duplicate digit '3' in column"));
}

#[test]
fn flags_column_duplicate_without_row_duplicate() {
    let board = "\
1........
.........
.........
1........
.........
.........
.........
.........
.........
";
    let findings = lint(board);
    assert_eq!(findings.len(), 1);
    assert_eq!(findings[0].line, 4);
    assert!(findings[0].message.contains("duplicate digit '1' in column 1"));
}

#[test]
fn flags_box_duplicate_without_row_or_column_duplicate() {
    let board = "\
1........
..1......
.........
.........
.........
.........
.........
.........
.........
";
    let findings = lint(board);
    assert_eq!(findings.len(), 1);
    assert_eq!(findings[0].line, 2);
    assert!(findings[0]
        .message
        .contains("duplicate digit '1' in 3x3 box at row 2, column 3"));
}

#[test]
fn flags_missing_rows() {
    let findings = lint("123456789\n");
    assert_eq!(findings.len(), 1);
    assert_eq!(findings[0].line, 1);
    assert!(findings[0].message.contains("expected 9 rows, found 1"));
}

#[test]
fn ignores_blank_and_comment_lines() {
    let board = format!("# a puzzle\n\n{}", CLEAN_BOARD);
    assert!(lint(&board).is_empty());
}

#[test]
fn lints_each_board_in_a_multi_board_file() {
    let bad_second_board = CLEAN_BOARD.replacen("534678912", "334678912", 1);
    let file = format!("{}\n{}", CLEAN_BOARD, bad_second_board);
    let findings = lint(&file);
    assert_eq!(findings.len(), 3);
    assert_eq!(findings[0].line, 11);
    assert!(findings[0].message.contains("duplicate digit '3' in row"));
    assert_eq!(findings[1].line, 11);
    assert!(findings[1].message.contains("duplicate digit '3' in 3x3 box"));
    assert_eq!(findings[2].line, 19);
    assert!(findings[2].message.contains("duplicate digit '3' in column"));
}

#[test]
fn a_short_board_does_not_swallow_the_next_one_in_the_file() {
    let file = format!("123456789\n\n{}", CLEAN_BOARD);
    let findings = lint(&file);
    assert_eq!(findings.len(), 1);
    assert_eq!(findings[0].line, 1);
    assert!(findings[0].message.contains("expected 9 rows, found 1"));
}

#[test]
fn clean_16x16_board_has_no_findings() {
    assert!(lint(CLEAN_BOARD_16).is_empty());
}

#[test]
fn flags_duplicate_row_digit_in_a_16x16_board() {
    let first_row = format!("G{}G{}", ".".repeat(3), ".".repeat(11));
    let blank_row = ".".repeat(16);
    let board = format!("{}\n{}\n", first_row, vec![blank_row; 15].join("\n"));
    let findings = lint(&board);
    assert_eq!(findings.len(), 1);
    assert_eq!(findings[0].line, 1);
    assert!(findings[0].message.contains("duplicate digit 'G' in row"));
}

#[test]
fn flags_box_duplicate_in_a_16x16_board() {
    let first_row = format!("1{}", ".".repeat(15));
    let second_row = format!("..1{}", ".".repeat(13));
    let blank_row = ".".repeat(16);
    let board = format!(
        "{}\n{}\n{}\n",
        first_row,
        second_row,
        vec![blank_row; 14].join("\n")
    );
    let findings = lint(&board);
    assert_eq!(findings.len(), 1);
    assert_eq!(findings[0].line, 2);
    assert!(findings[0]
        .message
        .contains("duplicate digit '1' in 4x4 box at row 2, column 3"));
}
