use sudoku_lint::{find_box_duplicates, find_column_duplicates, find_duplicates, parse_row, Row};

const CLEAN_BOARD: &str = "\
534678912
672195348
198342567
859761423
426853791
713924856
961537284
287419635
345286179
";

#[test]
fn parses_a_valid_row() {
    let row = parse_row("1.34.6789", 9).unwrap();
    assert_eq!(row[0], Some(1));
    assert_eq!(row[1], None);
    assert_eq!(row[8], Some(9));
}

#[test]
fn rejects_wrong_length() {
    assert!(parse_row("12345", 9).is_err());
}

#[test]
fn rejects_invalid_character() {
    assert!(parse_row("12345678x", 9).is_err());
}

#[test]
fn rejects_letters_over_9_cells() {
    assert!(parse_row("12345678A", 9).is_err());
}

#[test]
fn parses_a_valid_16x16_row_with_letters() {
    let row = parse_row("123456789ABCDEFG", 16).unwrap();
    assert_eq!(row[8], Some(9));
    assert_eq!(row[9], Some(10));
    assert_eq!(row[15], Some(16));
}

#[test]
fn parses_lowercase_letters_in_a_16x16_row() {
    let row = parse_row("g...............", 16).unwrap();
    assert_eq!(row[0], Some(16));
}

#[test]
fn finds_duplicate_digits() {
    let row = parse_row("11345678.", 9).unwrap();
    assert_eq!(find_duplicates(&row), vec![1]);
}

#[test]
fn no_duplicates_in_a_clean_row() {
    let row = parse_row("123456789", 9).unwrap();
    assert!(find_duplicates(&row).is_empty());
}

#[test]
fn finds_column_duplicates_across_rows() {
    let rows: Vec<Row> = [
        "1........",
        "1........",
        ".........",
        ".........",
        ".........",
        ".........",
        ".........",
        ".........",
        ".........",
    ]
    .iter()
    .map(|line| parse_row(line, 9).unwrap())
    .collect();
    assert_eq!(find_column_duplicates(&rows), vec![(1, 0, 1)]);
}

#[test]
fn no_column_duplicates_in_a_clean_board() {
    let rows: Vec<Row> = CLEAN_BOARD
        .lines()
        .map(|line| parse_row(line, 9).unwrap())
        .collect();
    assert!(find_column_duplicates(&rows).is_empty());
}

#[test]
fn finds_box_duplicates_within_the_same_box() {
    let rows: Vec<Row> = [
        "1........",
        "..1......",
        ".........",
        ".........",
        ".........",
        ".........",
        ".........",
        ".........",
        ".........",
    ]
    .iter()
    .map(|line| parse_row(line, 9).unwrap())
    .collect();
    assert_eq!(find_box_duplicates(&rows, 3), vec![(1, 2, 1)]);
}

#[test]
fn same_digit_in_different_boxes_is_not_a_box_duplicate() {
    let rows: Vec<Row> = [
        "1........",
        "...1.....",
        ".........",
        ".........",
        ".........",
        ".........",
        ".........",
        ".........",
        ".........",
    ]
    .iter()
    .map(|line| parse_row(line, 9).unwrap())
    .collect();
    assert!(find_box_duplicates(&rows, 3).is_empty());
}

#[test]
fn no_box_duplicates_in_a_clean_board() {
    let rows: Vec<Row> = CLEAN_BOARD
        .lines()
        .map(|line| parse_row(line, 9).unwrap())
        .collect();
    assert!(find_box_duplicates(&rows, 3).is_empty());
}

#[test]
fn incomplete_board_has_no_box_duplicates() {
    let rows: Vec<Row> = vec![parse_row("1........", 9).unwrap()];
    assert!(find_box_duplicates(&rows, 3).is_empty());
}
