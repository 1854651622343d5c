//! Linting whole boards and whole files.

use vstd::prelude::*;
use crate::dups::{
    box_dups, box_items, box_row_items, column_dups, column_items, dups_within, find_box_duplicates,
    find_column_duplicates, find_duplicates, lemma_box_clean, lemma_box_dups_rows, lemma_box_item,
    lemma_box_item_at, lemma_boxes_clean, lemma_column_clean, lemma_column_dups_rows,
    lemma_columns_clean, lemma_flatten_empty, lemma_flatten_of_empties, lemma_row_clean,
    lemma_row_no_repeats, no_repeats, repeated_digits, row_items, rows_fit, rows_view,
};
use crate::finding::{
    error_at, lemma_sort_by_line_orders, ordered_by_line, sort_by_line, sort_findings, views, Finding,
    FindingView, Severity,
};
use crate::row::{
    ignorable, msg_invalid_char, msg_wrong_width, parse_cells, cell_in_range, digit_text, format_digit, lemma_parsed_row_in_range, parse_row_chars,
    parse_row_spec, Row,
};
use crate::solver::{
    completable, extends, givens_consistent, is_solution, is_solvable, lemma_completable_iff_solution,
    peers, square, start_cell, start_grid, top_digit,
};
use crate::text::{
    chars_of, copy_range, decimal, lemma_lines_len, lines, push_decimal, split_lines, trim, trim_chars, trim_start,
};

verus! {

/// A board's lines: source line number and text.
pub type BoardLines = Seq<(usize, Seq<char>)>;

/// The row count (and highest digit) of a board: 16 when its first line is
/// 16 characters wide once trimmed, 9 otherwise.
pub open spec fn board_size(lines: BoardLines) -> usize {
    if lines.len() > 0 && trim(lines[0].1).len() == 16 {
        16
    } else {
        9
    }
}

/// The box width of a board: 4 for the 16x16 variant, 3 otherwise.
pub open spec fn board_box(lines: BoardLines) -> usize {
    if board_size(lines) == 16 {
        4
    } else {
        3
    }
}

/// The line that whole-board findings are reported on: the board's last
/// line, or 1 for a board without lines.
pub open spec fn last_line(lines: BoardLines) -> usize {
    if lines.len() == 0 {
        1
    } else {
        lines.last().0
    }
}

/// Message for a row beyond the board's size.
pub open spec fn msg_extra_row(size: usize) -> Seq<char> {
    "unexpected extra row, board already has "@ + decimal(size as nat)
}

/// Message for a digit repeated within a row.
pub open spec fn msg_row_dup(d: u8) -> Seq<char> {
    "duplicate digit '"@ + digit_text(d) + "' in row"@
}

/// Message for a board with too few rows.
pub open spec fn msg_missing_rows(size: usize, found: nat) -> Seq<char> {
    "expected "@ + decimal(size as nat) + " rows, found "@ + decimal(found)
}

/// Message for a digit repeated within a column (`col` counts from 0).
pub open spec fn msg_col_dup(d: u8, col: usize) -> Seq<char> {
    "duplicate digit '"@ + digit_text(d) + "' in column "@ + decimal(col as nat + 1)
}

/// Message for a digit repeated within a box (row and column count from 0).
pub open spec fn msg_box_dup(bs: usize, d: u8, row: usize, col: usize) -> Seq<char> {
    "duplicate digit '"@ + digit_text(d) + "' in "@ + decimal(bs as nat) + "x"@ + decimal(bs as nat)
        + " box at row "@ + decimal(row as nat + 1) + ", column "@ + decimal(col as nat + 1)
}

/// Message for a board that cannot be completed.
pub open spec fn msg_unsolvable() -> Seq<char> {
    "board has no valid solution"@
}

/// What scanning a board's lines top to bottom collects: the line number and
/// cells of each row that parsed, and the findings so far.
pub struct Scan {
    pub nums: Seq<usize>,
    pub rows: Seq<Seq<Option<u8>>>,
    pub findings: Seq<FindingView>,
}

/// A finding on line `line` for each repeated digit of a row.
pub open spec fn row_dup_findings(line: usize, cells: Seq<Option<u8>>) -> Seq<FindingView> {
    repeated_digits(cells).map_values(|d: u8| error_at(line, msg_row_dup(d)))
}

/// Scans a board's lines for a board of `size` rows: a line past the last
/// row is an extra row; a line that does not parse is reported with its
/// message; a row that parses is kept, with a finding per repeated digit.
pub open spec fn scan_lines(lines: BoardLines, size: usize) -> Scan
    decreases lines.len(),
{
    if lines.len() == 0 {
        Scan { nums: Seq::empty(), rows: Seq::empty(), findings: Seq::empty() }
    } else {
        let sc = scan_lines(lines.drop_last(), size);
        let line = lines.last().0;
        if sc.rows.len() == size {
            Scan { findings: sc.findings.push(error_at(line, msg_extra_row(size))), ..sc }
        } else {
            match parse_row_spec(lines.last().1, size) {
                Ok(cells) => Scan {
                    nums: sc.nums.push(line),
                    rows: sc.rows.push(cells),
                    findings: sc.findings + row_dup_findings(line, cells),
                },
                Err(m) => Scan { findings: sc.findings.push(error_at(line, m)), ..sc },
            }
        }
    }
}

/// The column findings, each on the line of the row it repeats in.
pub open spec fn column_findings(nums: Seq<usize>, rows: Seq<Seq<Option<u8>>>) -> Seq<FindingView> {
    column_dups(rows).map_values(|t: (usize, usize, u8)| error_at(nums[t.0 as int], msg_col_dup(t.2, t.1)))
}

/// The box findings, each on the line of the row it repeats in.
pub open spec fn box_findings(nums: Seq<usize>, rows: Seq<Seq<Option<u8>>>, bs: usize) -> Seq<FindingView> {
    box_dups(rows, bs as int).map_values(
        |t: (usize, usize, u8)| error_at(nums[t.0 as int], msg_box_dup(bs, t.2, t.0, t.1)),
    )
}

/// The findings of a board in the order they are found: those of the scan,
/// then a missing-rows finding, column findings, box findings, and, when
/// nothing else was found, a finding for a board that cannot be completed.
pub open spec fn board_findings_unsorted(lines: BoardLines) -> Seq<FindingView> {
    let size = board_size(lines);
    let bs = board_box(lines);
    let sc = scan_lines(lines, size);
    let f1 = if sc.rows.len() < size {
        sc.findings.push(error_at(last_line(lines), msg_missing_rows(size, sc.rows.len())))
    } else {
        sc.findings
    };
    let f2 = f1 + column_findings(sc.nums, sc.rows) + box_findings(sc.nums, sc.rows, bs);
    if f2.len() == 0 && !(sc.rows.len() == bs * bs && completable(
        start_grid(sc.rows, bs * bs),
        bs * bs,
        bs as int,
        top_digit(bs * bs),
    )) {
        f2.push(error_at(last_line(lines), msg_unsolvable()))
    } else {
        f2
    }
}

/// The findings of one board, ordered by line number.
pub open spec fn board_findings(lines: BoardLines) -> Seq<FindingView> {
    sort_by_line(board_findings_unsorted(lines))
}

/// A board's lines as characters.
pub open spec fn board_view(lines: Seq<(usize, Vec<char>)>) -> BoardLines {
    lines.map_values(|l: (usize, Vec<char>)| (l.0, l.1@))
}

/// An error finding.
fn error_finding(line: usize, message: String) -> (f: Finding)
    ensures
        f@ == error_at(line, message@),
{
    Finding { line, severity: Severity::Error, message }
}

fn msg_extra_row_exec(size: usize) -> (m: String)
    ensures
        m@ == msg_extra_row(size),
{
    let mut m = String::new();
    m.append("unexpected extra row, board already has ");
    push_decimal(&mut m, size);
    m
}

fn msg_row_dup_exec(d: u8) -> (m: String)
    requires
        d <= 200,
    ensures
        m@ == msg_row_dup(d),
{
    let mut m = String::new();
    m.append("duplicate digit '");
    m.append(format_digit(d).as_str());
    m.append("' in row");
    m
}

fn msg_missing_rows_exec(size: usize, found: usize) -> (m: String)
    ensures
        m@ == msg_missing_rows(size, found as nat),
{
    let mut m = String::new();
    m.append("expected ");
    push_decimal(&mut m, size);
    m.append(" rows, found ");
    push_decimal(&mut m, found);
    m
}

fn msg_col_dup_exec(d: u8, col: usize) -> (m: String)
    requires
        d <= 200,
        col < usize::MAX,
    ensures
        m@ == msg_col_dup(d, col),
{
    let mut m = String::new();
    m.append("duplicate digit '");
    m.append(format_digit(d).as_str());
    m.append("' in column ");
    push_decimal(&mut m, col + 1);
    m
}

fn msg_box_dup_exec(bs: usize, d: u8, row: usize, col: usize) -> (m: String)
    requires
        d <= 200,
        row < usize::MAX,
        col < usize::MAX,
    ensures
        m@ == msg_box_dup(bs, d, row, col),
{
    let mut m = String::new();
    m.append("duplicate digit '");
    m.append(format_digit(d).as_str());
    m.append("' in ");
    push_decimal(&mut m, bs);
    m.append("x");
    push_decimal(&mut m, bs);
    m.append(" box at row ");
    push_decimal(&mut m, row + 1);
    m.append(", column ");
    push_decimal(&mut m, col + 1);
    m
}

/// Guesses the board layout from the width of its first line: 16
/// characters means the 16x16 variant, anything else standard 9x9.
pub fn detect_board_kind(lines: &Vec<(usize, Vec<char>)>) -> (kind: (usize, usize))
    ensures
        kind == (board_size(board_view(lines@)), board_box(board_view(lines@))),
{
    if lines.len() > 0 {
        let first = trim_chars(&lines[0].1);
        if first.len() == 16 {
            return (16, 4);
        }
    }
    (9, 3)
}

/// Rows of `size` cells, each empty or a digit from 1 to `size`.
pub open spec fn rows_ok(rows: Seq<Seq<Option<u8>>>, size: usize) -> bool {
    forall|r: int| 0 <= r < rows.len() ==> {
        &&& (#[trigger] rows[r]).len() == size
        &&& forall|c: int| 0 <= c < size ==> cell_in_range(#[trigger] rows[r][c], size)
    }
}

proof fn lemma_rows_ok_fit(rows: Seq<Seq<Option<u8>>>, size: usize)
    requires
        rows_ok(rows, size),
    ensures
        rows_fit(rows, rows.len() as int, size as int),
        rows.len() >= size ==> rows_fit(rows, size as int, size as int),
{
    assert forall|r: int, c: int| 0 <= r < rows.len() && 0 <= c < size implies crate::dups::cell_at_most(
        #[trigger] rows[r][c],
        size as int,
    ) by {
        assert(cell_in_range(rows[r][c], size));
    }
}

/// The findings of a board are in line order, and, for a board with lines,
/// each is an error on one of its lines; a no-solution finding comes alone.
proof fn lemma_board_result(lines: Seq<(usize, Vec<char>)>, fs: Seq<Finding>)
    requires
        views(fs) == board_findings(board_view(lines)),
    ensures
        ordered_by_line(views(fs)),
        lines.len() > 0 ==> forall|k: int|
            0 <= k < fs.len() ==> (#[trigger] fs[k]).severity == Severity::Error && exists|j: int|
                0 <= j < lines.len() && lines[j].0 == fs[k].line,
        (exists|k: int| 0 <= k < fs.len() && (#[trigger] views(fs)[k]).message == msg_unsolvable()) ==> fs.len()
            == 1,
{
    let bl = board_view(lines);
    lemma_sort_by_line_orders(board_findings_unsorted(bl));
    lemma_unsolvable_alone(bl);
    if lines.len() > 0 {
        let set = Set::new(|x: usize| exists|j: int| 0 <= j < bl.len() && bl[j].0 == x);
        assert forall|k: int| 0 <= k < bl.len() implies set.contains((#[trigger] bl[k]).0) by {}
        lemma_board_findings_in(bl, set);
        assert forall|k: int| 0 <= k < fs.len() implies (#[trigger] fs[k]).severity == Severity::Error
            && exists|j: int| 0 <= j < lines.len() && lines[j].0 == fs[k].line by {
            assert(views(fs)[k] == fs[k]@);
            assert(set.contains(fs[k].line));
            let j = choose|j: int| 0 <= j < bl.len() && bl[j].0 == fs[k].line;
            assert(bl[j].0 == lines[j].0);
        }
    }
}

/// Lints a single board's non-ignorable lines, given as `(source line
/// number, text)` pairs.
#[verifier::rlimit(60)]
pub fn lint_board(lines: &Vec<(usize, Vec<char>)>) -> (findings: Vec<Finding>)
    ensures
        views(findings@) == board_findings(board_view(lines@)),
        ordered_by_line(views(findings@)),
        lines@.len() > 0 ==> forall|k: int|
            0 <= k < findings@.len() ==> (#[trigger] findings@[k]).severity == Severity::Error && exists|j: int|
                0 <= j < lines@.len() && lines@[j].0 == findings@[k].line,
        (exists|k: int|
            0 <= k < findings@.len() && (#[trigger] views(findings@)[k]).message == msg_unsolvable()) ==> findings@.len()
            == 1,
{
    let ghost bl = board_view(lines@);
    let (size, box_size) = detect_board_kind(lines);
    let mut findings: Vec<Finding> = Vec::new();
    let mut nums: Vec<usize> = Vec::new();
    let mut parsed: Vec<Row> = Vec::new();
    let mut i: usize = 0;
    while i < lines.len()
        invariant
            i <= lines.len(),
            bl == board_view(lines@),
            size == board_size(bl),
            box_size == board_box(bl),
            size == 9 || size == 16,
            ({
                let sc = scan_lines(bl.take(i as int), size);
                &&& nums@ == sc.nums
                &&& rows_view(parsed@) == sc.rows
                &&& views(findings@) == sc.findings
            }),
            nums@.len() == parsed@.len() <= size,
            rows_ok(rows_view(parsed@), size),
        decreases lines.len() - i,
    {
        let line_number = lines[i].0;
        let ghost prev = scan_lines(bl.take(i as int), size);
        proof {
            assert(bl.take(i + 1).drop_last() =~= bl.take(i as int));
            assert(bl.take(i + 1).last() == bl[i as int]);
            assert(bl[i as int] == (lines@[i as int].0, lines@[i as int].1@));
        }
        if parsed.len() == size {
            findings.push(error_finding(line_number, msg_extra_row_exec(size)));
            assert(views(findings@) =~= prev.findings.push(error_at(line_number, msg_extra_row(size))));
        } else {
            match parse_row_chars(&lines[i].1, size) {
                Ok(row) => {
                    proof {
                        lemma_parsed_row_in_range(lines@[i as int].1@, size);
                    }
                    let dups = find_duplicates(&row);
                    let ghost base = views(findings@);
                    let ghost rdf = row_dup_findings(line_number, row@);
                    let mut k: usize = 0;
                    while k < dups.len()
                        invariant
                            k <= dups.len(),
                            dups@ == repeated_digits(row@),
                            rdf == row_dup_findings(line_number, row@),
                            row@.len() == size,
                            forall|j: int| 0 <= j < size ==> cell_in_range(#[trigger] row@[j], size),
                            size == 9 || size == 16,
                            views(findings@) == base + rdf.take(k as int),
                        decreases dups.len() - k,
                    {
                        proof {
                            crate::dups::lemma_repeated_digits_in_range(row@, size as int);
                        }
                        let d = dups[k];
                        let ghost before = views(findings@);
                        findings.push(error_finding(line_number, msg_row_dup_exec(d)));
                        assert(rdf[k as int] == error_at(line_number, msg_row_dup(d)));
                        assert(views(findings@) =~= before.push(error_at(line_number, msg_row_dup(d))));
                        assert(views(findings@) =~= base + rdf.take(k + 1));
                        k += 1;
                    }
                    assert(rdf.take(dups.len() as int) =~= rdf);
                    nums.push(line_number);
                    let ghost old_rows = rows_view(parsed@);
                    parsed.push(row);
                    assert(rows_view(parsed@) =~= old_rows.push(row@));
                },
                Err(m) => {
                    findings.push(error_finding(line_number, m));
                    assert(views(findings@) =~= prev.findings.push(error_at(line_number, m@)));
                },
            }
        }
        i += 1;
    }
    assert(bl.take(lines.len() as int) =~= bl);
    let ghost sc = scan_lines(bl, size);
    let last: usize = if lines.len() == 0 {
        1
    } else {
        lines[lines.len() - 1].0
    };
    assert(last == last_line(bl));
    if parsed.len() < size {
        findings.push(error_finding(last, msg_missing_rows_exec(size, parsed.len())));
        assert(views(findings@) =~= sc.findings.push(error_at(last, msg_missing_rows(size, sc.rows.len()))));
    }
    let ghost f1 = views(findings@);
    proof {
        lemma_rows_ok_fit(rows_view(parsed@), size);
        if parsed@.len() > 0 {
            assert(rows_view(parsed@)[0] == parsed@[0]@);
        }
    }

    let cols = find_column_duplicates(parsed.as_slice());
    let ghost cf = column_findings(nums@, rows_view(parsed@));
    let mut k: usize = 0;
    while k < cols.len()
        invariant
            k <= cols.len(),
            cols@ == column_dups(rows_view(parsed@)),
            parsed@.len() > 0 ==> dups_within(cols@, parsed@.len() as int, size as int, size as int),
            nums@.len() == parsed@.len(),
            cf == column_findings(nums@, rows_view(parsed@)),
            size == 9 || size == 16,
            views(findings@) == f1 + cf.take(k as int),
        decreases cols.len() - k,
    {
        let (row_idx, col, digit) = cols[k];
        let ghost before = views(findings@);
        let line = nums[row_idx];
        findings.push(error_finding(line, msg_col_dup_exec(digit, col)));
        assert(cf[k as int] == error_at(line, msg_col_dup(digit, col)));
        assert(views(findings@) =~= before.push(error_at(line, msg_col_dup(digit, col))));
        assert(views(findings@) =~= f1 + cf.take(k + 1));
        k += 1;
    }
    let ghost f2 = views(findings@);

    let boxes = find_box_duplicates(parsed.as_slice(), box_size);
    let ghost bf = box_findings(nums@, rows_view(parsed@), box_size);
    let mut k: usize = 0;
    while k < boxes.len()
        invariant
            k <= boxes.len(),
            boxes@ == box_dups(rows_view(parsed@), box_size as int),
            dups_within(boxes@, size as int, size as int, size as int),
            box_size * box_size == size,
            nums@.len() == parsed@.len() <= size,
            bf == box_findings(nums@, rows_view(parsed@), box_size),
            size == 9 || size == 16,
            views(findings@) == f2 + bf.take(k as int),
        decreases boxes.len() - k,
    {
        let (row_idx, col, digit) = boxes[k];
        let ghost before = views(findings@);
        let line = nums[row_idx];
        findings.push(error_finding(line, msg_box_dup_exec(box_size, digit, row_idx, col)));
        assert(bf[k as int] == error_at(line, msg_box_dup(box_size, digit, row_idx, col)));
        assert(views(findings@) =~= before.push(error_at(line, msg_box_dup(box_size, digit, row_idx, col))));
        assert(views(findings@) =~= f2 + bf.take(k + 1));
        k += 1;
    }

    proof {
        assert forall|r: int| 0 <= r < parsed@.len() implies #[trigger] parsed@[r]@.len() <= box_size * box_size by {
            assert(rows_view(parsed@)[r] == parsed@[r]@);
        }
        assert(f1 == if sc.rows.len() < size {
            sc.findings.push(error_at(last_line(bl), msg_missing_rows(size, sc.rows.len())))
        } else {
            sc.findings
        });
        assert(cf.take(cf.len() as int) =~= cf);
        assert(bf.take(bf.len() as int) =~= bf);
        assert(views(findings@) == f1 + cf + bf);
    }
    if findings.len() == 0 && !is_solvable(parsed.as_slice(), box_size) {
        let mut m = String::new();
        m.append("board has no valid solution");
        findings.push(error_finding(last, m));
    }
    assert(views(findings@) == board_findings_unsorted(bl));
    let sorted = sort_findings(findings);
    proof {
        lemma_board_result(lines@, sorted@);
    }
    sorted
}

/// Boards closed so far, and the lines of the board still open, while a
/// file's lines are read top to bottom.
pub struct Grouping {
    pub boards: Seq<BoardLines>,
    pub current: BoardLines,
}

/// Groups lines into boards: a blank line closes the open board, a `#`
/// comment is skipped, and any other line joins the open board with its
/// line number (counted from 1).
pub open spec fn group_lines(ls: Seq<Seq<char>>) -> Grouping
    decreases ls.len(),
{
    if ls.len() == 0 {
        Grouping { boards: Seq::empty(), current: Seq::empty() }
    } else {
        let g = group_lines(ls.drop_last());
        let line = ls.last();
        let t = trim(line);
        if t.len() == 0 {
            if g.current.len() > 0 {
                Grouping { boards: g.boards.push(g.current), current: Seq::empty() }
            } else {
                g
            }
        } else if t[0] == '#' {
            g
        } else {
            Grouping { boards: g.boards, current: g.current.push((ls.len() as usize, line)) }
        }
    }
}

/// Law: how one more line changes the grouping. A line that is blank once
/// trimmed, whatever white space it holds, closes the open board just as an
/// empty line does; a `#` comment leaves everything as it was, the open
/// board still open; any other line joins the open board under its line
/// number.
pub proof fn lemma_group_lines_step(ls: Seq<Seq<char>>, line: Seq<char>)
    ensures
        trim(line).len() == 0 ==> group_lines(ls.push(line)) == group_lines(ls.push(Seq::empty())),
        trim(line).len() == 0 ==> {
            let g = group_lines(ls);
            &&& group_lines(ls.push(line)).current.len() == 0
            &&& group_lines(ls.push(line)).boards == if g.current.len() > 0 {
                g.boards.push(g.current)
            } else {
                g.boards
            }
        },
        trim(line).len() > 0 && trim(line)[0] == '#' ==> group_lines(ls.push(line)) == group_lines(ls),
        !ignorable(line) ==> group_lines(ls.push(line)) == (Grouping {
            boards: group_lines(ls).boards,
            current: group_lines(ls).current.push(((ls.len() + 1) as usize, line)),
        }),
{
    let e = Seq::<char>::empty();
    assert(ls.push(line).drop_last() =~= ls);
    assert(ls.push(e).drop_last() =~= ls);
    assert(trim_start(e) == e);
    assert(trim(e) =~= e);
}

/// Law: a board's kind is read from its first line alone: 16x16 with 4x4
/// boxes when that line is 16 characters wide once trimmed, 9x9 with 3x3
/// boxes otherwise, whatever the other lines hold.
pub proof fn lemma_board_kind_first_line(bl: BoardLines, other: BoardLines)
    requires
        bl.len() > 0,
        other.len() > 0,
        other[0].1 == bl[0].1,
    ensures
        board_size(bl) == board_size(other),
        board_box(bl) == board_box(other),
        board_size(bl) == 16 <==> trim(bl[0].1).len() == 16,
        board_size(bl) == 9 || board_size(bl) == 16,
        board_box(bl) * board_box(bl) == board_size(bl),
{
}

/// The boards of a file: its lines grouped, the last open board included.
pub open spec fn boards_of(source: Seq<char>) -> Seq<BoardLines> {
    let g = group_lines(lines(source));
    if g.current.len() > 0 {
        g.boards.push(g.current)
    } else {
        g.boards
    }
}

/// The findings of each board in turn.
pub open spec fn boards_findings(boards: Seq<BoardLines>) -> Seq<Seq<FindingView>> {
    boards.map_values(|b: BoardLines| board_findings(b))
}

/// Every finding of a file: each board's findings, board after board.
pub open spec fn lint_findings(source: Seq<char>) -> Seq<FindingView> {
    boards_findings(boards_of(source)).flatten()
}

/// The lines of a file as characters.
pub open spec fn lines_view(ls: Seq<Vec<char>>) -> Seq<Seq<char>> {
    ls.map_values(|l: Vec<char>| l@)
}

/// The boards of a file as characters.
pub open spec fn boards_view(bs: Seq<Vec<(usize, Vec<char>)>>) -> Seq<BoardLines> {
    bs.map_values(|b: Vec<(usize, Vec<char>)>| board_view(b@))
}

/// Lints the text of a sudoku board file and returns every finding, ordered
/// by line number. A file may hold more than one board: a blank line ends
/// the current board and starts the next. Each board is checked on its own.
pub fn lint(source: &str) -> (findings: Vec<Finding>)
    ensures
        views(findings@) == lint_findings(source@),
        ordered_by_line(views(findings@)),
        forall|k: int|
            0 <= k < findings@.len() ==> (#[trigger] findings@[k]).severity == Severity::Error && names_source_line(
                source@,
                findings@[k].line,
            ),
{
    let chars = chars_of(source);
    let total = chars.len();
    assert(source@.len() == total);
    let ls = split_lines(&chars);
    let ghost lv = lines_view(ls@);
    assert(lv == lines(source@));
    let mut boards: Vec<Vec<(usize, Vec<char>)>> = Vec::new();
    let mut current: Vec<(usize, Vec<char>)> = Vec::new();
    let mut idx: usize = 0;
    while idx < ls.len()
        invariant
            idx <= ls.len(),
            lv == lines_view(ls@),
            ({
                let g = group_lines(lv.take(idx as int));
                &&& boards_view(boards@) == g.boards
                &&& board_view(current@) == g.current
            }),
        decreases ls.len() - idx,
    {
        let ghost g = group_lines(lv.take(idx as int));
        proof {
            assert(lv.take(idx + 1).drop_last() =~= lv.take(idx as int));
            assert(lv.take(idx + 1).last() == ls@[idx as int]@);
        }
        let t = trim_chars(&ls[idx]);
        if t.len() == 0 {
            if current.len() > 0 {
                let ghost old_boards = boards_view(boards@);
                boards.push(current);
                current = Vec::new();
                assert(boards_view(boards@) =~= old_boards.push(g.current));
                assert(board_view(current@) =~= Seq::<(usize, Seq<char>)>::empty());
            }
        } else if t[0] == '#' {
        } else {
            let line = copy_range(&ls[idx], 0, ls[idx].len());
            assert(line@ =~= ls@[idx as int]@);
            current.push((idx + 1, line));
            assert(board_view(current@) =~= g.current.push(((idx + 1) as usize, ls@[idx as int]@)));
        }
        idx += 1;
    }
    assert(lv.take(ls.len() as int) =~= lv);
    if current.len() > 0 {
        let ghost g = group_lines(lv);
        boards.push(current);
        assert(boards_view(boards@) =~= g.boards.push(g.current));
    }
    let ghost bv = boards_view(boards@);
    assert(bv == boards_of(source@));
    let mut out: Vec<Finding> = Vec::new();
    let mut b: usize = 0;
    assert(boards_findings(bv.take(0)).flatten() =~= Seq::<FindingView>::empty());
    while b < boards.len()
        invariant
            b <= boards.len(),
            bv == boards_view(boards@),
            views(out@) == boards_findings(bv.take(b as int)).flatten(),
        decreases boards.len() - b,
    {
        let mut fs = lint_board(&boards[b]);
        let ghost before = views(out@);
        let ghost this = views(fs@);
        assert(this == board_findings(bv[b as int]));
        out.append(&mut fs);
        assert(views(out@) =~= before + this);
        assert(boards_findings(bv.take(b + 1)) =~= boards_findings(bv.take(b as int)).push(this));
        proof {
            boards_findings(bv.take(b as int)).lemma_flatten_push(this);
        }
        b += 1;
    }
    assert(bv.take(boards.len() as int) =~= bv);
    proof {
        lemma_lint_ordered(source@);
        lemma_lint_names_data_lines(source@);
        assert forall|k: int| 0 <= k < out@.len() implies (#[trigger] out@[k]).severity == Severity::Error
            && names_source_line(source@, out@[k].line) by {
            assert(views(out@)[k] == out@[k]@);
        }
    }
    out
}

/// Every line number of `bl` is in `lines`.
pub open spec fn lines_in(bl: BoardLines, lines: Set<usize>) -> bool {
    forall|k: int| 0 <= k < bl.len() ==> lines.contains((#[trigger] bl[k]).0)
}

/// Every finding of `fs` is an error on a line in `lines`.
pub open spec fn findings_in(fs: Seq<FindingView>, lines: Set<usize>) -> bool {
    forall|k: int|
        0 <= k < fs.len() ==> lines.contains((#[trigger] fs[k]).line) && fs[k].severity == Severity::Error
}

/// Every line number of `bl` lies between `lo` and `hi`.
pub open spec fn lines_within(bl: BoardLines, lo: int, hi: int) -> bool {
    forall|k: int| 0 <= k < bl.len() ==> lo <= (#[trigger] bl[k]).0 <= hi
}

/// Every finding of `fs` is on a line between `lo` and `hi`.
pub open spec fn findings_within(fs: Seq<FindingView>, lo: int, hi: int) -> bool {
    forall|k: int| 0 <= k < fs.len() ==> lo <= (#[trigger] fs[k]).line <= hi
}

proof fn lemma_scan_in(lines: BoardLines, size: usize, set: Set<usize>)
    requires
        lines_in(lines, set),
    ensures
        findings_in(scan_lines(lines, size).findings, set),
        scan_lines(lines, size).nums.len() == scan_lines(lines, size).rows.len(),
        forall|k: int|
            0 <= k < scan_lines(lines, size).nums.len() ==> set.contains(#[trigger] scan_lines(lines, size).nums[k]),
    decreases lines.len(),
{
    if lines.len() > 0 {
        let prev = lines.drop_last();
        assert forall|k: int| 0 <= k < prev.len() implies set.contains((#[trigger] prev[k]).0) by {
            assert(prev[k] == lines[k]);
        }
        lemma_scan_in(prev, size, set);
        let line = lines.last().0;
        assert(set.contains(lines[lines.len() - 1].0));
        let sc = scan_lines(prev, size);
        if sc.rows.len() != size {
            if let Ok(cells) = parse_row_spec(lines.last().1, size) {
                let extra = row_dup_findings(line, cells);
                lemma_concat_in(sc.findings, extra, set);
            }
        }
    }
}

proof fn lemma_concat_in(a: Seq<FindingView>, b: Seq<FindingView>, set: Set<usize>)
    requires
        findings_in(a, set),
        findings_in(b, set),
    ensures
        findings_in(a + b, set),
{
    assert forall|k: int| 0 <= k < (a + b).len() implies set.contains((#[trigger] (a + b)[k]).line) && (a
        + b)[k].severity == Severity::Error by {
        if k < a.len() {
            assert((a + b)[k] == a[k]);
        } else {
            assert((a + b)[k] == b[k - a.len()]);
        }
    }
}

/// Law: every finding of a board is an error reported on one of that
/// board's own lines.
pub proof fn lemma_board_findings_in(bl: BoardLines, set: Set<usize>)
    requires
        bl.len() > 0,
        lines_in(bl, set),
    ensures
        findings_in(board_findings(bl), set),
        findings_in(board_findings_unsorted(bl), set),
{
    broadcast use vstd::seq_lib::group_to_multiset_ensures;

    let size = board_size(bl);
    let bs = board_box(bl);
    let sc = scan_lines(bl, size);
    lemma_scan_in(bl, size, set);
    assert(set.contains(bl[bl.len() - 1].0));
    let last = last_line(bl);
    let missing = seq![error_at(last, msg_missing_rows(size, sc.rows.len()))];
    let f1 = if sc.rows.len() < size {
        sc.findings.push(error_at(last, msg_missing_rows(size, sc.rows.len())))
    } else {
        sc.findings
    };
    lemma_concat_in(sc.findings, missing, set);
    assert(sc.findings.push(error_at(last, msg_missing_rows(size, sc.rows.len()))) =~= sc.findings + missing);
    lemma_column_dups_rows(sc.rows);
    let cf = column_findings(sc.nums, sc.rows);
    assert forall|k: int| 0 <= k < cf.len() implies set.contains((#[trigger] cf[k]).line) && cf[k].severity
        == Severity::Error by {
        let t = column_dups(sc.rows)[k];
        assert(t.0 < sc.rows.len());
        assert(cf[k].line == sc.nums[t.0 as int]);
    }
    lemma_box_dups_rows(sc.rows, bs as int);
    let bf = box_findings(sc.nums, sc.rows, bs);
    assert forall|k: int| 0 <= k < bf.len() implies set.contains((#[trigger] bf[k]).line) && bf[k].severity
        == Severity::Error by {
        let t = box_dups(sc.rows, bs as int)[k];
        assert(sc.rows.len() >= bs * bs);
        assert(t.0 < bs * bs);
        assert(bf[k].line == sc.nums[t.0 as int]);
    }
    lemma_concat_in(f1, cf, set);
    lemma_concat_in(f1 + cf, bf, set);
    let f2 = f1 + cf + bf;
    let unsolvable = seq![error_at(last, msg_unsolvable())];
    lemma_concat_in(f2, unsolvable, set);
    assert(f2.push(error_at(last, msg_unsolvable())) =~= f2 + unsolvable);
    let raw = board_findings_unsorted(bl);
    assert(findings_in(raw, set));
    lemma_sort_by_line_orders(raw);
    let sorted = sort_by_line(raw);
    assert forall|k: int| 0 <= k < sorted.len() implies set.contains((#[trigger] sorted[k]).line)
        && sorted[k].severity == Severity::Error by {
        assert(sorted.to_multiset().count(sorted[k]) > 0);
        assert(raw.to_multiset().count(sorted[k]) > 0);
        assert(raw.contains(sorted[k]));
        let j = choose|j: int| 0 <= j < raw.len() && raw[j] == sorted[k];
        assert(set.contains(raw[j].line));
    }
}

/// Law: every finding of a board is reported on a line within that board.
pub proof fn lemma_board_findings_within(bl: BoardLines, lo: int, hi: int)
    requires
        bl.len() > 0,
        lines_within(bl, lo, hi),
    ensures
        findings_within(board_findings(bl), lo, hi),
{
    let set = Set::new(|x: usize| lo <= x <= hi);
    assert forall|k: int| 0 <= k < bl.len() implies set.contains((#[trigger] bl[k]).0) by {}
    lemma_board_findings_in(bl, set);
    let fs = board_findings(bl);
    assert forall|k: int| 0 <= k < fs.len() implies lo <= (#[trigger] fs[k]).line <= hi by {
        assert(set.contains(fs[k].line));
    }
}

/// Line numbers strictly increase along `bl`.
pub open spec fn increasing(bl: BoardLines) -> bool {
    forall|i: int, j: int| 0 <= i < j < bl.len() ==> bl[i].0 < bl[j].0
}

/// Boards that are non-empty, each in line order, each wholly before the next.
pub open spec fn boards_in_order(boards: Seq<BoardLines>) -> bool {
    &&& forall|i: int| 0 <= i < boards.len() ==> (#[trigger] boards[i]).len() > 0 && increasing(boards[i])
    &&& forall|i: int, j: int|
        0 <= i < j < boards.len() ==> (#[trigger] boards[i]).last().0 < (#[trigger] boards[j])[0].0
}

/// The grouping after `n` lines: boards in order, all line numbers at most
/// `n`, the open board in order and after every closed one.
pub open spec fn grouping_ok(g: Grouping, n: int) -> bool {
    &&& boards_in_order(g.boards)
    &&& forall|i: int| 0 <= i < g.boards.len() ==> (#[trigger] g.boards[i]).last().0 <= n
    &&& increasing(g.current)
    &&& g.current.len() > 0 ==> g.current.last().0 <= n
    &&& g.current.len() > 0 ==> forall|i: int|
        0 <= i < g.boards.len() ==> (#[trigger] g.boards[i]).last().0 < g.current[0].0
}

proof fn lemma_group_lines_ok(ls: Seq<Seq<char>>)
    requires
        ls.len() <= usize::MAX,
    ensures
        grouping_ok(group_lines(ls), ls.len() as int),
    decreases ls.len(),
{
    if ls.len() > 0 {
        let prev = ls.drop_last();
        lemma_group_lines_ok(prev);
        let g = group_lines(prev);
        let n = ls.len() as int;
        let t = trim(ls.last());
        if t.len() == 0 {
            if g.current.len() > 0 {
                let boards = g.boards.push(g.current);
                assert forall|i: int| 0 <= i < boards.len() implies (#[trigger] boards[i]).len() > 0 && increasing(
                    boards[i],
                ) by {
                    if i < g.boards.len() {
                        assert(boards[i] == g.boards[i]);
                    }
                }
                assert forall|i: int, j: int|
                    0 <= i < j < boards.len() implies (#[trigger] boards[i]).last().0 < (#[trigger] boards[j])[0].0 by {
                    assert(boards[i] == g.boards[i]);
                    if j < g.boards.len() {
                        assert(boards[j] == g.boards[j]);
                    } else {
                        assert(boards[j] == g.current);
                    }
                }
                assert forall|i: int| 0 <= i < boards.len() implies (#[trigger] boards[i]).last().0 <= n by {
                    if i < g.boards.len() {
                        assert(boards[i] == g.boards[i]);
                    }
                }
            }
        } else if t[0] != '#' {
            let cur = g.current.push((n as usize, ls.last()));
            assert forall|i: int, j: int| 0 <= i < j < cur.len() implies cur[i].0 < cur[j].0 by {
                if j < g.current.len() {
                    assert(cur[i] == g.current[i]);
                    assert(cur[j] == g.current[j]);
                } else {
                    assert(cur[i] == g.current[i]);
                    assert(g.current[i].0 <= g.current.last().0);
                }
            }
            assert(increasing(cur));
        }
    }
}

/// Law: the boards of a file come in line order, each non-empty and in
/// line order itself.
pub proof fn lemma_boards_in_order(source: Seq<char>)
    requires
        source.len() <= usize::MAX,
    ensures
        boards_in_order(boards_of(source)),
{
    let ls = lines(source);
    lemma_lines_len(source);
    lemma_group_lines_ok(ls);
    let g = group_lines(ls);
    if g.current.len() > 0 {
        let boards = g.boards.push(g.current);
        assert forall|i: int| 0 <= i < boards.len() implies (#[trigger] boards[i]).len() > 0 && increasing(boards[i]) by {
            if i < g.boards.len() {
                assert(boards[i] == g.boards[i]);
            }
        }
        assert forall|i: int, j: int|
            0 <= i < j < boards.len() implies (#[trigger] boards[i]).last().0 < (#[trigger] boards[j])[0].0 by {
            assert(boards[i] == g.boards[i]);
            if j < g.boards.len() {
                assert(boards[j] == g.boards[j]);
            } else {
                assert(boards[j] == g.current);
            }
        }
    }
}

proof fn lemma_prefix_ordered(boards: Seq<BoardLines>, n: int)
    requires
        boards_in_order(boards),
        0 <= n <= boards.len(),
    ensures
        ordered_by_line(boards_findings(boards).take(n).flatten()),
        n > 0 ==> findings_within(
            boards_findings(boards).take(n).flatten(),
            0,
            boards[n - 1].last().0 as int,
        ),
    decreases n,
{
    let bf = boards_findings(boards);
    if n == 0 {
        assert(bf.take(0).flatten() =~= Seq::<FindingView>::empty());
    } else {
        let i = n - 1;
        lemma_prefix_ordered(boards, i);
        let b = boards[i];
        assert(b.len() > 0 && increasing(b));
        let lo = b[0].0 as int;
        let hi = b.last().0 as int;
        assert forall|k: int| 0 <= k < b.len() implies lo <= (#[trigger] b[k]).0 <= hi by {
            if k > 0 {
                assert(b[0].0 < b[k].0);
            }
            if k < b.len() - 1 {
                assert(b[k].0 < b[b.len() - 1].0);
            }
        }
        lemma_board_findings_within(b, lo, hi);
        let seg = bf[i];
        assert(seg == board_findings(b));
        lemma_sort_by_line_orders(board_findings_unsorted(b));
        let before = bf.take(i).flatten();
        assert(bf.take(i + 1) =~= bf.take(i).push(seg));
        bf.take(i).lemma_flatten_push(seg);
        let after = before + seg;
        if i > 0 {
            assert(boards[i - 1].last().0 < boards[i][0].0);
        }
        assert forall|p: int, q: int| 0 <= p <= q < after.len() implies after[p].line <= after[q].line by {
            if q < before.len() {
                assert(after[p] == before[p] && after[q] == before[q]);
            } else if p >= before.len() {
                assert(after[p] == seg[p - before.len()] && after[q] == seg[q - before.len()]);
            } else {
                assert(after[p] == before[p] && after[q] == seg[q - before.len()]);
            }
        }
        assert forall|k: int| 0 <= k < after.len() implies 0 <= (#[trigger] after[k]).line <= hi by {
            if k < before.len() {
                assert(after[k] == before[k]);
            } else {
                assert(after[k] == seg[k - before.len()]);
            }
        }
    }
}

/// Law: `lint` reports findings ordered by line number.
pub proof fn lemma_lint_ordered(source: Seq<char>)
    requires
        source.len() <= usize::MAX,
    ensures
        ordered_by_line(lint_findings(source)),
{
    let boards = boards_of(source);
    lemma_boards_in_order(source);
    lemma_prefix_ordered(boards, boards.len() as int);
    assert(boards_findings(boards).take(boards.len() as int) =~= boards_findings(boards));
}

/// What scanning keeps: at most `size` rows, each of `size` cells in range,
/// a line number per row, and, when nothing is reported, no row repeats.
pub proof fn lemma_scan_facts(lines: BoardLines, size: usize)
    ensures
        ({
            let sc = scan_lines(lines, size);
            &&& sc.rows.len() <= size
            &&& sc.nums.len() == sc.rows.len()
            &&& rows_ok(sc.rows, size)
            &&& sc.findings.len() == 0 ==> forall|r: int|
                0 <= r < sc.rows.len() ==> (#[trigger] repeated_digits(sc.rows[r])).len() == 0
        }),
    decreases lines.len(),
{
    if lines.len() > 0 {
        let prev = lines.drop_last();
        lemma_scan_facts(prev, size);
        let sc0 = scan_lines(prev, size);
        let sc = scan_lines(lines, size);
        if sc0.rows.len() != size {
            if let Ok(cells) = parse_row_spec(lines.last().1, size) {
                lemma_parsed_row_in_range(lines.last().1, size);
                assert forall|r: int| 0 <= r < sc.rows.len() implies {
                    &&& (#[trigger] sc.rows[r]).len() == size
                    &&& forall|c: int| 0 <= c < size ==> cell_in_range(#[trigger] sc.rows[r][c], size)
                } by {
                    if r < sc0.rows.len() {
                        assert(sc.rows[r] == sc0.rows[r]);
                    }
                }
                if sc.findings.len() == 0 {
                    assert(sc.findings == sc0.findings + row_dup_findings(lines.last().0, cells));
                    assert forall|r: int| 0 <= r < sc.rows.len() implies (#[trigger] repeated_digits(
                        sc.rows[r],
                    )).len() == 0 by {
                        if r < sc0.rows.len() {
                            assert(sc.rows[r] == sc0.rows[r]);
                        } else {
                            assert(sc.rows[r] == cells);
                        }
                    }
                }
            }
        }
    }
}

/// The grid read from rows of `n` cells holds, at `(r, c)`, the digit of
/// that cell or 0 for an empty one.
proof fn lemma_start_cell(rows: Seq<Seq<Option<u8>>>, n: int, r: int, c: int)
    requires
        rows.len() == n,
        0 <= n <= 255,
        rows_ok(rows, n as usize),
        0 <= r < n,
        0 <= c < n,
    ensures
        start_grid(rows, n)[r][c] == start_cell(rows, r, c),
        start_cell(rows, r, c) != 0 <==> rows[r][c] is Some,
        rows[r][c] matches Some(d) ==> start_cell(rows, r, c) == d && 1 <= d <= n,
{
    assert(rows[r].len() == n);
    assert(cell_in_range(rows[r][c], n as usize));
}

/// No row, column or box of `rows` holds a digit twice.
pub open spec fn units_clean(rows: Seq<Seq<Option<u8>>>, n: int, bs: int) -> bool {
    &&& forall|r: int| 0 <= r < n ==> no_repeats(#[trigger] row_items(rows[r]))
    &&& forall|c: int| 0 <= c < n ==> no_repeats(#[trigger] column_items(rows, c))
    &&& forall|br: int, bc: int| 0 <= br < bs && 0 <= bc < bs ==> no_repeats(#[trigger] box_items(rows, bs, br, bc))
}

proof fn lemma_consistent_rows_clean(rows: Seq<Seq<Option<u8>>>, n: int, bs: int)
    requires
        (bs == 3 && n == 9) || (bs == 4 && n == 16),
        rows.len() == n,
        rows_ok(rows, n as usize),
        givens_consistent(start_grid(rows, n), n, bs, n),
    ensures
        forall|r: int| 0 <= r < n ==> no_repeats(#[trigger] row_items(rows[r])),
{
    assert forall|r: int| 0 <= r < n implies no_repeats(#[trigger] row_items(rows[r])) by {
        let items = row_items(rows[r]);
        assert forall|i: int, j: int|
            0 <= i < j < items.len() && (#[trigger] items[i]).2 is Some implies (#[trigger] items[j]).2
                != items[i].2 by {
            assert(rows[r].len() == n);
            lemma_start_cell(rows, n, r, i);
            lemma_start_cell(rows, n, r, j);
            assert(peers(bs, r, i, r, j));
        }
    }
}

proof fn lemma_consistent_columns_clean(rows: Seq<Seq<Option<u8>>>, n: int, bs: int)
    requires
        (bs == 3 && n == 9) || (bs == 4 && n == 16),
        rows.len() == n,
        rows_ok(rows, n as usize),
        givens_consistent(start_grid(rows, n), n, bs, n),
    ensures
        forall|c: int| 0 <= c < n ==> no_repeats(#[trigger] column_items(rows, c)),
{
    assert forall|c: int| 0 <= c < n implies no_repeats(#[trigger] column_items(rows, c)) by {
        let items = column_items(rows, c);
        assert forall|i: int, j: int|
            0 <= i < j < items.len() && (#[trigger] items[i]).2 is Some implies (#[trigger] items[j]).2
                != items[i].2 by {
            lemma_start_cell(rows, n, i, c);
            lemma_start_cell(rows, n, j, c);
            assert(peers(bs, i, c, j, c));
        }
    }
}

proof fn lemma_consistent_boxes_clean(rows: Seq<Seq<Option<u8>>>, n: int, bs: int)
    requires
        (bs == 3 && n == 9) || (bs == 4 && n == 16),
        rows.len() == n,
        rows_ok(rows, n as usize),
        givens_consistent(start_grid(rows, n), n, bs, n),
    ensures
        forall|br: int, bc: int| 0 <= br < bs && 0 <= bc < bs ==> no_repeats(#[trigger] box_items(rows, bs, br, bc)),
{
    assert forall|br: int, bc: int| 0 <= br < bs && 0 <= bc < bs implies no_repeats(
        #[trigger] box_items(rows, bs, br, bc),
    ) by {
        let items = box_items(rows, bs, br, bc);
        assert forall|i: int, j: int|
            0 <= i < j < items.len() && (#[trigger] items[i]).2 is Some implies (#[trigger] items[j]).2
                != items[i].2 by {
            lemma_box_item_at(rows, bs, br, bc, i);
            lemma_box_item_at(rows, bs, br, bc, j);
            let r = br * bs + i / bs;
            let c = bc * bs + i % bs;
            let r2 = br * bs + j / bs;
            let c2 = bc * bs + j % bs;
            lemma_in_box(bs, n, br, i / bs);
            lemma_in_box(bs, n, bc, i % bs);
            lemma_in_box(bs, n, br, j / bs);
            lemma_in_box(bs, n, bc, j % bs);
            assert(0 <= r < n && 0 <= c < n && 0 <= r2 < n && 0 <= c2 < n);
            assert(items[i] == (r as usize, c as usize, rows[r][c]));
            assert(items[j] == (r2 as usize, c2 as usize, rows[r2][c2]));
            assert(r / bs == br && r2 / bs == br && c / bs == bc && c2 / bs == bc);
            assert(r != r2 || c != c2);
            lemma_start_cell(rows, n, r, c);
            lemma_start_cell(rows, n, r2, c2);
            assert(peers(bs, r, c, r2, c2));
        }
    }
}

/// Row (or column) `r` of a board lies in band `r / bs`, at offset `r % bs`.
proof fn lemma_box_of(bs: int, n: int, r: int)
    requires
        (bs == 3 && n == 9) || (bs == 4 && n == 16),
        0 <= r < n,
    ensures
        0 <= r / bs < bs,
        0 <= r % bs < bs,
        r == (r / bs) * bs + r % bs,
{
    if bs == 3 {
        assert(0 <= r / 3 < 3 && 0 <= r % 3 < 3 && r == (r / 3) * 3 + r % 3);
    } else {
        assert(0 <= r / 4 < 4 && 0 <= r % 4 < 4 && r == (r / 4) * 4 + r % 4);
    }
}

/// Offset `d` of band `b` is row `b * bs + d` of the board, in band `b`.
proof fn lemma_in_box(bs: int, n: int, b: int, d: int)
    requires
        (bs == 3 && n == 9) || (bs == 4 && n == 16),
        0 <= b < bs,
        0 <= d < bs,
    ensures
        0 <= b * bs + d < n,
        (b * bs + d) / bs == b,
        (b * bs + d) % bs == d,
{
    if bs == 3 {
        assert(0 <= b * 3 + d < 9 && (b * 3 + d) / 3 == b && (b * 3 + d) % 3 == d);
    } else {
        assert(0 <= b * 4 + d < 16 && (b * 4 + d) / 4 == b && (b * 4 + d) % 4 == d);
    }
}

proof fn lemma_clean_consistent(rows: Seq<Seq<Option<u8>>>, n: int, bs: int)
    requires
        (bs == 3 && n == 9) || (bs == 4 && n == 16),
        rows.len() == n,
        rows_ok(rows, n as usize),
        units_clean(rows, n, bs),
    ensures
        givens_consistent(start_grid(rows, n), n, bs, n),
{
    let g = start_grid(rows, n);
    assert forall|r: int, c: int, r2: int, c2: int|
        crate::solver::in_grid(n, r, c) && crate::solver::in_grid(n, r2, c2) && #[trigger] g[r][c] != 0 implies {
            &&& g[r][c] <= n
            &&& (peers(bs, r, c, r2, c2) && #[trigger] g[r2][c2] != 0 ==> g[r2][c2] != g[r][c])
        } by {
        lemma_start_cell(rows, n, r, c);
        lemma_start_cell(rows, n, r2, c2);
        if peers(bs, r, c, r2, c2) && g[r2][c2] != 0 && g[r2][c2] == g[r][c] {
            if r == r2 {
                let items = row_items(rows[r]);
                assert(no_repeats(items));
                assert(items[c].2 == rows[r][c]);
                assert(items[c2].2 == rows[r][c2]);
            } else if c == c2 {
                let items = column_items(rows, c);
                assert(no_repeats(items));
                assert(items[r].2 == rows[r][c]);
                assert(items[r2].2 == rows[r2][c]);
            } else {
                let br = r / bs;
                let bc = c / bs;
                let dr = r % bs;
                let dc = c % bs;
                let dr2 = r2 % bs;
                let dc2 = c2 % bs;
                lemma_box_of(bs, n, r);
                lemma_box_of(bs, n, c);
                lemma_box_of(bs, n, r2);
                lemma_box_of(bs, n, c2);
                assert(r2 / bs == br && c2 / bs == bc);
                assert(r == br * bs + dr && r2 == br * bs + dr2);
                assert(c == bc * bs + dc && c2 == bc * bs + dc2);
                assert(0 <= br < bs && 0 <= bc < bs);
                assert(0 <= dr < bs && 0 <= dc < bs && 0 <= dr2 < bs && 0 <= dc2 < bs);
                lemma_box_item(rows, bs, br, bc, dr, dc);
                lemma_box_item(rows, bs, br, bc, dr2, dc2);
                let items = box_items(rows, bs, br, bc);
                assert(no_repeats(items));
                let i1 = dr * bs + dc;
                let i2 = dr2 * bs + dc2;
                assert(items[i1].2 == rows[r][c]);
                assert(items[i2].2 == rows[r2][c2]);
                assert(i1 != i2);
            }
        }
    }
}

/// The grid of a board of `bs * bs` rows has clashing digits exactly when
/// some row, column or box holds a digit twice.
proof fn lemma_consistent_iff_clean(rows: Seq<Seq<Option<u8>>>, n: int, bs: int)
    requires
        (bs == 3 && n == 9) || (bs == 4 && n == 16),
        rows.len() == n,
        rows_ok(rows, n as usize),
    ensures
        givens_consistent(start_grid(rows, n), n, bs, n) <==> units_clean(rows, n, bs),
{
    if units_clean(rows, n, bs) {
        lemma_clean_consistent(rows, n, bs);
    }
    if givens_consistent(start_grid(rows, n), n, bs, n) {
        lemma_consistent_rows_clean(rows, n, bs);
        lemma_consistent_columns_clean(rows, n, bs);
        lemma_consistent_boxes_clean(rows, n, bs);
    }
}

/// The cells of a line that parses; nothing for one that does not.
pub open spec fn ok_cells(r: Result<Seq<Option<u8>>, Seq<char>>) -> Seq<Option<u8>> {
    match r {
        Ok(cells) => cells,
        Err(_) => Seq::empty(),
    }
}

/// The rows that the lines of a board parse to, for a board of `size` rows.
pub open spec fn parsed_rows(lines: BoardLines, size: usize) -> Seq<Seq<Option<u8>>> {
    Seq::new(lines.len(), |k: int| ok_cells(parse_row_spec(lines[k].1, size)))
}

/// Scanning reports nothing exactly when there is no line too many, every
/// line parses, and no row holds a digit twice; the rows are then those the
/// lines parse to.
proof fn lemma_scan_clean(lines: BoardLines, size: usize)
    ensures
        ({
            let sc = scan_lines(lines, size);
            let clean = {
                &&& lines.len() <= size
                &&& forall|k: int| 0 <= k < lines.len() ==> (#[trigger] parse_row_spec(lines[k].1, size)) is Ok
                &&& forall|k: int|
                    0 <= k < lines.len() ==> (#[trigger] repeated_digits(parsed_rows(lines, size)[k])).len() == 0
            };
            &&& sc.findings.len() == 0 <==> clean
            &&& clean ==> sc.rows == parsed_rows(lines, size)
        }),
    decreases lines.len(),
{
    if lines.len() > 0 {
        let prev = lines.drop_last();
        lemma_scan_clean(prev, size);
        lemma_scan_facts(prev, size);
        let sc0 = scan_lines(prev, size);
        let sc = scan_lines(lines, size);
        let last = lines.last();
        let pr = parsed_rows(lines, size);
        let pr0 = parsed_rows(prev, size);
        assert forall|k: int| 0 <= k < prev.len() implies prev[k] == lines[k] && pr0[k] == pr[k] by {}
        let clean0 = {
            &&& prev.len() <= size
            &&& forall|k: int| 0 <= k < prev.len() ==> (#[trigger] parse_row_spec(prev[k].1, size)) is Ok
            &&& forall|k: int| 0 <= k < prev.len() ==> (#[trigger] repeated_digits(pr0[k])).len() == 0
        };
        let clean = {
            &&& lines.len() <= size
            &&& forall|k: int| 0 <= k < lines.len() ==> (#[trigger] parse_row_spec(lines[k].1, size)) is Ok
            &&& forall|k: int| 0 <= k < lines.len() ==> (#[trigger] repeated_digits(pr[k])).len() == 0
        };
        if clean {
            assert(clean0) by {
                assert forall|k: int| 0 <= k < prev.len() implies (#[trigger] parse_row_spec(prev[k].1, size)) is Ok by {
                    assert(parse_row_spec(lines[k].1, size) is Ok);
                }
                assert forall|k: int| 0 <= k < prev.len() implies (#[trigger] repeated_digits(pr0[k])).len() == 0 by {
                    assert(repeated_digits(pr[k]).len() == 0);
                }
            }
            assert(sc0.rows.len() == prev.len());
            assert(parse_row_spec(lines[lines.len() - 1].1, size) is Ok);
            assert(repeated_digits(pr[lines.len() - 1]).len() == 0);
            assert(sc.rows =~= pr);
        }
        if sc.findings.len() == 0 {
            assert(sc0.findings.len() <= sc.findings.len());
            assert(sc0.rows.len() != size);
            assert(parse_row_spec(last.1, size) is Ok);
            assert(sc0.rows == pr0);
            assert(sc0.rows.len() == prev.len());
            let cells = ok_cells(parse_row_spec(last.1, size));
            assert(row_dup_findings(last.0, cells).len() == 0);
            assert(pr[lines.len() - 1] == cells);
            assert forall|k: int| 0 <= k < lines.len() implies (#[trigger] parse_row_spec(lines[k].1, size)) is Ok by {
                if k < prev.len() {
                    assert(parse_row_spec(prev[k].1, size) is Ok);
                }
            }
            assert forall|k: int| 0 <= k < lines.len() implies (#[trigger] repeated_digits(pr[k])).len() == 0 by {
                if k < prev.len() {
                    assert(repeated_digits(pr0[k]).len() == 0);
                }
            }
        }
    }
}

/// A board whose lines all parse, as many as its size, with no digit twice
/// in a row, column or box, and with a genuine solution: a full grid keeping
/// its digits, each digit from 1 to its size once in every row, column and box.
pub open spec fn board_sound(bl: BoardLines) -> bool {
    let size = board_size(bl);
    let n = size as int;
    let bs = board_box(bl) as int;
    let rows = parsed_rows(bl, size);
    &&& bl.len() == size
    &&& forall|k: int| 0 <= k < bl.len() ==> (#[trigger] parse_row_spec(bl[k].1, size)) is Ok
    &&& givens_consistent(start_grid(rows, n), n, bs, n)
    &&& exists|h: Seq<Seq<u8>>| is_solution(h, n, bs, n) && extends(start_grid(rows, n), h, n)
}

/// Law: `lint` finds nothing wrong with a board exactly when the board is
/// sound: all its rows well formed, no digit twice in a row, column or box,
/// and a genuine solution that keeps its digits.
pub proof fn lemma_board_clean_iff_sound(bl: BoardLines)
    ensures
        board_findings(bl).len() == 0 <==> board_sound(bl),
{
    broadcast use vstd::seq_lib::group_to_multiset_ensures;

    let size = board_size(bl);
    let bs = board_box(bl);
    let n = size as int;
    let b = bs as int;
    let sc = scan_lines(bl, size);
    let raw = board_findings_unsorted(bl);
    lemma_sort_by_line_orders(raw);
    assert(raw.len() == sort_by_line(raw).to_multiset().len());
    lemma_scan_facts(bl, size);
    lemma_scan_clean(bl, size);
    let last = last_line(bl);
    let f1 = if sc.rows.len() < size {
        sc.findings.push(error_at(last, msg_missing_rows(size, sc.rows.len())))
    } else {
        sc.findings
    };
    let cf = column_findings(sc.nums, sc.rows);
    let bf = box_findings(sc.nums, sc.rows, bs);
    let f2 = f1 + cf + bf;
    let top = top_digit(n);
    assert(top == n);
    assert(n == b * b);
    let pr = parsed_rows(bl, size);
    if raw.len() == 0 {
        assert(f2.len() == 0);
        assert(sc.rows.len() == size);
        assert(sc.findings.len() == 0);
        assert(sc.rows == pr);
        assert(column_dups(sc.rows).len() == 0);
        assert(box_dups(sc.rows, b).len() == 0);
        let g = start_grid(pr, n);
        assert(completable(g, n, b, top));
        assert(pr[0].len() == size);
        assert forall|c: int| 0 <= c < n implies no_repeats(#[trigger] column_items(pr, c)) by {
            lemma_column_clean(pr, c);
        }
        assert forall|br: int, bc: int| 0 <= br < b && 0 <= bc < b implies no_repeats(
            #[trigger] box_items(pr, b, br, bc),
        ) by {
            lemma_box_clean(pr, b, br, bc);
        }
        assert forall|r: int| 0 <= r < n implies no_repeats(#[trigger] row_items(pr[r])) by {
            lemma_row_clean(pr[r]);
        }
        lemma_consistent_iff_clean(pr, n, b);
        lemma_completable_iff_solution(g, n, b, top);
        assert(board_sound(bl));
    }
    if board_sound(bl) {
        let g = start_grid(pr, n);
        assert forall|k: int| 0 <= k < pr.len() implies (#[trigger] pr[k]).len() == size
            && forall|c: int| 0 <= c < size ==> cell_in_range(#[trigger] pr[k][c], size) by {
            lemma_parsed_row_in_range(bl[k].1, size);
        }
        assert(rows_ok(pr, size));
        lemma_consistent_iff_clean(pr, n, b);
        assert forall|k: int| 0 <= k < bl.len() implies (#[trigger] repeated_digits(pr[k])).len() == 0 by {
            lemma_row_no_repeats(pr[k]);
        }
        assert(sc.findings.len() == 0);
        assert(sc.rows == pr);
        lemma_columns_clean(pr);
        lemma_boxes_clean(pr, b);
        assert(cf.len() == 0);
        assert(bf.len() == 0);
        assert(f2.len() == 0);
        assert(square(g, n));
        lemma_completable_iff_solution(g, n, b, top);
        assert(raw.len() == 0);
    }
}

/// Law: `lint` reports nothing for a file exactly when every board in it
/// is sound.
pub proof fn lemma_file_clean_iff_sound(source: Seq<char>)
    ensures
        lint_findings(source).len() == 0 <==> forall|i: int|
            0 <= i < boards_of(source).len() ==> board_sound(#[trigger] boards_of(source)[i]),
{
    let boards = boards_of(source);
    let parts = boards_findings(boards);
    if lint_findings(source).len() == 0 {
        lemma_flatten_empty(parts);
        assert forall|i: int| 0 <= i < boards.len() implies board_sound(#[trigger] boards[i]) by {
            assert(parts[i].len() == 0);
            lemma_board_clean_iff_sound(boards[i]);
        }
    }
    if forall|i: int| 0 <= i < boards.len() ==> board_sound(#[trigger] boards[i]) {
        assert forall|i: int| 0 <= i < parts.len() implies (#[trigger] parts[i]).len() == 0 by {
            assert(board_sound(boards[i]));
            lemma_board_clean_iff_sound(boards[i]);
        }
        lemma_flatten_of_empties(parts);
    }
}

/// Line `x` (counted from 1) is a line of `source` that carries board data.
pub open spec fn names_source_line(source: Seq<char>, x: usize) -> bool {
    1 <= x <= lines(source).len() && !ignorable(lines(source)[x - 1])
}

/// An entry of a board is line `e.0` of `ls`, with its text, and carries board data.
pub open spec fn entry_ok(ls: Seq<Seq<char>>, e: (usize, Seq<char>)) -> bool {
    1 <= e.0 <= ls.len() && ls[e.0 - 1] == e.1 && !ignorable(e.1)
}

/// Every entry of `b` is a data line of `ls`.
pub open spec fn entries_ok(ls: Seq<Seq<char>>, b: BoardLines) -> bool {
    forall|k: int| 0 <= k < b.len() ==> entry_ok(ls, #[trigger] b[k])
}

proof fn lemma_entries_extend(prev: Seq<Seq<char>>, ls: Seq<Seq<char>>, b: BoardLines)
    requires
        prev == ls.drop_last(),
        ls.len() > 0,
        entries_ok(prev, b),
    ensures
        entries_ok(ls, b),
{
    assert forall|k: int| 0 <= k < b.len() implies entry_ok(ls, #[trigger] b[k]) by {
        assert(entry_ok(prev, b[k]));
        assert(prev[b[k].0 - 1] == ls[b[k].0 - 1]);
    }
}

/// Every board entry of a grouping is a data line of the lines grouped.
pub proof fn lemma_group_entries(ls: Seq<Seq<char>>)
    requires
        ls.len() <= usize::MAX,
    ensures
        forall|i: int| 0 <= i < group_lines(ls).boards.len() ==> entries_ok(ls, #[trigger] group_lines(ls).boards[i]),
        entries_ok(ls, group_lines(ls).current),
    decreases ls.len(),
{
    if ls.len() > 0 {
        let prev = ls.drop_last();
        lemma_group_entries(prev);
        let g = group_lines(prev);
        let g2 = group_lines(ls);
        assert forall|i: int| 0 <= i < g.boards.len() implies entries_ok(ls, #[trigger] g.boards[i]) by {
            lemma_entries_extend(prev, ls, g.boards[i]);
        }
        lemma_entries_extend(prev, ls, g.current);
        let t = trim(ls.last());
        if t.len() == 0 {
            assert forall|i: int| 0 <= i < g2.boards.len() implies entries_ok(ls, #[trigger] g2.boards[i]) by {
                if i < g.boards.len() {
                    assert(g2.boards[i] == g.boards[i]);
                }
            }
        } else if t[0] != '#' {
            let e = (ls.len() as usize, ls.last());
            assert(entry_ok(ls, e));
            assert forall|k: int| 0 <= k < g2.current.len() implies entry_ok(ls, #[trigger] g2.current[k]) by {
                if k < g.current.len() {
                    assert(g2.current[k] == g.current[k]);
                }
            }
        }
    }
}

proof fn lemma_flatten_findings_in(parts: Seq<Seq<FindingView>>, set: Set<usize>)
    requires
        forall|i: int| 0 <= i < parts.len() ==> findings_in(#[trigger] parts[i], set),
    ensures
        findings_in(parts.flatten(), set),
    decreases parts.len(),
{
    if parts.len() > 0 {
        let rest = parts.drop_first();
        assert forall|i: int| 0 <= i < rest.len() implies findings_in(#[trigger] rest[i], set) by {
            assert(rest[i] == parts[i + 1]);
        }
        lemma_flatten_findings_in(rest, set);
        assert(findings_in(parts[0], set));
        lemma_concat_in(parts[0], rest.flatten(), set);
        assert(parts.flatten() == parts[0] + rest.flatten());
    }
}

/// Law: every finding of `lint` is an error on a line of the file that
/// carries board data (neither blank nor a comment).
pub proof fn lemma_lint_names_data_lines(source: Seq<char>)
    requires
        source.len() <= usize::MAX,
    ensures
        forall|k: int|
            0 <= k < lint_findings(source).len() ==> names_source_line(source, (#[trigger] lint_findings(source)[k]).line)
                && lint_findings(source)[k].severity == Severity::Error,
{
    let ls = lines(source);
    lemma_lines_len(source);
    lemma_group_entries(ls);
    lemma_boards_in_order(source);
    let set = Set::new(|x: usize| names_source_line(source, x));
    let g = group_lines(ls);
    let boards = boards_of(source);
    assert forall|i: int| 0 <= i < boards.len() implies lines_in(#[trigger] boards[i], set) by {
        let b = boards[i];
        if i < g.boards.len() {
            assert(b == g.boards[i]);
            assert(entries_ok(ls, b));
        } else {
            assert(b == g.current);
        }
        assert forall|k: int| 0 <= k < b.len() implies set.contains((#[trigger] b[k]).0) by {
            assert(entry_ok(ls, b[k]));
        }
    }
    let parts = boards_findings(boards);
    assert forall|i: int| 0 <= i < parts.len() implies findings_in(#[trigger] parts[i], set) by {
        assert(boards[i].len() > 0);
        lemma_board_findings_in(boards[i], set);
    }
    lemma_flatten_findings_in(parts, set);
    let fs = lint_findings(source);
    assert forall|k: int| 0 <= k < fs.len() implies names_source_line(source, (#[trigger] fs[k]).line) by {
        assert(set.contains(fs[k].line));
    }
}

proof fn lemma_message_starts(m: Seq<char>, lit: Seq<char>, rest: Seq<char>, c: char)
    requires
        m == lit + rest,
        lit.len() > 0,
        lit[0] == c,
    ensures
        m.len() > 0,
        m[0] == c,
{
}

/// The first character of each message a board can get.
pub(crate) proof fn lemma_message_firsts(size: usize, found: nat, c: char, position: nat, d: u8, col: usize, row: usize, bs: usize)
    ensures
        msg_wrong_width(size, found).len() > 0 && msg_wrong_width(size, found)[0] == 'e',
        msg_invalid_char(c, position).len() > 0 && msg_invalid_char(c, position)[0] == 'i',
        msg_extra_row(size).len() > 0 && msg_extra_row(size)[0] == 'u',
        msg_row_dup(d).len() > 0 && msg_row_dup(d)[0] == 'd',
        msg_missing_rows(size, found).len() > 0 && msg_missing_rows(size, found)[0] == 'e',
        msg_col_dup(d, col).len() > 0 && msg_col_dup(d, col)[0] == 'd',
        msg_box_dup(bs, d, row, col).len() > 0 && msg_box_dup(bs, d, row, col)[0] == 'd',
        msg_unsolvable().len() > 0 && msg_unsolvable()[0] == 'b',
{
    reveal_strlit("expected ");
    reveal_strlit("invalid character '");
    reveal_strlit("unexpected extra row, board already has ");
    reveal_strlit("duplicate digit '");
    reveal_strlit("board has no valid solution");
    assert(msg_wrong_width(size, found) =~= "expected "@ + (decimal(size as nat) + " cells, found "@ + decimal(found)));
    assert(msg_invalid_char(c, position) =~= "invalid character '"@ + (seq![c] + "' at position "@ + decimal(position)));
    assert(msg_missing_rows(size, found) =~= "expected "@ + (decimal(size as nat) + " rows, found "@ + decimal(found)));
    lemma_message_starts(
        msg_wrong_width(size, found),
        "expected "@,
        decimal(size as nat) + " cells, found "@ + decimal(found),
        'e',
    );
    lemma_message_starts(
        msg_invalid_char(c, position),
        "invalid character '"@,
        seq![c] + "' at position "@ + decimal(position),
        'i',
    );
    lemma_message_starts(
        msg_missing_rows(size, found),
        "expected "@,
        decimal(size as nat) + " rows, found "@ + decimal(found),
        'e',
    );
    assert(msg_row_dup(d) =~= "duplicate digit '"@ + (digit_text(d) + "' in row"@));
    assert(msg_col_dup(d, col) =~= "duplicate digit '"@ + (digit_text(d) + "' in column "@ + decimal(col as nat + 1)));
    assert(msg_box_dup(bs, d, row, col) =~= "duplicate digit '"@ + (digit_text(d) + "' in "@ + decimal(bs as nat) + "x"@
        + decimal(bs as nat) + " box at row "@ + decimal(row as nat + 1) + ", column "@ + decimal(col as nat + 1)));
    lemma_message_starts(msg_row_dup(d), "duplicate digit '"@, digit_text(d) + "' in row"@, 'd');
    lemma_message_starts(
        msg_col_dup(d, col),
        "duplicate digit '"@,
        digit_text(d) + "' in column "@ + decimal(col as nat + 1),
        'd',
    );
    lemma_message_starts(
        msg_box_dup(bs, d, row, col),
        "duplicate digit '"@,
        digit_text(d) + "' in "@ + decimal(bs as nat) + "x"@ + decimal(bs as nat) + " box at row "@ + decimal(
            row as nat + 1,
        ) + ", column "@ + decimal(col as nat + 1),
        'd',
    );
}

/// The row-repeat findings of the lines, line by line, each line's cells
/// taken as it parses.
pub open spec fn row_dup_part(lines: BoardLines, size: usize) -> Seq<FindingView> {
    row_dup_groups(lines, size).flatten()
}

/// The row-repeat findings of each line.
pub open spec fn row_dup_groups(lines: BoardLines, size: usize) -> Seq<Seq<FindingView>> {
    Seq::new(lines.len(), |k: int| row_dup_findings(lines[k].0, ok_cells(parse_row_spec(lines[k].1, size))))
}

/// An extra-row finding for each line past the first `size`.
pub open spec fn extra_part(lines: BoardLines, size: usize) -> Seq<FindingView> {
    Seq::new(
        if lines.len() > size { (lines.len() - size) as nat } else { 0 },
        |j: int| error_at(lines[size + j].0, msg_extra_row(size)),
    )
}

/// The number of lines a board of `size` rows keeps as rows.
pub open spec fn kept(lines: BoardLines, size: usize) -> int {
    if lines.len() < size {
        lines.len() as int
    } else {
        size as int
    }
}

/// The line numbers of lines.
pub open spec fn line_numbers(lines: BoardLines) -> Seq<usize> {
    lines.map_values(|l: (usize, Seq<char>)| l.0)
}

/// When the lines a board keeps all parse, scanning keeps their cells and
/// line numbers and reports their row repeats, then an extra row for each
/// further line.
proof fn lemma_scan_parsed(lines: BoardLines, size: usize)
    requires
        forall|k: int| 0 <= k < kept(lines, size) ==> (#[trigger] parse_row_spec(lines[k].1, size)) is Ok,
    ensures
        ({
            let sc = scan_lines(lines, size);
            let m = kept(lines, size);
            &&& sc.rows == parsed_rows(lines.take(m), size)
            &&& sc.nums == line_numbers(lines.take(m))
            &&& sc.findings == row_dup_part(lines.take(m), size) + extra_part(lines, size)
        }),
    decreases lines.len(),
{
    let m = kept(lines, size);
    if lines.len() == 0 {
        assert(row_dup_groups(lines.take(m), size).flatten() =~= Seq::<FindingView>::empty());
        assert(extra_part(lines, size) =~= Seq::<FindingView>::empty());
        assert(parsed_rows(lines.take(m), size) =~= Seq::<Seq<Option<u8>>>::empty());
        assert(line_numbers(lines.take(m)) =~= Seq::<usize>::empty());
    } else {
        let prev = lines.drop_last();
        let m0 = kept(prev, size);
        assert forall|k: int| 0 <= k < m0 implies (#[trigger] parse_row_spec(prev[k].1, size)) is Ok by {
            assert(prev[k] == lines[k]);
            assert(parse_row_spec(lines[k].1, size) is Ok);
        }
        lemma_scan_parsed(prev, size);
        let sc0 = scan_lines(prev, size);
        let sc = scan_lines(lines, size);
        let last = lines.last();
        if lines.len() <= size {
            assert(m == lines.len() && m0 == prev.len());
            assert(lines.take(m) =~= lines);
            assert(prev.take(m0) =~= prev);
            assert(sc0.rows.len() == prev.len());
            assert(parse_row_spec(lines[lines.len() - 1].1, size) is Ok);
            let cells = ok_cells(parse_row_spec(last.1, size));
            assert(sc.rows =~= parsed_rows(lines.take(m), size));
            assert(sc.nums =~= line_numbers(lines.take(m)));
            let groups = row_dup_groups(lines, size);
            assert(groups =~= row_dup_groups(prev, size).push(row_dup_findings(last.0, cells)));
            row_dup_groups(prev, size).lemma_flatten_push(row_dup_findings(last.0, cells));
            assert(extra_part(lines, size) =~= Seq::<FindingView>::empty());
            assert(extra_part(prev, size) =~= Seq::<FindingView>::empty());
            assert(sc.findings =~= row_dup_part(lines.take(m), size) + extra_part(lines, size));
        } else {
            assert(m == size && m0 == size);
            assert(prev.take(m0) =~= lines.take(m));
            assert(sc0.rows.len() == size);
            assert(extra_part(lines, size) =~= extra_part(prev, size).push(error_at(last.0, msg_extra_row(size))));
            assert(sc.findings =~= row_dup_part(lines.take(m), size) + extra_part(lines, size));
        }
    }
}

/// The missing-rows finding of a board, if it has too few lines.
pub open spec fn missing_part(bl: BoardLines) -> Seq<FindingView> {
    if bl.len() < board_size(bl) {
        seq![error_at(last_line(bl), msg_missing_rows(board_size(bl), bl.len()))]
    } else {
        Seq::empty()
    }
}

/// The findings of a board whose kept lines all parse, in the order they
/// are found: row repeats, extra rows, missing rows, the column repeats and
/// box repeats of the kept rows, and a no-solution finding when nothing else
/// was found and the kept rows cannot be completed.
pub open spec fn board_parts(bl: BoardLines) -> Seq<FindingView> {
    let size = board_size(bl);
    let bs = board_box(bl);
    let m = kept(bl, size);
    let rows = parsed_rows(bl.take(m), size);
    let nums = line_numbers(bl.take(m));
    let found = row_dup_part(bl.take(m), size) + extra_part(bl, size) + missing_part(bl) + column_findings(nums, rows)
        + box_findings(nums, rows, bs);
    if found.len() == 0 && !(rows.len() == bs * bs && completable(
        start_grid(rows, bs * bs),
        bs * bs,
        bs as int,
        top_digit(bs * bs),
    )) {
        found.push(error_at(last_line(bl), msg_unsolvable()))
    } else {
        found
    }
}

/// Law: when the lines a board keeps all parse, its findings are exactly
/// the row repeats that `find_duplicates` gives for each kept row, an extra
/// row for each line past the board's size, a missing-rows finding when
/// there are too few lines, the column repeats of `find_column_duplicates`
/// and the box repeats of `find_box_duplicates` on the kept rows, and a
/// no-solution finding when there is nothing else and the rows cannot be
/// completed; ordered by line.
pub proof fn lemma_board_parts(bl: BoardLines)
    requires
        forall|k: int| 0 <= k < kept(bl, board_size(bl)) ==> (#[trigger] parse_row_spec(bl[k].1, board_size(bl))) is Ok,
    ensures
        board_findings_unsorted(bl) == board_parts(bl),
        board_findings(bl) == sort_by_line(board_parts(bl)),
        board_findings(bl).to_multiset() == board_parts(bl).to_multiset(),
{
    let size = board_size(bl);
    lemma_scan_parsed(bl, size);
    let sc = scan_lines(bl, size);
    let m = kept(bl, size);
    assert(sc.rows.len() == m);
    let f1 = if sc.rows.len() < size {
        sc.findings.push(error_at(last_line(bl), msg_missing_rows(size, sc.rows.len())))
    } else {
        sc.findings
    };
    assert(f1 =~= row_dup_part(bl.take(m), size) + extra_part(bl, size) + missing_part(bl));
    assert(board_findings_unsorted(bl) =~= board_parts(bl));
    lemma_sort_by_line_orders(board_parts(bl));
}

/// Law: a board whose lines all parse gets a missing-rows finding when it
/// has fewer lines than its size; otherwise it gets none, and gets an
/// extra-row finding on each line past its size.
pub proof fn lemma_row_count_findings(bl: BoardLines)
    requires
        bl.len() > 0,
        forall|k: int| 0 <= k < bl.len() ==> (#[trigger] parse_row_spec(bl[k].1, board_size(bl))) is Ok,
    ensures
        bl.len() < board_size(bl) ==> board_findings(bl).contains(
            error_at(bl.last().0, msg_missing_rows(board_size(bl), bl.len())),
        ),
        bl.len() >= board_size(bl) ==> {
            &&& forall|j: int|
                board_size(bl) <= j < bl.len() ==> board_findings(bl).contains(
                    error_at(#[trigger] bl[j].0, msg_extra_row(board_size(bl))),
                )
            &&& forall|k: int, found: nat|
                #![trigger board_findings(bl)[k], msg_missing_rows(board_size(bl), found)]
                0 <= k < board_findings(bl).len() ==> board_findings(bl)[k].message != msg_missing_rows(
                    board_size(bl),
                    found,
                )
        },
{
    broadcast use vstd::seq_lib::group_to_multiset_ensures;

    let size = board_size(bl);
    let bs = board_box(bl);
    assert forall|k: int| 0 <= k < kept(bl, size) implies (#[trigger] parse_row_spec(bl[k].1, size)) is Ok by {}
    lemma_board_parts(bl);
    let parts = board_parts(bl);
    let fs = board_findings(bl);
    let m = kept(bl, size);
    let rows = parsed_rows(bl.take(m), size);
    let nums = line_numbers(bl.take(m));
    let rp = row_dup_part(bl.take(m), size);
    let ep = extra_part(bl, size);
    let mp = missing_part(bl);
    let cf = column_findings(nums, rows);
    let bf = box_findings(nums, rows, bs);
    let found = rp + ep + mp + cf + bf;
    assert(parts == found || parts == found.push(error_at(last_line(bl), msg_unsolvable())));
    if bl.len() < size {
        let x = error_at(bl.last().0, msg_missing_rows(size, bl.len()));
        assert(mp[0] == x);
        assert(found[(rp.len() + ep.len()) as int] == x);
        if parts == found {
            assert(parts[(rp.len() + ep.len()) as int] == x);
        } else {
            assert(parts[(rp.len() + ep.len()) as int] == x);
        }
        assert(parts.contains(x));
        assert(parts.to_multiset().count(x) > 0);
        assert(fs.to_multiset().count(x) > 0);
    } else {
        assert forall|j: int| size <= j < bl.len() implies fs.contains(error_at(#[trigger] bl[j].0, msg_extra_row(size))) by {
            let x = error_at(bl[j].0, msg_extra_row(size));
            assert(ep[j - size] == x);
            assert(parts[rp.len() + (j - size)] == x);
            assert(parts.to_multiset().count(x) > 0);
            assert(fs.to_multiset().count(x) > 0);
        }
        assert forall|k: int, found_n: nat| #![trigger fs[k], msg_missing_rows(size, found_n)]
            0 <= k < fs.len() implies fs[k].message != msg_missing_rows(size, found_n) by {
            lemma_message_firsts(size, found_n, ' ', 0, 0, 0, 0, bs);
            assert(fs.to_multiset().count(fs[k]) > 0);
            assert(parts.to_multiset().count(fs[k]) > 0);
            let i = choose|i: int| 0 <= i < parts.len() && parts[i] == fs[k];
            lemma_parts_message_first(bl, i);
        }
    }
}

/// Under the row-count law's premise with enough lines, no finding of a
/// board starts like a missing-rows message.
proof fn lemma_parts_message_first(bl: BoardLines, i: int)
    requires
        bl.len() >= board_size(bl),
        0 <= i < board_parts(bl).len(),
    ensures
        board_parts(bl)[i].message.len() > 0,
        board_parts(bl)[i].message[0] != 'e',
{
    let size = board_size(bl);
    let bs = board_box(bl);
    let m = kept(bl, size);
    let rows = parsed_rows(bl.take(m), size);
    let nums = line_numbers(bl.take(m));
    let rp = row_dup_part(bl.take(m), size);
    let ep = extra_part(bl, size);
    let mp = missing_part(bl);
    let cf = column_findings(nums, rows);
    let bf = box_findings(nums, rows, bs);
    let found = rp + ep + mp + cf + bf;
    let parts = board_parts(bl);
    assert(mp.len() == 0);
    lemma_message_firsts(size, 0, ' ', 0, 0, 0, 0, bs);
    if i == found.len() {
        assert(parts[i].message == msg_unsolvable());
    } else {
        assert(parts[i] == found[i]);
        if i < rp.len() {
            lemma_row_dup_part_message(bl.take(m), size, i);
            assert(found[i] == rp[i]);
        } else if i < rp.len() + ep.len() {
            assert(found[i] == ep[i - rp.len()]);
        } else if i < rp.len() + ep.len() + cf.len() {
            let t = column_dups(rows)[i - rp.len() - ep.len()];
            lemma_message_firsts(size, 0, ' ', 0, t.2, t.1, 0, bs);
            assert(found[i] == cf[i - rp.len() - ep.len()]);
        } else {
            let t = box_dups(rows, bs as int)[i - rp.len() - ep.len() - cf.len()];
            lemma_message_firsts(size, 0, ' ', 0, t.2, t.1, t.0, bs);
            assert(found[i] == bf[i - rp.len() - ep.len() - cf.len()]);
        }
    }
}

/// Every row-repeat finding carries a row-repeat message.
proof fn lemma_row_dup_part_message(lines: BoardLines, size: usize, i: int)
    requires
        0 <= i < row_dup_part(lines, size).len(),
    ensures
        row_dup_part(lines, size)[i].message.len() > 0,
        row_dup_part(lines, size)[i].message[0] == 'd',
    decreases lines.len(),
{
    let groups = row_dup_groups(lines, size);
    let prev = lines.drop_last();
    let last = lines.last();
    let cells = ok_cells(parse_row_spec(last.1, size));
    assert(lines.len() > 0) by {
        if lines.len() == 0 {
            assert(groups.flatten() =~= Seq::<FindingView>::empty());
        }
    }
    assert(groups =~= row_dup_groups(prev, size).push(row_dup_findings(last.0, cells)));
    row_dup_groups(prev, size).lemma_flatten_push(row_dup_findings(last.0, cells));
    let before = row_dup_part(prev, size);
    if i < before.len() {
        lemma_row_dup_part_message(prev, size, i);
    } else {
        let d = repeated_digits(cells)[i - before.len()];
        lemma_message_firsts(size, 0, ' ', 0, d, 0, 0, 0);
    }
}

/// Law: a board whose lines all parse, as many as its size, with no repeat
/// reported by `find_duplicates` for any row, by `find_column_duplicates` or
/// by `find_box_duplicates`, gets no finding when it can be completed (what
/// `is_solvable` decides) and the no-solution finding alone otherwise.
pub proof fn lemma_clean_scan_findings(bl: BoardLines)
    requires
        bl.len() == board_size(bl),
        forall|k: int| 0 <= k < bl.len() ==> (#[trigger] parse_row_spec(bl[k].1, board_size(bl))) is Ok,
        forall|k: int|
            0 <= k < bl.len() ==> (#[trigger] repeated_digits(parsed_rows(bl, board_size(bl))[k])).len() == 0,
        column_dups(parsed_rows(bl, board_size(bl))).len() == 0,
        box_dups(parsed_rows(bl, board_size(bl)), board_box(bl) as int).len() == 0,
    ensures
        board_findings(bl) == if completable(
            start_grid(parsed_rows(bl, board_size(bl)), board_size(bl) as int),
            board_size(bl) as int,
            board_box(bl) as int,
            top_digit(board_size(bl) as int),
        ) {
            Seq::<FindingView>::empty()
        } else {
            seq![error_at(last_line(bl), msg_unsolvable())]
        },
{
    let size = board_size(bl);
    let bs = board_box(bl);
    assert forall|k: int| 0 <= k < kept(bl, size) implies (#[trigger] parse_row_spec(bl[k].1, size)) is Ok by {}
    lemma_board_parts(bl);
    let m = kept(bl, size);
    assert(bl.take(m) =~= bl);
    let rows = parsed_rows(bl, size);
    let nums = line_numbers(bl);
    let groups = row_dup_groups(bl, size);
    assert forall|k: int| 0 <= k < groups.len() implies (#[trigger] groups[k]).len() == 0 by {
        assert(repeated_digits(rows[k]).len() == 0);
    }
    lemma_flatten_of_empties(groups);
    assert(extra_part(bl, size).len() == 0);
    assert(missing_part(bl).len() == 0);
    assert(column_findings(nums, rows).len() == 0);
    assert(box_findings(nums, rows, bs).len() == 0);
    let found = row_dup_part(bl, size) + extra_part(bl, size) + missing_part(bl) + column_findings(nums, rows)
        + box_findings(nums, rows, bs);
    assert(found =~= Seq::<FindingView>::empty());
    let x = error_at(last_line(bl), msg_unsolvable());
    assert(sort_by_line(Seq::<FindingView>::empty()) =~= Seq::<FindingView>::empty());
    assert(Seq::<FindingView>::empty().push(x) =~= seq![x]);
    assert(seq![x].drop_last() =~= Seq::<FindingView>::empty());
    assert(sort_by_line(seq![x]) =~= seq![x]);
}

/// A board passes every check: its lines all parse, as many as its size,
/// `find_duplicates`, `find_column_duplicates` and `find_box_duplicates`
/// report nothing for its rows, and it can be completed (what `is_solvable`
/// decides).
pub open spec fn board_passes(bl: BoardLines) -> bool {
    let size = board_size(bl);
    let rows = parsed_rows(bl, size);
    &&& bl.len() == size
    &&& forall|k: int| 0 <= k < bl.len() ==> (#[trigger] parse_row_spec(bl[k].1, size)) is Ok
    &&& forall|k: int| 0 <= k < bl.len() ==> (#[trigger] repeated_digits(rows[k])).len() == 0
    &&& column_dups(rows).len() == 0
    &&& box_dups(rows, board_box(bl) as int).len() == 0
    &&& completable(start_grid(rows, size as int), size as int, board_box(bl) as int, top_digit(size as int))
}

/// Law: `lint` finds nothing wrong with a board exactly when it passes
/// every check.
pub proof fn lemma_board_clean_iff_checks(bl: BoardLines)
    ensures
        board_findings(bl).len() == 0 <==> board_passes(bl),
{
    broadcast use vstd::seq_lib::group_to_multiset_ensures;

    let size = board_size(bl);
    let bs = board_box(bl);
    let rows = parsed_rows(bl, size);
    let sc = scan_lines(bl, size);
    let raw = board_findings_unsorted(bl);
    lemma_sort_by_line_orders(raw);
    assert(raw.len() == sort_by_line(raw).to_multiset().len());
    lemma_scan_clean(bl, size);
    lemma_scan_facts(bl, size);
    if board_findings(bl).len() == 0 {
        let last = last_line(bl);
        let f1 = if sc.rows.len() < size {
            sc.findings.push(error_at(last, msg_missing_rows(size, sc.rows.len())))
        } else {
            sc.findings
        };
        let f2 = f1 + column_findings(sc.nums, sc.rows) + box_findings(sc.nums, sc.rows, bs);
        assert(f2.len() == 0);
        assert(sc.findings.len() == 0);
        assert(sc.rows == rows);
        assert(sc.rows.len() == size);
    }
    if bl.len() == size && (forall|k: int| 0 <= k < bl.len() ==> (#[trigger] parse_row_spec(bl[k].1, size)) is Ok)
        && (forall|k: int| 0 <= k < bl.len() ==> (#[trigger] repeated_digits(rows[k])).len() == 0) && column_dups(
        rows,
    ).len() == 0 && box_dups(rows, bs as int).len() == 0 && completable(
        start_grid(rows, size as int),
        size as int,
        bs as int,
        top_digit(size as int),
    ) {
        lemma_clean_scan_findings(bl);
    }
}

/// Law: `lint` reports nothing for a file exactly when every board in it
/// passes every check.
pub proof fn lemma_file_clean_iff_checks(source: Seq<char>)
    ensures
        lint_findings(source).len() == 0 <==> forall|i: int|
            0 <= i < boards_of(source).len() ==> board_passes(#[trigger] boards_of(source)[i]),
{
    let boards = boards_of(source);
    let parts = boards_findings(boards);
    if lint_findings(source).len() == 0 {
        lemma_flatten_empty(parts);
        assert forall|i: int| 0 <= i < boards.len() implies board_passes(#[trigger] boards[i]) by {
            assert(parts[i].len() == 0);
            lemma_board_clean_iff_checks(boards[i]);
        }
    }
    if forall|i: int| 0 <= i < boards.len() ==> board_passes(#[trigger] boards[i]) {
        assert forall|i: int| 0 <= i < parts.len() implies (#[trigger] parts[i]).len() == 0 by {
            assert(board_passes(boards[i]));
            lemma_board_clean_iff_checks(boards[i]);
        }
        lemma_flatten_of_empties(parts);
    }
}

proof fn lemma_scan_messages(lines: BoardLines, size: usize)
    ensures
        forall|k: int|
            0 <= k < scan_lines(lines, size).findings.len() ==> (#[trigger] scan_lines(lines, size).findings[k]).message.len()
                > 0 && scan_lines(lines, size).findings[k].message[0] != 'b',
    decreases lines.len(),
{
    if lines.len() > 0 {
        let prev = lines.drop_last();
        lemma_scan_messages(prev, size);
        let sc0 = scan_lines(prev, size);
        let sc = scan_lines(lines, size);
        let last = lines.last();
        lemma_message_firsts(size, 0, ' ', 0, 0, 0, 0, 0);
        if sc0.rows.len() != size {
            let t = trim(last.1);
            lemma_message_firsts(size, t.len(), ' ', 0, 0, 0, 0, 0);
            match parse_row_spec(last.1, size) {
                Ok(cells) => {
                    let extra = row_dup_findings(last.0, cells);
                    assert forall|k: int| 0 <= k < sc.findings.len() implies (#[trigger] sc.findings[k]).message.len()
                        > 0 && sc.findings[k].message[0] != 'b' by {
                        if k < sc0.findings.len() {
                            assert(sc.findings[k] == sc0.findings[k]);
                        } else {
                            let d = repeated_digits(cells)[k - sc0.findings.len()];
                            lemma_message_firsts(size, 0, ' ', 0, d, 0, 0, 0);
                            assert(sc.findings[k] == extra[k - sc0.findings.len()]);
                        }
                    }
                },
                Err(msg) => {
                    if t.len() == size {
                        if let Err(i) = parse_cells(t, size) {
                            lemma_message_firsts(size, 0, t[i], (i + 1) as nat, 0, 0, 0, 0);
                        }
                    }
                    assert(msg.len() > 0 && msg[0] != 'b');
                    assert forall|k: int| 0 <= k < sc.findings.len() implies (#[trigger] sc.findings[k]).message.len()
                        > 0 && sc.findings[k].message[0] != 'b' by {
                        if k < sc0.findings.len() {
                            assert(sc.findings[k] == sc0.findings[k]);
                        }
                    }
                },
            }
        } else {
            assert forall|k: int| 0 <= k < sc.findings.len() implies (#[trigger] sc.findings[k]).message.len() > 0
                && sc.findings[k].message[0] != 'b' by {
                if k < sc0.findings.len() {
                    assert(sc.findings[k] == sc0.findings[k]);
                }
            }
        }
    }
}

/// Law: the no-solution finding of a board comes alone, on the board's
/// last line.
pub proof fn lemma_unsolvable_alone(bl: BoardLines)
    ensures
        (exists|k: int| 0 <= k < board_findings(bl).len() && (#[trigger] board_findings(bl)[k]).message == msg_unsolvable())
            ==> board_findings(bl) == seq![error_at(last_line(bl), msg_unsolvable())],
{
    broadcast use vstd::seq_lib::group_to_multiset_ensures;

    let size = board_size(bl);
    let bs = board_box(bl);
    let sc = scan_lines(bl, size);
    let raw = board_findings_unsorted(bl);
    let fs = board_findings(bl);
    lemma_sort_by_line_orders(raw);
    lemma_scan_messages(bl, size);
    lemma_scan_facts(bl, size);
    if exists|k: int| 0 <= k < fs.len() && (#[trigger] fs[k]).message == msg_unsolvable() {
        let k = choose|k: int| 0 <= k < fs.len() && (#[trigger] fs[k]).message == msg_unsolvable();
        lemma_message_firsts(size, sc.rows.len(), ' ', 0, 0, 0, 0, bs);
        assert(fs.to_multiset().count(fs[k]) > 0);
        assert(raw.to_multiset().count(fs[k]) > 0);
        let j = choose|j: int| 0 <= j < raw.len() && raw[j] == fs[k];
        let last = last_line(bl);
        let missing = seq![error_at(last, msg_missing_rows(size, sc.rows.len()))];
        let f1 = if sc.rows.len() < size {
            sc.findings.push(error_at(last, msg_missing_rows(size, sc.rows.len())))
        } else {
            sc.findings
        };
        let cf = column_findings(sc.nums, sc.rows);
        let bf = box_findings(sc.nums, sc.rows, bs);
        let f2 = f1 + cf + bf;
        lemma_column_dups_rows(sc.rows);
        lemma_box_dups_rows(sc.rows, bs as int);
        assert forall|i: int| 0 <= i < f2.len() implies (#[trigger] f2[i]).message[0] != 'b' by {
            if i < sc.findings.len() {
                assert(f2[i] == sc.findings[i]);
            } else if i < f1.len() {
                assert(f2[i] == f1[i]);
            } else if i < f1.len() + cf.len() {
                let t = column_dups(sc.rows)[i - f1.len()];
                lemma_message_firsts(size, 0, ' ', 0, t.2, t.1, 0, bs);
                assert(f2[i] == cf[i - f1.len()]);
            } else {
                let t = box_dups(sc.rows, bs as int)[i - f1.len() - cf.len()];
                lemma_message_firsts(size, 0, ' ', 0, t.2, t.1, t.0, bs);
                assert(f2[i] == bf[i - f1.len() - cf.len()]);
            }
        }
        assert(j >= f2.len());
        assert(raw == f2.push(error_at(last, msg_unsolvable())));
        assert(f2.len() == 0);
        let x = error_at(last, msg_unsolvable());
        assert(raw =~= seq![x]);
        assert(sort_by_line(Seq::<FindingView>::empty()) =~= Seq::<FindingView>::empty());
        assert(seq![x].drop_last() =~= Seq::<FindingView>::empty());
        assert(sort_by_line(seq![x]) =~= seq![x]);
    }
}

} // verus!
