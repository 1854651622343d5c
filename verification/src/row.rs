//! Parsing one board row, and writing digits back as the board shows them.

use vstd::prelude::*;
use crate::text::{
    all_white, chars_of, decimal, is_white_space, lemma_trim_all_white, lemma_trim_opens_with, push_char, push_decimal, trim,
    trim_chars,
};

verus! {

/// A parsed row: `None` for an empty cell, `Some(digit)` for a filled one.
pub type Row = Vec<Option<u8>>;

/// True for a line that carries no board data: blank, or a `#` comment.
pub open spec fn ignorable(line: Seq<char>) -> bool {
    trim(line).len() == 0 || trim(line)[0] == '#'
}

/// True for a line that carries no board data: blank, or a `#` comment.
pub fn is_ignorable_line(line: &str) -> (r: bool)
    ensures
        r == ignorable(line@),
{
    let t = trim_chars(&chars_of(line));
    t.len() == 0 || t[0] == '#'
}

/// The value a cell character stands for, before the board size is applied:
/// `1`-`9`, then `A`-`G` / `a`-`g` for 10-16; `None` for anything else.
pub open spec fn cell_value(c: char) -> Option<int> {
    let u = c as u32;
    if 0x31 <= u <= 0x39 {
        Some(u - 0x30)
    } else if 0x41 <= u <= 0x47 {
        Some(u - 0x41 + 10)
    } else if 0x61 <= u <= 0x67 {
        Some(u - 0x61 + 10)
    } else {
        None
    }
}

/// A cell character read on a board of `size`: `Some(None)` for `.` or `0`,
/// `Some(Some(d))` for a digit `d <= size`, `None` for an invalid character.
pub open spec fn parse_cell_spec(c: char, size: usize) -> Option<Option<u8>> {
    if c == '.' || c == '0' {
        Some(None)
    } else {
        match cell_value(c) {
            Some(d) => if d <= size {
                Some(Some(d as u8))
            } else {
                None
            },
            None => None,
        }
    }
}

/// Parses a single cell character. The outer `None` means the character
/// isn't valid at all; `Some(None)` means it's a valid empty-cell marker.
pub fn parse_cell(ch: char, size: usize) -> (r: Option<Option<u8>>)
    ensures
        r == parse_cell_spec(ch, size),
{
    let u = ch as u32;
    let digit: u8 = if ch == '.' || ch == '0' {
        return Some(None);
    } else if 0x31 <= u && u <= 0x39 {
        (u - 0x30) as u8
    } else if 0x41 <= u && u <= 0x47 {
        (u - 0x41 + 10) as u8
    } else if 0x61 <= u && u <= 0x67 {
        (u - 0x61 + 10) as u8
    } else {
        return None;
    };
    if (digit as usize) <= size {
        Some(Some(digit))
    } else {
        None
    }
}

/// The cells of `t`, or the index of its first invalid character.
pub open spec fn parse_cells(t: Seq<char>, size: usize) -> Result<Seq<Option<u8>>, int>
    decreases t.len(),
{
    if t.len() == 0 {
        Ok(Seq::empty())
    } else {
        match parse_cells(t.drop_last(), size) {
            Err(i) => Err(i),
            Ok(cells) => match parse_cell_spec(t.last(), size) {
                Some(cell) => Ok(cells.push(cell)),
                None => Err(t.len() - 1),
            },
        }
    }
}

/// Message for a row of the wrong width.
pub open spec fn msg_wrong_width(size: usize, found: nat) -> Seq<char> {
    "expected "@ + decimal(size as nat) + " cells, found "@ + decimal(found)
}

/// Message for an invalid character at a 1-based position.
pub open spec fn msg_invalid_char(c: char, position: nat) -> Seq<char> {
    "invalid character '"@ + seq![c] + "' at position "@ + decimal(position)
}

/// What `parse_row` gives for a line: the row's cells, or the message
/// describing what was wrong with the line.
pub open spec fn parse_row_spec(line: Seq<char>, size: usize) -> Result<Seq<Option<u8>>, Seq<char>> {
    let t = trim(line);
    if t.len() != size {
        Err(msg_wrong_width(size, t.len()))
    } else {
        match parse_cells(t, size) {
            Ok(cells) => Ok(cells),
            Err(i) => Err(msg_invalid_char(t[i], (i + 1) as nat)),
        }
    }
}

/// A filled cell holds a digit from 1 to `size`.
pub open spec fn cell_in_range(cell: Option<u8>, size: usize) -> bool {
    match cell {
        Some(d) => 1 <= d <= size,
        None => true,
    }
}

proof fn lemma_parse_cells(t: Seq<char>, size: usize)
    ensures
        parse_cells(t, size) matches Ok(cells) ==> {
            &&& cells.len() == t.len()
            &&& forall|k: int| 0 <= k < cells.len() ==> cell_in_range(#[trigger] cells[k], size)
            &&& forall|k: int| 0 <= k < cells.len() ==> Some(#[trigger] cells[k]) == parse_cell_spec(t[k], size)
        },
        parse_cells(t, size) matches Err(i) ==> {
            &&& 0 <= i < t.len()
            &&& parse_cell_spec(t[i], size) is None
            &&& forall|k: int| 0 <= k < i ==> parse_cell_spec(#[trigger] t[k], size) is Some
        },
    decreases t.len(),
{
    if t.len() > 0 {
        let u = t.drop_last();
        lemma_parse_cells(u, size);
        assert forall|k: int| 0 <= k < u.len() implies u[k] == t[k] by {}
        if let Ok(cells) = parse_cells(u, size) {
            assert forall|k: int| 0 <= k < u.len() implies parse_cell_spec(t[k], size) is Some by {
                assert(Some(cells[k]) == parse_cell_spec(u[k], size));
            }
        }
    }
}

/// Law: a parsed row has exactly `size` cells, each empty or a digit from 1 to `size`.
pub proof fn lemma_parsed_row_in_range(line: Seq<char>, size: usize)
    ensures
        parse_row_spec(line, size) matches Ok(cells) ==> {
            &&& cells.len() == size
            &&& forall|k: int| 0 <= k < cells.len() ==> cell_in_range(#[trigger] cells[k], size)
        },
{
    lemma_parse_cells(trim(line), size);
}

/// Parses one row of `size` cells from the characters of a line.
pub fn parse_row_chars(line: &Vec<char>, size: usize) -> (r: Result<Row, String>)
    ensures
        match r {
            Ok(row) => parse_row_spec(line@, size) == Ok::<Seq<Option<u8>>, Seq<char>>(row@),
            Err(m) => parse_row_spec(line@, size) == Err::<Seq<Option<u8>>, Seq<char>>(m@),
        },
{
    let t = trim_chars(line);
    if t.len() != size {
        let mut m = String::new();
        m.append("expected ");
        push_decimal(&mut m, size);
        m.append(" cells, found ");
        push_decimal(&mut m, t.len());
        return Err(m);
    }
    let mut row: Row = Vec::new();
    let mut i: usize = 0;
    while i < t.len()
        invariant
            i <= t.len(),
            t.len() == size,
            t@ == trim(line@),
            parse_cells(t@.take(i as int), size) == Ok::<Seq<Option<u8>>, int>(row@),
        decreases t.len() - i,
    {
        assert(t@.take(i + 1).drop_last() =~= t@.take(i as int));
        match parse_cell(t[i], size) {
            Some(cell) => {
                row.push(cell);
            },
            None => {
                let mut m = String::new();
                m.append("invalid character '");
                push_char(&mut m, t[i]);
                m.append("' at position ");
                push_decimal(&mut m, i + 1);
                proof {
                    assert(parse_cells(t@.take(i + 1), size) == Err::<Seq<Option<u8>>, int>(i as int));
                    lemma_parse_cells(t@, size);
                    lemma_parse_cells_prefix(t@, size, i + 1);
                    assert(m@ =~= msg_invalid_char(t@[i as int], (i + 1) as nat));
                }
                return Err(m);
            },
        }
        i += 1;
    }
    assert(t@.take(t.len() as int) =~= t@);
    Ok(row)
}

proof fn lemma_parse_cells_prefix(t: Seq<char>, size: usize, n: int)
    requires
        0 <= n <= t.len(),
        parse_cells(t.take(n), size) is Err,
    ensures
        parse_cells(t, size) == parse_cells(t.take(n), size),
    decreases t.len(),
{
    if n < t.len() {
        assert(t.drop_last().take(n) =~= t.take(n));
        lemma_parse_cells_prefix(t.drop_last(), size, n);
    } else {
        assert(t.take(n) =~= t);
    }
}

/// Parses one board row of `size` cells from text. Accepts digits 1-9 for
/// values up to 9, and beyond that the letters A-G (10-16, case
/// insensitive), for the 16x16 variant. '.' or '0' mark an empty cell.
/// Returns an error message describing what was wrong with the line
/// otherwise.
pub fn parse_row(line: &str, size: usize) -> (r: Result<Row, String>)
    ensures
        match r {
            Ok(row) => parse_row_spec(line@, size) == Ok::<Seq<Option<u8>>, Seq<char>>(row@),
            Err(m) => parse_row_spec(line@, size) == Err::<Seq<Option<u8>>, Seq<char>>(m@),
        },
{
    parse_row_chars(&chars_of(line), size)
}

/// How a digit appears on the board: `1`-`9` as themselves, `10` and up as
/// the letters from `A`.
pub open spec fn digit_text(d: u8) -> Seq<char> {
    if d <= 9 {
        decimal(d as nat)
    } else {
        seq![((d + 55) as u8) as char]
    }
}

/// Renders a digit the way it appears on the board: `1`-`9` as themselves,
/// `10`-`16` as the letters `A`-`G` used by the 16x16 variant.
pub fn format_digit(digit: u8) -> (s: String)
    requires
        digit <= 200,
    ensures
        s@ == digit_text(digit),
{
    let mut s = String::new();
    if digit <= 9 {
        push_decimal(&mut s, digit as usize);
    } else {
        push_char(&mut s, (digit + 55) as char);
    }
    s
}

/// Law: a line of white space alone is ignorable; so is every line that,
/// after leading white space, opens with `#`, whatever follows the `#`; a
/// line that, after leading white space, opens with any other character
/// that is not white space is not.
pub proof fn lemma_ignorable_lines(w: Seq<char>, c: char, x: Seq<char>)
    requires
        all_white(w),
    ensures
        ignorable(w),
        ignorable(w + seq!['#'] + x),
        !is_white_space(c) && c != '#' ==> !ignorable(w + seq![c] + x),
{
    lemma_trim_all_white(w);
    assert(w + seq!['#'] + x =~= w + (seq!['#'] + x));
    lemma_trim_opens_with(w, seq!['#'] + x);
    if !is_white_space(c) {
        assert(w + seq![c] + x =~= w + (seq![c] + x));
        lemma_trim_opens_with(w, seq![c] + x);
    }
}

/// The cell characters in value order, upper case: `1` is 1, `G` is 16.
pub open spec fn upper_cells() -> Seq<char> {
    "123456789ABCDEFG"@
}

/// The cell characters in value order, lower case.
pub open spec fn lower_cells() -> Seq<char> {
    "123456789abcdefg"@
}

/// Law: the `i`-th character of `123456789ABCDEFG` (or of its lower-case
/// form) reads as the digit `i + 1` when that fits the board's size and is
/// refused otherwise; `.` and `0` read as an empty cell; and no other
/// character reads as a cell.
pub proof fn lemma_cell_alphabet(size: usize)
    ensures
        forall|i: int|
            0 <= i < 16 ==> #[trigger] parse_cell_spec(upper_cells()[i], size) == if i + 1 <= size {
                Some(Some((i + 1) as u8))
            } else {
                None
            },
        forall|i: int|
            0 <= i < 16 ==> #[trigger] parse_cell_spec(lower_cells()[i], size) == if i + 1 <= size {
                Some(Some((i + 1) as u8))
            } else {
                None
            },
        parse_cell_spec('.', size) == Some(None::<u8>),
        parse_cell_spec('0', size) == Some(None::<u8>),
        forall|c: char|
            #[trigger] parse_cell_spec(c, size) is Some && c != '.' && c != '0' ==> exists|i: int|
                0 <= i < 16 && (c == upper_cells()[i] || c == lower_cells()[i]),
{
    reveal_strlit("123456789ABCDEFG");
    reveal_strlit("123456789abcdefg");
    let up = upper_cells();
    let lo = lower_cells();
    assert(up =~= seq!['1', '2', '3', '4', '5', '6', '7', '8', '9', 'A', 'B', 'C', 'D', 'E', 'F', 'G']);
    assert(lo =~= seq!['1', '2', '3', '4', '5', '6', '7', '8', '9', 'a', 'b', 'c', 'd', 'e', 'f', 'g']);
    assert forall|c: char|
        #[trigger] parse_cell_spec(c, size) is Some && c != '.' && c != '0' implies exists|i: int|
            0 <= i < 16 && (c == up[i] || c == lo[i]) by {
        let u = c as u32;
        if 0x31 <= u <= 0x39 {
            let i = u - 0x31;
            assert(up[i] as u32 == u);
            vstd::utf8::char_u32_cast(c, u);
            vstd::utf8::char_u32_cast(up[i], u);
            assert(c == up[i]);
        } else if 0x41 <= u <= 0x47 {
            let i = u - 0x41 + 9;
            assert(up[i] as u32 == u);
            vstd::utf8::char_u32_cast(c, u);
            vstd::utf8::char_u32_cast(up[i], u);
            assert(c == up[i]);
        } else {
            let i = u - 0x61 + 9;
            assert(lo[i] as u32 == u);
            vstd::utf8::char_u32_cast(c, u);
            vstd::utf8::char_u32_cast(lo[i], u);
            assert(c == lo[i]);
        }
    }
}

/// Law: the digits 1 to 16 are shown as the matching character of
/// `123456789ABCDEFG`, so that reading a shown digit gives it back.
pub proof fn lemma_digit_text_alphabet(d: u8)
    requires
        1 <= d <= 16,
    ensures
        digit_text(d) == seq![upper_cells()[d - 1]],
        parse_cell_spec(upper_cells()[d - 1], 16) == Some(Some(d)),
{
    reveal_strlit("123456789ABCDEFG");
    let up = upper_cells();
    assert(up =~= seq!['1', '2', '3', '4', '5', '6', '7', '8', '9', 'A', 'B', 'C', 'D', 'E', 'F', 'G']);
    lemma_cell_alphabet(16);
    if d <= 9 {
        assert(decimal(d as nat) == seq![crate::text::digit_char(d as nat)]);
        let c = crate::text::digit_char(d as nat);
        assert(c as u32 == up[d - 1] as u32);
        vstd::utf8::char_u32_cast(c, c as u32);
        vstd::utf8::char_u32_cast(up[d - 1], c as u32);
    } else {
        let c = ((d + 55) as u8) as char;
        assert(c as u32 == up[d - 1] as u32);
        vstd::utf8::char_u32_cast(c, c as u32);
        vstd::utf8::char_u32_cast(up[d - 1], c as u32);
    }
    assert(digit_text(d) =~= seq![up[d - 1]]);
}

} // verus!
