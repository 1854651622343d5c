//! What the wording of a board's messages shows: which findings are
//! duplicate reports, and that only a missing-rows message speaks of a row
//! count found.

use vstd::prelude::*;
use crate::finding::{error_at, lemma_decimal_digits, FindingView};
use crate::lint::{
    board_box, board_findings, board_parts, board_size, box_findings, column_findings, extra_part, kept,
    last_line, lemma_board_parts, lemma_message_firsts, line_numbers, missing_part, msg_box_dup, msg_col_dup, msg_extra_row,
    msg_missing_rows, msg_row_dup, msg_unsolvable, ok_cells, parsed_rows, row_dup_findings, row_dup_groups,
    row_dup_part, BoardLines,
};
use crate::dups::{box_dups, column_dups, repeated_digits};
use crate::row::{digit_text, parse_row_spec};
use crate::text::decimal;

verus! {

/// `t` occurs in `m` as a run of consecutive characters.
pub open spec fn contains_text(m: Seq<char>, t: Seq<char>) -> bool {
    exists|i: int| 0 <= i && i + t.len() <= m.len() && #[trigger] m.subrange(i, i + t.len()) == t
}

/// `m` begins with `t`.
pub open spec fn starts_with_text(m: Seq<char>, t: Seq<char>) -> bool {
    t.len() <= m.len() && m.subrange(0, t.len() as int) == t
}

/// The text that opens every duplicate report.
pub open spec fn dup_prefix() -> Seq<char> {
    "duplicate digit"@
}

/// The text by which a missing-rows message gives the count it found.
pub open spec fn rows_found_text() -> Seq<char> {
    " rows, found "@
}

/// No comma in `m` comes right after an `s`.
spec fn no_s_comma(m: Seq<char>) -> bool {
    forall|k: int| 1 <= k < m.len() && #[trigger] m[k] == ',' ==> m[k - 1] != 's'
}

proof fn lemma_join(a: Seq<char>, b: Seq<char>)
    requires
        no_s_comma(a),
        no_s_comma(b),
        a.len() > 0 && b.len() > 0 && b[0] == ',' ==> a.last() != 's',
    ensures
        no_s_comma(a + b),
{
    let m = a + b;
    assert forall|k: int| 1 <= k < m.len() && #[trigger] m[k] == ',' implies m[k - 1] != 's' by {
        if k < a.len() {
            assert(m[k] == a[k] && m[k - 1] == a[k - 1]);
        } else if k == a.len() {
            assert(m[k] == b[0] && m[k - 1] == a.last());
        } else {
            assert(m[k] == b[k - a.len()] && m[k - 1] == b[k - 1 - a.len()]);
        }
    }
}

proof fn lemma_decimal_plain(n: nat)
    ensures
        no_s_comma(decimal(n)),
        decimal(n).len() > 0,
        decimal(n)[0] != ',',
        decimal(n).last() != 's',
{
    lemma_decimal_digits(n);
    let d = decimal(n);
    assert(crate::finding::is_digit(d[0]));
    assert(crate::finding::is_digit(d[d.len() - 1]));
    assert forall|k: int| 1 <= k < d.len() && #[trigger] d[k] == ',' implies d[k - 1] != 's' by {
        assert(crate::finding::is_digit(d[k]));
    }
}

proof fn lemma_digit_text_plain(d: u8)
    ensures
        no_s_comma(digit_text(d)),
        digit_text(d).len() == 1,
{
    if d <= 9 {
        lemma_decimal_plain(d as nat);
        assert(decimal(d as nat).len() == 1);
    }
}

/// What each message of a board, but the missing-rows one, has in common:
/// no comma right after an `s`.
proof fn lemma_messages_plain(size: usize, d: u8, row: usize, col: usize, bs: usize)
    ensures
        no_s_comma(msg_row_dup(d)),
        no_s_comma(msg_col_dup(d, col)),
        no_s_comma(msg_box_dup(bs, d, row, col)),
        no_s_comma(msg_extra_row(size)),
        no_s_comma(msg_unsolvable()),
{
    reveal_strlit("duplicate digit '");
    reveal_strlit("' in row");
    reveal_strlit("' in column ");
    reveal_strlit("' in ");
    reveal_strlit("x");
    reveal_strlit(" box at row ");
    reveal_strlit(", column ");
    reveal_strlit("unexpected extra row, board already has ");
    reveal_strlit("board has no valid solution");
    let open = "duplicate digit '"@;
    let dt = digit_text(d);
    lemma_digit_text_plain(d);
    lemma_decimal_plain(size as nat);
    lemma_decimal_plain(bs as nat);
    lemma_decimal_plain(row as nat + 1);
    lemma_decimal_plain(col as nat + 1);
    assert(no_s_comma(open));
    assert(no_s_comma("' in row"@));
    assert(no_s_comma("' in column "@));
    assert(no_s_comma("' in "@));
    assert(no_s_comma("x"@));
    assert(no_s_comma(" box at row "@));
    assert(no_s_comma(", column "@));
    assert(no_s_comma("unexpected extra row, board already has "@));
    assert(no_s_comma("board has no valid solution"@));
    lemma_join(open, dt);
    lemma_join(open + dt, "' in row"@);
    lemma_join(open + dt, "' in column "@);
    lemma_join(open + dt + "' in column "@, decimal(col as nat + 1));
    let a = open + dt + "' in "@;
    lemma_join(open + dt, "' in "@);
    lemma_join(a, decimal(bs as nat));
    lemma_join(a + decimal(bs as nat), "x"@);
    lemma_join(a + decimal(bs as nat) + "x"@, decimal(bs as nat));
    let b = a + decimal(bs as nat) + "x"@ + decimal(bs as nat);
    lemma_join(b, " box at row "@);
    lemma_join(b + " box at row "@, decimal(row as nat + 1));
    let c = b + " box at row "@ + decimal(row as nat + 1);
    lemma_join(c, ", column "@);
    lemma_join(c + ", column "@, decimal(col as nat + 1));
    lemma_join("unexpected extra row, board already has "@, decimal(size as nat));
}

proof fn lemma_plain_lacks_rows_found(m: Seq<char>)
    requires
        no_s_comma(m),
    ensures
        !contains_text(m, rows_found_text()),
{
    reveal_strlit(" rows, found ");
    let t = rows_found_text();
    if contains_text(m, t) {
        let i = choose|i: int| 0 <= i && i + t.len() <= m.len() && #[trigger] m.subrange(i, i + t.len()) == t;
        assert(m.subrange(i, i + t.len())[5] == m[i + 5]);
        assert(m.subrange(i, i + t.len())[4] == m[i + 4]);
        assert(t =~= seq![' ', 'r', 'o', 'w', 's', ',', ' ', 'f', 'o', 'u', 'n', 'd', ' ']);
        assert(m[i + 5] == ',' && m[i + 4] == 's');
    }
}

/// Every row-repeat finding opens with the duplicate text and has no comma
/// right after an `s`.
proof fn lemma_row_dup_part_wording(lines: BoardLines, size: usize, i: int)
    requires
        0 <= i < row_dup_part(lines, size).len(),
    ensures
        starts_with_text(row_dup_part(lines, size)[i].message, dup_prefix()),
        no_s_comma(row_dup_part(lines, size)[i].message),
    decreases lines.len(),
{
    let groups = row_dup_groups(lines, size);
    let prev = lines.drop_last();
    let last = lines.last();
    let cells = ok_cells(parse_row_spec(last.1, size));
    assert(lines.len() > 0) by {
        if lines.len() == 0 {
            assert(groups.flatten() =~= Seq::<FindingView>::empty());
        }
    }
    assert(groups =~= row_dup_groups(prev, size).push(row_dup_findings(last.0, cells)));
    row_dup_groups(prev, size).lemma_flatten_push(row_dup_findings(last.0, cells));
    let before = row_dup_part(prev, size);
    if i < before.len() {
        lemma_row_dup_part_wording(prev, size, i);
    } else {
        let d = repeated_digits(cells)[i - before.len()];
        lemma_dup_wording(d, 0, 0, 0);
        lemma_messages_plain(0, d, 0, 0, 0);
    }
}

/// The three duplicate messages open with the duplicate text.
proof fn lemma_dup_wording(d: u8, row: usize, col: usize, bs: usize)
    ensures
        starts_with_text(msg_row_dup(d), dup_prefix()),
        starts_with_text(msg_col_dup(d, col), dup_prefix()),
        starts_with_text(msg_box_dup(bs, d, row, col), dup_prefix()),
{
    reveal_strlit("duplicate digit '");
    reveal_strlit("duplicate digit");
    let open = "duplicate digit '"@;
    let p = dup_prefix();
    assert(open.subrange(0, p.len() as int) =~= p);
    let r1 = digit_text(d) + "' in row"@;
    let r2 = digit_text(d) + "' in column "@ + decimal(col as nat + 1);
    let r3 = digit_text(d) + "' in "@ + decimal(bs as nat) + "x"@ + decimal(bs as nat) + " box at row "@ + decimal(
        row as nat + 1,
    ) + ", column "@ + decimal(col as nat + 1);
    assert(msg_row_dup(d) =~= open + r1);
    assert(msg_col_dup(d, col) =~= open + r2);
    assert(msg_box_dup(bs, d, row, col) =~= open + r3);
    assert((open + r1).subrange(0, p.len() as int) =~= p);
    assert((open + r2).subrange(0, p.len() as int) =~= p);
    assert((open + r3).subrange(0, p.len() as int) =~= p);
}

/// The repeat findings of a board whose kept lines all parse: those of its
/// rows, then of its columns, then of its boxes.
pub open spec fn dup_parts(bl: BoardLines) -> Seq<FindingView> {
    let size = board_size(bl);
    let m = kept(bl, size);
    let rows = parsed_rows(bl.take(m), size);
    let nums = line_numbers(bl.take(m));
    row_dup_part(bl.take(m), size) + column_findings(nums, rows) + box_findings(nums, rows, board_box(bl))
}

/// When a board's lines all parse and there are enough of them, no finding
/// of its parts has a comma right after an `s`.
proof fn lemma_part_wording(bl: BoardLines, i: int)
    requires
        bl.len() >= board_size(bl),
        forall|k: int| 0 <= k < kept(bl, board_size(bl)) ==> (#[trigger] parse_row_spec(bl[k].1, board_size(bl))) is Ok,
        0 <= i < board_parts(bl).len(),
    ensures
        no_s_comma(board_parts(bl)[i].message),
{
    let size = board_size(bl);
    let bs = board_box(bl);
    let m = kept(bl, size);
    let rows = parsed_rows(bl.take(m), size);
    let nums = line_numbers(bl.take(m));
    let rp = row_dup_part(bl.take(m), size);
    let ep = extra_part(bl, size);
    let mp = missing_part(bl);
    let cf = column_findings(nums, rows);
    let bf = box_findings(nums, rows, bs);
    let found = rp + ep + mp + cf + bf;
    let parts = board_parts(bl);
    let x = parts[i];
    assert(mp.len() == 0);
    lemma_messages_plain(size, 0, 0, 0, bs);
    if i == found.len() {
        assert(x.message == msg_unsolvable());
    } else {
        assert(x == found[i]);
        if i < rp.len() {
            assert(found[i] == rp[i]);
            lemma_row_dup_part_wording(bl.take(m), size, i);
        } else if i < rp.len() + ep.len() {
            assert(found[i] == ep[i - rp.len()]);
        } else if i < rp.len() + ep.len() + cf.len() {
            let j = i - rp.len() - ep.len();
            assert(found[i] == cf[j]);
            let t = column_dups(rows)[j];
            lemma_messages_plain(size, t.2, 0, t.1, bs);
        } else {
            let j = i - rp.len() - ep.len() - cf.len();
            assert(found[i] == bf[j]);
            let t = box_dups(rows, bs as int)[j];
            lemma_messages_plain(size, t.2, t.0, t.1, bs);
        }
    }
}

/// Law: a board whose lines all parse and that has at least as many lines
/// as its size gets no finding whose message speaks of rows found.
pub proof fn lemma_no_rows_found_text(bl: BoardLines)
    requires
        bl.len() >= board_size(bl),
        forall|k: int| 0 <= k < bl.len() ==> (#[trigger] parse_row_spec(bl[k].1, board_size(bl))) is Ok,
    ensures
        forall|k: int|
            0 <= k < board_findings(bl).len() ==> !contains_text(
                (#[trigger] board_findings(bl)[k]).message,
                rows_found_text(),
            ),
{
    broadcast use vstd::seq_lib::group_to_multiset_ensures;

    let size = board_size(bl);
    assert forall|k: int| 0 <= k < kept(bl, size) implies (#[trigger] parse_row_spec(bl[k].1, size)) is Ok by {}
    lemma_board_parts(bl);
    let parts = board_parts(bl);
    let fs = board_findings(bl);
    assert forall|k: int| 0 <= k < fs.len() implies !contains_text(
        (#[trigger] fs[k]).message,
        rows_found_text(),
    ) by {
        assert(fs.to_multiset().count(fs[k]) > 0);
        assert(parts.to_multiset().count(fs[k]) > 0);
        let i = choose|i: int| 0 <= i < parts.len() && parts[i] == fs[k];
        lemma_part_wording(bl, i);
        lemma_plain_lacks_rows_found(fs[k].message);
    }
}

/// Law: when the lines a board keeps all parse, the findings whose message
/// opens with "duplicate digit" are, counted with repeats, exactly the row
/// repeats of `find_duplicates` on each kept row, the column repeats of
/// `find_column_duplicates` and the box repeats of `find_box_duplicates` on
/// the kept rows.
pub proof fn lemma_duplicate_findings(bl: BoardLines)
    requires
        forall|k: int| 0 <= k < kept(bl, board_size(bl)) ==> (#[trigger] parse_row_spec(bl[k].1, board_size(bl))) is Ok,
    ensures
        forall|i: int| 0 <= i < dup_parts(bl).len() ==> starts_with_text(#[trigger] dup_parts(bl)[i].message, dup_prefix()),
        forall|f: FindingView|
            starts_with_text(f.message, dup_prefix()) ==> #[trigger] board_findings(bl).to_multiset().count(f)
                == dup_parts(bl).to_multiset().count(f),
{
    broadcast use vstd::seq_lib::group_to_multiset_ensures;
    broadcast use vstd::seq_lib::lemma_multiset_commutative;

    let size = board_size(bl);
    let bs = board_box(bl);
    let m = kept(bl, size);
    let rows = parsed_rows(bl.take(m), size);
    let nums = line_numbers(bl.take(m));
    let rp = row_dup_part(bl.take(m), size);
    let ep = extra_part(bl, size);
    let mp = missing_part(bl);
    let cf = column_findings(nums, rows);
    let bf = box_findings(nums, rows, bs);
    let found = rp + ep + mp + cf + bf;
    let parts = board_parts(bl);
    let dp = dup_parts(bl);
    lemma_board_parts(bl);
    assert forall|i: int| 0 <= i < dp.len() implies starts_with_text(#[trigger] dp[i].message, dup_prefix()) by {
        if i < rp.len() {
            lemma_row_dup_part_wording(bl.take(m), size, i);
        } else if i < rp.len() + cf.len() {
            let t = column_dups(rows)[i - rp.len()];
            lemma_dup_wording(t.2, 0, t.1, bs);
        } else {
            let t = box_dups(rows, bs as int)[i - rp.len() - cf.len()];
            lemma_dup_wording(t.2, t.0, t.1, bs);
        }
    }
    let u = error_at(last_line(bl), msg_unsolvable());
    lemma_message_firsts(size, bl.len() as nat, ' ', 0, 0, 0, 0, bs);
    assert forall|f: FindingView| starts_with_text(f.message, dup_prefix()) implies #[trigger] board_findings(
        bl,
    ).to_multiset().count(f) == dp.to_multiset().count(f) by {
        reveal_strlit("duplicate digit");
        assert(f.message.subrange(0, dup_prefix().len() as int)[0] == f.message[0]);
        assert(f.message[0] == 'd');
        assert(!ep.contains(f)) by {
            if ep.contains(f) {
                let q = choose|q: int| 0 <= q < ep.len() && ep[q] == f;
                assert(ep[q].message == msg_extra_row(size));
            }
        }
        assert(!mp.contains(f)) by {
            if mp.contains(f) {
                let q = choose|q: int| 0 <= q < mp.len() && mp[q] == f;
                assert(mp[q].message == msg_missing_rows(size, bl.len() as nat));
            }
        }
        assert(u != f);
        assert(ep.to_multiset().count(f) == 0);
        assert(mp.to_multiset().count(f) == 0);
        assert(found.to_multiset().count(f) == dp.to_multiset().count(f));
        assert(parts.to_multiset().count(f) == found.to_multiset().count(f));
    }
}

} // verus!
