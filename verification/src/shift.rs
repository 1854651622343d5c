//! How findings move with the lines of a file: a leading blank or comment
//! line, or another file joined in front after a blank line, only shifts
//! the line numbers.

use vstd::prelude::*;
use crate::dups::{box_dups, column_dups, lemma_box_dups_rows, lemma_column_dups_rows};
use crate::finding::{error_at, insert_by_line, lemma_sort_by_line_orders, sort_by_line, FindingView};
use crate::lint::{
    board_box, board_findings, board_findings_unsorted, board_size, box_findings, column_findings,
    entries_ok, entry_ok, group_lines, last_line, lemma_board_findings_in, lemma_boards_in_order,
    lemma_group_entries, lines_in, lint_findings,
    boards_findings, boards_of, msg_extra_row, msg_missing_rows, msg_unsolvable, row_dup_findings,
    scan_lines, BoardLines, Grouping,
};
use crate::row::ignorable;
use crate::text::{lemma_lines_concat, lemma_lines_len, lemma_lines_one, lines, strip_cr, trim};

verus! {

/// A board line moved `k` lines down.
pub open spec fn shift_entry(e: (usize, Seq<char>), k: int) -> (usize, Seq<char>) {
    ((e.0 + k) as usize, e.1)
}

/// A board's lines moved `k` lines down.
pub open spec fn shift_board(bl: BoardLines, k: int) -> BoardLines {
    bl.map_values(|e: (usize, Seq<char>)| shift_entry(e, k))
}

/// Boards moved `k` lines down.
pub open spec fn shift_boards(bs: Seq<BoardLines>, k: int) -> Seq<BoardLines> {
    bs.map_values(|b: BoardLines| shift_board(b, k))
}

/// A finding moved `k` lines down.
pub open spec fn shift_finding(f: FindingView, k: int) -> FindingView {
    FindingView { line: (f.line + k) as usize, severity: f.severity, message: f.message }
}

/// Findings moved `k` lines down.
pub open spec fn shift_findings(fs: Seq<FindingView>, k: int) -> Seq<FindingView> {
    fs.map_values(|f: FindingView| shift_finding(f, k))
}

/// Line numbers moved `k` lines down.
pub open spec fn shift_nums(ns: Seq<usize>, k: int) -> Seq<usize> {
    ns.map_values(|x: usize| (x + k) as usize)
}

/// Every line number of `fs` stays within `usize` when moved `k` lines down.
pub open spec fn findings_fit(fs: Seq<FindingView>, k: int) -> bool {
    forall|i: int| 0 <= i < fs.len() ==> (#[trigger] fs[i]).line + k <= usize::MAX
}

/// Every line number of `bl` stays within `usize` when moved `k` lines down.
pub open spec fn board_fits(bl: BoardLines, k: int) -> bool {
    forall|i: int| 0 <= i < bl.len() ==> (#[trigger] bl[i]).0 + k <= usize::MAX
}

/// The boards of a file's lines: its lines grouped, the last open board included.
pub open spec fn boards_of_lines(ls: Seq<Seq<char>>) -> Seq<BoardLines> {
    let g = group_lines(ls);
    if g.current.len() > 0 {
        g.boards.push(g.current)
    } else {
        g.boards
    }
}

proof fn lemma_group_concat(x: Seq<Seq<char>>, y: Seq<Seq<char>>)
    requires
        group_lines(x).current.len() == 0,
        x.len() + y.len() <= usize::MAX,
    ensures
        group_lines(x + y).boards == group_lines(x).boards + shift_boards(group_lines(y).boards, x.len() as int),
        group_lines(x + y).current == shift_board(group_lines(y).current, x.len() as int),
    decreases y.len(),
{
    let k = x.len() as int;
    if y.len() == 0 {
        assert(x + y =~= x);
        assert(group_lines(x).boards + shift_boards(group_lines(y).boards, k) =~= group_lines(x).boards);
        assert(shift_board(group_lines(y).current, k) =~= Seq::<(usize, Seq<char>)>::empty());
    } else {
        let y0 = y.drop_last();
        lemma_group_concat(x, y0);
        assert((x + y).drop_last() =~= x + y0);
        assert((x + y).last() == y.last());
        let g0 = group_lines(y0);
        let h0 = group_lines(x + y0);
        let line = y.last();
        let t = trim(line);
        if t.len() == 0 {
            if g0.current.len() > 0 {
                assert(shift_boards(g0.boards.push(g0.current), k) =~= shift_boards(g0.boards, k).push(
                    shift_board(g0.current, k),
                ));
                assert(group_lines(x + y).boards =~= group_lines(x).boards + shift_boards(group_lines(y).boards, k));
                assert(group_lines(x + y).current =~= shift_board(group_lines(y).current, k));
            } else {
                assert(h0.current.len() == 0);
            }
        } else if t[0] == '#' {
        } else {
            assert(((y.len() as usize) + k) as usize == (x + y).len() as usize);
            assert(shift_board(g0.current.push((y.len() as usize, line)), k) =~= shift_board(g0.current, k).push(
                ((x + y).len() as usize, line),
            ));
        }
    }
}

proof fn lemma_scan_shift(lines: BoardLines, size: usize, k: int)
    requires
        k >= 0,
        board_fits(lines, k),
    ensures
        scan_lines(shift_board(lines, k), size).rows == scan_lines(lines, size).rows,
        scan_lines(shift_board(lines, k), size).nums == shift_nums(scan_lines(lines, size).nums, k),
        scan_lines(shift_board(lines, k), size).findings == shift_findings(scan_lines(lines, size).findings, k),
    decreases lines.len(),
{
    let sl = shift_board(lines, k);
    if lines.len() == 0 {
        assert(shift_nums(Seq::<usize>::empty(), k) =~= Seq::<usize>::empty());
        assert(shift_findings(Seq::<FindingView>::empty(), k) =~= Seq::<FindingView>::empty());
    } else {
        let prev = lines.drop_last();
        assert(sl.drop_last() =~= shift_board(prev, k));
        assert forall|i: int| 0 <= i < prev.len() implies (#[trigger] prev[i]).0 + k <= usize::MAX by {
            assert(prev[i] == lines[i]);
        }
        lemma_scan_shift(prev, size, k);
        let sc = scan_lines(prev, size);
        let last = lines.last();
        assert(sl.last() == shift_entry(last, k));
        assert(lines[lines.len() - 1].0 + k <= usize::MAX);
        let line2 = (last.0 + k) as usize;
        if sc.rows.len() == size {
            assert(shift_findings(sc.findings.push(error_at(last.0, msg_extra_row(size))), k) =~= shift_findings(
                sc.findings,
                k,
            ).push(error_at(line2, msg_extra_row(size))));
        } else {
            match crate::row::parse_row_spec(last.1, size) {
                Ok(cells) => {
                    assert(shift_nums(sc.nums.push(last.0), k) =~= shift_nums(sc.nums, k).push(line2));
                    assert(shift_findings(sc.findings + row_dup_findings(last.0, cells), k) =~= shift_findings(
                        sc.findings,
                        k,
                    ) + row_dup_findings(line2, cells));
                },
                Err(m) => {
                    assert(shift_findings(sc.findings.push(error_at(last.0, m)), k) =~= shift_findings(
                        sc.findings,
                        k,
                    ).push(error_at(line2, m)));
                },
            }
        }
    }
}

proof fn lemma_insert_shift(s: Seq<FindingView>, x: FindingView, k: int)
    requires
        k >= 0,
        findings_fit(s, k),
        x.line + k <= usize::MAX,
    ensures
        insert_by_line(shift_findings(s, k), shift_finding(x, k)) == shift_findings(insert_by_line(s, x), k),
    decreases s.len(),
{
    let ss = shift_findings(s, k);
    if s.len() == 0 {
        assert(shift_findings(seq![x], k) =~= seq![shift_finding(x, k)]);
    } else {
        assert(s[s.len() - 1].line + k <= usize::MAX);
        assert(ss.last() == shift_finding(s.last(), k));
        if s.last().line <= x.line {
            assert(shift_findings(s.push(x), k) =~= ss.push(shift_finding(x, k)));
        } else {
            let p = s.drop_last();
            assert forall|i: int| 0 <= i < p.len() implies (#[trigger] p[i]).line + k <= usize::MAX by {
                assert(p[i] == s[i]);
            }
            lemma_insert_shift(p, x, k);
            assert(ss.drop_last() =~= shift_findings(p, k));
            assert(shift_findings(insert_by_line(p, x).push(s.last()), k) =~= shift_findings(
                insert_by_line(p, x),
                k,
            ).push(shift_finding(s.last(), k)));
        }
    }
}

proof fn lemma_sort_shift(s: Seq<FindingView>, k: int)
    requires
        k >= 0,
        findings_fit(s, k),
    ensures
        sort_by_line(shift_findings(s, k)) == shift_findings(sort_by_line(s), k),
    decreases s.len(),
{
    broadcast use vstd::seq_lib::group_to_multiset_ensures;

    if s.len() == 0 {
        assert(shift_findings(s, k) =~= s);
    } else {
        let p = s.drop_last();
        assert forall|i: int| 0 <= i < p.len() implies (#[trigger] p[i]).line + k <= usize::MAX by {
            assert(p[i] == s[i]);
        }
        lemma_sort_shift(p, k);
        assert(shift_findings(s, k).drop_last() =~= shift_findings(p, k));
        assert(shift_findings(s, k).last() == shift_finding(s.last(), k));
        lemma_sort_by_line_orders(p);
        let sp = sort_by_line(p);
        assert forall|i: int| 0 <= i < sp.len() implies (#[trigger] sp[i]).line + k <= usize::MAX by {
            assert(sp.to_multiset().count(sp[i]) > 0);
            assert(p.to_multiset().count(sp[i]) > 0);
            let j = choose|j: int| 0 <= j < p.len() && p[j] == sp[i];
        }
        assert(s[s.len() - 1].line + k <= usize::MAX);
        lemma_insert_shift(sp, s.last(), k);
    }
}

/// Law: moving a board's lines down moves its findings down by as much.
pub proof fn lemma_board_shift(bl: BoardLines, k: int)
    requires
        bl.len() > 0,
        k >= 0,
        board_fits(bl, k),
    ensures
        board_findings(shift_board(bl, k)) == shift_findings(board_findings(bl), k),
{
    let sb = shift_board(bl, k);
    assert(sb[0].1 == bl[0].1);
    let size = board_size(bl);
    let bs = board_box(bl);
    assert(board_size(sb) == size && board_box(sb) == bs);
    lemma_scan_shift(bl, size, k);
    let sc = scan_lines(bl, size);
    let sc2 = scan_lines(sb, size);
    assert(bl[bl.len() - 1].0 + k <= usize::MAX);
    assert(last_line(sb) == (last_line(bl) + k) as usize);
    crate::lint::lemma_scan_facts(bl, size);
    lemma_column_dups_rows(sc.rows);
    lemma_box_dups_rows(sc.rows, bs as int);
    let cf = column_findings(sc.nums, sc.rows);
    let bf = box_findings(sc.nums, sc.rows, bs);
    assert(column_findings(sc2.nums, sc2.rows) =~= shift_findings(cf, k)) by {
        assert forall|i: int| 0 <= i < cf.len() implies column_findings(sc2.nums, sc2.rows)[i] == shift_findings(
            cf,
            k,
        )[i] by {
            let t = column_dups(sc.rows)[i];
            assert(t.0 < sc.nums.len());
        }
    }
    assert(box_findings(sc2.nums, sc2.rows, bs) =~= shift_findings(bf, k)) by {
        assert forall|i: int| 0 <= i < bf.len() implies box_findings(sc2.nums, sc2.rows, bs)[i] == shift_findings(
            bf,
            k,
        )[i] by {
            let t = box_dups(sc.rows, bs as int)[i];
            assert(sc.rows.len() >= bs * bs);
            assert(t.0 < sc.nums.len());
        }
    }
    let last = last_line(bl);
    let last2 = last_line(sb);
    let f1 = if sc.rows.len() < size {
        sc.findings.push(error_at(last, msg_missing_rows(size, sc.rows.len())))
    } else {
        sc.findings
    };
    let f1s = if sc2.rows.len() < size {
        sc2.findings.push(error_at(last2, msg_missing_rows(size, sc2.rows.len())))
    } else {
        sc2.findings
    };
    assert(f1s =~= shift_findings(f1, k));
    let f2 = f1 + cf + bf;
    assert(f1s + column_findings(sc2.nums, sc2.rows) + box_findings(sc2.nums, sc2.rows, bs) =~= shift_findings(
        f2,
        k,
    ));
    assert(shift_findings(f2.push(error_at(last, msg_unsolvable())), k) =~= shift_findings(f2, k).push(
        error_at(last2, msg_unsolvable()),
    ));
    assert(board_findings_unsorted(sb) =~= shift_findings(board_findings_unsorted(bl), k));
    let set = Set::new(|x: usize| x + k <= usize::MAX);
    assert forall|i: int| 0 <= i < bl.len() implies set.contains((#[trigger] bl[i]).0) by {}
    lemma_board_findings_in(bl, set);
    let raw = board_findings_unsorted(bl);
    assert forall|i: int| 0 <= i < raw.len() implies (#[trigger] raw[i]).line + k <= usize::MAX by {
        assert(set.contains(raw[i].line));
    }
    lemma_sort_shift(raw, k);
}

proof fn lemma_flatten_shift(parts: Seq<Seq<FindingView>>, k: int)
    ensures
        parts.map_values(|p: Seq<FindingView>| shift_findings(p, k)).flatten() == shift_findings(parts.flatten(), k),
    decreases parts.len(),
{
    let mp = parts.map_values(|p: Seq<FindingView>| shift_findings(p, k));
    if parts.len() == 0 {
        assert(shift_findings(parts.flatten(), k) =~= Seq::<FindingView>::empty());
    } else {
        let rest = parts.drop_first();
        lemma_flatten_shift(rest, k);
        assert(mp.drop_first() =~= rest.map_values(|p: Seq<FindingView>| shift_findings(p, k)));
        assert(parts.flatten() == parts[0] + rest.flatten());
        assert(mp.flatten() == mp[0] + mp.drop_first().flatten());
        assert(shift_findings(parts[0] + rest.flatten(), k) =~= shift_findings(parts[0], k) + shift_findings(
            rest.flatten(),
            k,
        ));
    }
}

/// The findings of boards whose lines are followed by other boards moved
/// down `k` lines: the findings of the first, then those of the others moved
/// down `k` lines.
proof fn lemma_boards_findings_concat(a: Seq<BoardLines>, b: Seq<BoardLines>, k: int)
    requires
        k >= 0,
        forall|i: int| 0 <= i < b.len() ==> (#[trigger] b[i]).len() > 0 && board_fits(b[i], k),
    ensures
        boards_findings(a + shift_boards(b, k)).flatten() == boards_findings(a).flatten() + shift_findings(
            boards_findings(b).flatten(),
            k,
        ),
{
    let sb = shift_boards(b, k);
    assert(boards_findings(a + sb) =~= boards_findings(a) + boards_findings(sb));
    vstd::seq_lib::lemma_flatten_concat(boards_findings(a), boards_findings(sb));
    let mp = boards_findings(b).map_values(|p: Seq<FindingView>| shift_findings(p, k));
    assert forall|i: int| 0 <= i < b.len() implies #[trigger] boards_findings(sb)[i] == mp[i] by {
        lemma_board_shift(b[i], k);
    }
    assert(boards_findings(sb) =~= mp);
    lemma_flatten_shift(boards_findings(b), k);
}

proof fn lemma_boards_of_lines_concat(x: Seq<Seq<char>>, y: Seq<Seq<char>>)
    requires
        group_lines(x).current.len() == 0,
        x.len() + y.len() <= usize::MAX,
    ensures
        boards_of_lines(x + y) == group_lines(x).boards + shift_boards(boards_of_lines(y), x.len() as int),
{
    lemma_group_concat(x, y);
    let k = x.len() as int;
    let gy = group_lines(y);
    if gy.current.len() > 0 {
        assert(shift_boards(gy.boards.push(gy.current), k) =~= shift_boards(gy.boards, k).push(shift_board(gy.current, k)));
        assert(boards_of_lines(x + y) =~= group_lines(x).boards + shift_boards(boards_of_lines(y), k));
    }
}

/// The boards of a file are non-empty and their line numbers stay within
/// `usize` when moved down `k` lines, for `k` up to the room left.
proof fn lemma_boards_fit(source: Seq<char>, k: int)
    requires
        source.len() <= usize::MAX,
        k >= 0,
        lines(source).len() + k <= usize::MAX,
    ensures
        forall|i: int|
            0 <= i < boards_of(source).len() ==> (#[trigger] boards_of(source)[i]).len() > 0 && board_fits(
                boards_of(source)[i],
                k,
            ),
{
    let ls = lines(source);
    lemma_lines_len(source);
    lemma_group_entries(ls);
    lemma_boards_in_order(source);
    let g = group_lines(ls);
    let boards = boards_of(source);
    assert forall|i: int| 0 <= i < boards.len() implies (#[trigger] boards[i]).len() > 0 && board_fits(boards[i], k) by {
        let b = boards[i];
        if i < g.boards.len() {
            assert(b == g.boards[i]);
            assert(entries_ok(ls, b));
        } else {
            assert(b == g.current);
        }
        assert forall|j: int| 0 <= j < b.len() implies (#[trigger] b[j]).0 + k <= usize::MAX by {
            assert(entry_ok(ls, b[j]));
        }
    }
}

/// Law: putting a blank or comment line (without a line break) in front of a
/// file moves every finding one line down and changes nothing else.
pub proof fn lemma_lint_after_ignorable_line(p: Seq<char>, s: Seq<char>)
    requires
        !p.contains('\n'),
        !p.contains('\r'),
        ignorable(p),
        p.len() + 1 + s.len() <= usize::MAX,
    ensures
        lint_findings(p + seq!['\n'] + s) == shift_findings(lint_findings(s), 1),
{
    let x = p + seq!['\n'];
    let file = x + s;
    assert(x.last() == '\n');
    lemma_lines_concat(x, s);
    lemma_lines_one(p);
    if p.len() > 0 {
        assert(p[p.len() - 1] != '\r');
    }
    assert(strip_cr(p) == p);
    let first = seq![p];
    assert(lines(file) == first + lines(s));
    assert(first.drop_last() =~= Seq::<Seq<char>>::empty());
    assert(first.last() == p);
    assert(group_lines(first.drop_last()).boards.len() == 0);
    assert(group_lines(first.drop_last()).current.len() == 0);
    assert(group_lines(first).current.len() == 0);
    assert(group_lines(first).boards.len() == 0);
    lemma_lines_len(file);
    lemma_lines_len(s);
    lemma_boards_of_lines_concat(first, lines(s));
    assert(group_lines(first).boards + shift_boards(boards_of(s), 1) =~= shift_boards(boards_of(s), 1));
    lemma_boards_fit(s, 1);
    lemma_boards_findings_concat(Seq::empty(), boards_of(s), 1);
    assert(Seq::<BoardLines>::empty() + shift_boards(boards_of(s), 1) =~= shift_boards(boards_of(s), 1));
    assert(boards_findings(Seq::<BoardLines>::empty()).flatten() =~= Seq::<FindingView>::empty());
    assert(Seq::<FindingView>::empty() + shift_findings(lint_findings(s), 1) =~= shift_findings(lint_findings(s), 1));
}

/// Law: a file joined after another (empty, or ending in a line break) with
/// a blank line between them gets the findings of the first, then those of
/// the second moved down past the first's lines and the blank line.
pub proof fn lemma_lint_joined(a: Seq<char>, b: Seq<char>)
    requires
        a.len() == 0 || a.last() == '\n',
        a.len() + 1 + b.len() <= usize::MAX,
    ensures
        lint_findings(a + seq!['\n'] + b) == lint_findings(a) + shift_findings(
            lint_findings(b),
            lines(a).len() + 1int,
        ),
{
    let nl = seq!['\n'];
    let file = a + nl + b;
    lemma_lines_one(Seq::empty());
    assert(Seq::<char>::empty() + nl =~= nl);
    assert(strip_cr(Seq::<char>::empty()) =~= Seq::<char>::empty());
    let blank = Seq::<char>::empty();
    lemma_lines_concat(nl, b);
    assert(lines(nl + b) == seq![blank] + lines(b));
    if a.len() == 0 {
        assert(file =~= nl + b);
        assert(lines(a) =~= Seq::<Seq<char>>::empty());
    } else {
        assert(file =~= a + (nl + b));
        lemma_lines_concat(a, nl + b);
    }
    let la = lines(a);
    let x = la.push(blank);
    assert(lines(file) =~= x + lines(b));
    assert(x.drop_last() =~= la);
    assert(trim(blank).len() == 0) by {
        assert(crate::text::trim_start(blank) == blank);
        assert(crate::text::trim_end(blank) == blank);
    }
    assert(group_lines(x).current.len() == 0);
    assert(group_lines(x).boards == boards_of(a));
    lemma_lines_len(file);
    lemma_lines_len(a);
    lemma_lines_len(b);
    lemma_boards_of_lines_concat(x, lines(b));
    let k = x.len() as int;
    assert(k == la.len() + 1);
    lemma_boards_fit(b, k);
    lemma_boards_findings_concat(boards_of(a), boards_of(b), k);
}

} // verus!
