//! Repeated digits within a row, a column, or a box.

use vstd::prelude::*;
use crate::row::Row;

verus! {

broadcast use vstd::seq_lib::group_seq_properties;

/// A cell as the scans see it: its row, its column, and its content.
pub type Item = (usize, usize, Option<u8>);

/// Some cell of `items` holds the digit `d`.
pub open spec fn seen_before(items: Seq<Item>, d: int) -> bool {
    exists|j: int| 0 <= j < items.len() && #[trigger] items[j].2 == Some(d as u8) && 0 <= d < 256
}

/// `(row, column, digit)` for every cell of `items` that repeats a digit held
/// by an earlier cell of `items`, in the order of `items`.
pub open spec fn dups_in(items: Seq<Item>) -> Seq<(usize, usize, u8)>
    decreases items.len(),
{
    if items.len() == 0 {
        Seq::empty()
    } else {
        let prev = dups_in(items.drop_last());
        let x = items.last();
        match x.2 {
            Some(d) => if seen_before(items.drop_last(), d as int) {
                prev.push((x.0, x.1, d))
            } else {
                prev
            },
            None => prev,
        }
    }
}

/// `seen[d]` tells whether a cell of `items` holds `d`.
pub open spec fn tracks(seen: Seq<bool>, items: Seq<Item>) -> bool {
    forall|d: int| 0 <= d < seen.len() ==> #[trigger] seen[d] == seen_before(items, d)
}

/// The table a scan starts from: no digit seen.
pub open spec fn nothing_seen(seen: Seq<bool>) -> bool {
    forall|d: int| 0 <= d < seen.len() ==> !#[trigger] seen[d]
}

/// A filled cell holds a digit no greater than `max`.
pub open spec fn cell_at_most(cell: Option<u8>, max: int) -> bool {
    match cell {
        Some(d) => d <= max,
        None => true,
    }
}

proof fn lemma_tracks_empty(seen: Seq<bool>)
    requires
        nothing_seen(seen),
    ensures
        tracks(seen, Seq::empty()),
{
}

proof fn lemma_dups_step(items: Seq<Item>, x: Item, seen: Seq<bool>)
    requires
        tracks(seen, items),
        cell_at_most(x.2, seen.len() - 1),
    ensures
        ({
            let items2 = items.push(x);
            &&& items2.drop_last() == items
            &&& x.2 matches Some(d) ==> {
                &&& tracks(seen.update(d as int, true), items2)
                &&& dups_in(items2) == if seen[d as int] {
                    dups_in(items).push((x.0, x.1, d))
                } else {
                    dups_in(items)
                }
            }
            &&& x.2 is None ==> tracks(seen, items2) && dups_in(items2) == dups_in(items)
        }),
{
    let items2 = items.push(x);
    assert(items2.drop_last() =~= items);
    if let Some(d) = x.2 {
        let seen2 = seen.update(d as int, true);
        assert forall|e: int| 0 <= e < seen2.len() implies #[trigger] seen2[e] == seen_before(items2, e) by {
            if e == d {
                assert(items2[items.len() as int].2 == Some(e as u8));
            } else {
                if seen_before(items2, e) {
                    let j = choose|j: int| 0 <= j < items2.len() && #[trigger] items2[j].2 == Some(e as u8) && 0 <= e < 256;
                    assert(items[j].2 == Some(e as u8));
                }
                if seen_before(items, e) {
                    let j = choose|j: int| 0 <= j < items.len() && #[trigger] items[j].2 == Some(e as u8) && 0 <= e < 256;
                    assert(items2[j].2 == Some(e as u8));
                }
            }
        }
    } else {
        assert forall|e: int| 0 <= e < seen.len() implies #[trigger] seen[e] == seen_before(items2, e) by {
            if seen_before(items2, e) {
                let j = choose|j: int| 0 <= j < items2.len() && #[trigger] items2[j].2 == Some(e as u8) && 0 <= e < 256;
                assert(items[j].2 == Some(e as u8));
            }
            if seen_before(items, e) {
                let j = choose|j: int| 0 <= j < items.len() && #[trigger] items[j].2 == Some(e as u8) && 0 <= e < 256;
                assert(items2[j].2 == Some(e as u8));
            }
        }
    }
}

/// A table of `n` unseen digits.
fn fresh_seen(n: usize) -> (seen: Vec<bool>)
    ensures
        seen@.len() == n,
        nothing_seen(seen@),
{
    let mut seen: Vec<bool> = Vec::new();
    while seen.len() < n
        invariant
            seen@.len() <= n,
            nothing_seen(seen@),
        decreases n - seen.len(),
    {
        seen.push(false);
    }
    seen
}

/// Records `cell` in `seen`; true when its digit had been seen already.
fn note_cell(seen: &mut Vec<bool>, cell: Option<u8>) -> (repeat: bool)
    requires
        cell_at_most(cell, old(seen)@.len() - 1),
    ensures
        match cell {
            Some(d) => repeat == old(seen)@[d as int] && final(seen)@ == old(seen)@.update(d as int, true),
            None => !repeat && final(seen)@ == old(seen)@,
        },
{
    match cell {
        Some(d) => {
            let i = d as usize;
            if seen[i] {
                true
            } else {
                seen.set(i, true);
                assert(seen@ =~= old(seen)@.update(d as int, true));
                false
            }
        },
        None => false,
    }
}

/// The cells of a row, as items on row 0.
pub open spec fn row_items(row: Seq<Option<u8>>) -> Seq<Item> {
    Seq::new(row.len(), |i: int| (0usize, i as usize, row[i]))
}

/// The digits that appear more than once in a row, one entry per repeated
/// occurrence beyond the first, in the order they occur.
pub open spec fn repeated_digits(row: Seq<Option<u8>>) -> Seq<u8> {
    dups_in(row_items(row)).map_values(|t: (usize, usize, u8)| t.2)
}

/// Each repeat in `items` names a digit held by some item.
proof fn lemma_dups_in_digits(items: Seq<Item>, max: int)
    requires
        forall|j: int| 0 <= j < items.len() ==> cell_at_most(#[trigger] items[j].2, max),
    ensures
        forall|k: int| 0 <= k < dups_in(items).len() ==> (#[trigger] dups_in(items)[k]).2 <= max,
    decreases items.len(),
{
    if items.len() > 0 {
        let prev = items.drop_last();
        assert forall|j: int| 0 <= j < prev.len() implies cell_at_most(#[trigger] prev[j].2, max) by {
            assert(prev[j] == items[j]);
        }
        lemma_dups_in_digits(prev, max);
        let x = items.last();
        assert(cell_at_most(x.2, max));
        let out = dups_in(items);
        assert forall|k: int| 0 <= k < out.len() implies (#[trigger] out[k]).2 <= max by {
            if k < dups_in(prev).len() {
                assert(out[k] == dups_in(prev)[k]);
            }
        }
    }
}

/// The repeated digits of a row hold no digit beyond the row's bound.
pub proof fn lemma_repeated_digits_in_range(row: Seq<Option<u8>>, max: int)
    requires
        forall|j: int| 0 <= j < row.len() ==> cell_at_most(#[trigger] row[j], max),
    ensures
        forall|k: int| 0 <= k < repeated_digits(row).len() ==> #[trigger] repeated_digits(row)[k] <= max,
{
    let items = row_items(row);
    assert forall|j: int| 0 <= j < items.len() implies cell_at_most(#[trigger] items[j].2, max) by {
        assert(items[j].2 == row[j]);
    }
    lemma_dups_in_digits(items, max);
}

/// Returns the digits that appear more than once in a row, one entry per
/// repeated occurrence beyond the first.
pub fn find_duplicates(row: &Row) -> (dups: Vec<u8>)
    requires
        row@.len() < usize::MAX,
        forall|i: int| 0 <= i < row@.len() ==> cell_at_most(#[trigger] row@[i], row@.len() as int),
    ensures
        dups@ == repeated_digits(row@),
{
    let mut seen = fresh_seen(row.len() + 1);
    let mut dups: Vec<u8> = Vec::new();
    let ghost all = row_items(row@);
    proof {
        lemma_tracks_empty(seen@);
        assert(all.take(0) =~= Seq::<Item>::empty());
    }
    let mut i: usize = 0;
    while i < row.len()
        invariant
            i <= row.len(),
            all == row_items(row@),
            seen@.len() == row.len() + 1,
            forall|k: int| 0 <= k < row@.len() ==> cell_at_most(#[trigger] row@[k], row@.len() as int),
            tracks(seen@, all.take(i as int)),
            dups@ == dups_in(all.take(i as int)).map_values(|t: (usize, usize, u8)| t.2),
        decreases row.len() - i,
    {
        let cell = row[i];
        let ghost before = seen@;
        proof {
            lemma_dups_step(all.take(i as int), all[i as int], seen@);
            assert(all.take(i as int).push(all[i as int]) =~= all.take(i + 1));
        }
        let repeat = note_cell(&mut seen, cell);
        if repeat {
            dups.push(cell.unwrap());
        }
        proof {
            let prev = dups_in(all.take(i as int));
            if repeat {
                assert(prev.push((0usize, i, cell.unwrap())).map_values(|t: (usize, usize, u8)| t.2)
                    =~= prev.map_values(|t: (usize, usize, u8)| t.2).push(cell.unwrap()));
            }
        }
        i += 1;
    }
    assert(all.take(row.len() as int) =~= all);
    dups
}

/// The contents of a sequence of rows.
pub open spec fn rows_view(rows: Seq<Row>) -> Seq<Seq<Option<u8>>> {
    rows.map_values(|r: Row| r@)
}

/// Every entry names a cell within `nrows` rows and `ncols` columns and a
/// digit no greater than `max`.
pub open spec fn dups_within(s: Seq<(usize, usize, u8)>, nrows: int, ncols: int, max: int) -> bool {
    forall|k: int| 0 <= k < s.len() ==> {
        &&& (#[trigger] s[k]).0 < nrows
        &&& s[k].1 < ncols
        &&& s[k].2 <= max
    }
}

/// The cells of column `col`, top to bottom.
pub open spec fn column_items(rows: Seq<Seq<Option<u8>>>, col: int) -> Seq<Item> {
    Seq::new(rows.len(), |i: int| (i as usize, col as usize, rows[i][col]))
}

/// The repeats of the first `n` columns, column by column.
pub open spec fn column_groups(rows: Seq<Seq<Option<u8>>>, n: int) -> Seq<Seq<(usize, usize, u8)>> {
    Seq::new(n as nat, |col: int| dups_in(column_items(rows, col)))
}

/// `(row index, column, digit)` for every cell that repeats a digit already
/// seen earlier in the same column, column by column; the width is that of
/// the first row.
pub open spec fn column_dups(rows: Seq<Seq<Option<u8>>>) -> Seq<(usize, usize, u8)> {
    if rows.len() == 0 {
        Seq::empty()
    } else {
        column_groups(rows, rows[0].len() as int).flatten()
    }
}

/// Every row is at least as wide as `width`, and the first `width` cells of
/// each hold digits no greater than `width`.
pub open spec fn rows_fit(rows: Seq<Seq<Option<u8>>>, nrows: int, width: int) -> bool {
    &&& nrows <= rows.len()
    &&& forall|r: int| 0 <= r < nrows ==> #[trigger] rows[r].len() >= width
    &&& forall|r: int, c: int| 0 <= r < nrows && 0 <= c < width ==> cell_at_most(#[trigger] rows[r][c], width)
}

/// Returns `(row index, column, digit)` for every cell that repeats a digit
/// already seen earlier in the same column. The row index is a position
/// within `rows`, not a source line number.
#[verifier::loop_isolation(false)]
pub fn find_column_duplicates(rows: &[Row]) -> (dups: Vec<(usize, usize, u8)>)
    requires
        rows@.len() > 0 ==> {
            &&& rows@[0]@.len() < usize::MAX
            &&& rows_fit(rows_view(rows@), rows@.len() as int, rows@[0]@.len() as int)
        },
    ensures
        dups@ == column_dups(rows_view(rows@)),
        rows@.len() > 0 ==> dups_within(dups@, rows@.len() as int, rows@[0]@.len() as int, rows@[0]@.len() as int),
{
    let ghost rv = rows_view(rows@);
    let mut dups: Vec<(usize, usize, u8)> = Vec::new();
    if rows.len() == 0 {
        return dups;
    }
    let size = rows[0].len();
    let mut col: usize = 0;
    assert(column_groups(rv, 0).flatten() =~= Seq::<(usize, usize, u8)>::empty());
    while col < size
        invariant
            col <= size,
            dups@ == column_groups(rv, col as int).flatten(),
            dups_within(dups@, rows@.len() as int, size as int, size as int),
        decreases size - col,
    {
        let mut seen = fresh_seen(size + 1);
        let ghost items = column_items(rv, col as int);
        let ghost start = dups@;
        proof {
            lemma_tracks_empty(seen@);
            assert(items.take(0) =~= Seq::<Item>::empty());
        }
        let mut r: usize = 0;
        while r < rows.len()
            invariant
                r <= rows.len(),
                seen@.len() == size + 1,
                tracks(seen@, items.take(r as int)),
                dups@ == start + dups_in(items.take(r as int)),
                col < size,
                dups_within(dups@, rows@.len() as int, size as int, size as int),
            decreases rows.len() - r,
        {
            assert(rv[r as int] == rows@[r as int]@);
            assert(rv[r as int].len() >= size);
            let cell = rows[r][col];
            assert(rv[r as int][col as int] == cell);
            proof {
                lemma_dups_step(items.take(r as int), items[r as int], seen@);
                assert(items.take(r as int).push(items[r as int]) =~= items.take(r + 1));
            }
            if note_cell(&mut seen, cell) {
                assert(cell_at_most(rv[r as int][col as int], size as int));
                dups.push((r, col, cell.unwrap()));
            }
            assert(dups@ =~= start + dups_in(items.take(r + 1)));
            r += 1;
        }
        proof {
            assert(items.take(rows.len() as int) =~= items);
            assert(column_groups(rv, col + 1) =~= column_groups(rv, col as int).push(dups_in(items)));
            column_groups(rv, col as int).lemma_flatten_push(dups_in(items));
        }
        col += 1;
    }
    dups
}

/// The cells of box (`br`, `bc`) in reading order: left to right, top to
/// bottom within the box.
pub open spec fn box_items(rows: Seq<Seq<Option<u8>>>, bs: int, br: int, bc: int) -> Seq<Item> {
    box_rows(rows, bs, br, bc, bs).flatten()
}

/// The first `n` rows of box (`br`, `bc`), each as its `bs` cells.
pub open spec fn box_rows(rows: Seq<Seq<Option<u8>>>, bs: int, br: int, bc: int, n: int) -> Seq<Seq<Item>> {
    Seq::new(n as nat, |dr: int| box_row_items(rows, bs, br, bc, dr))
}

/// Row `dr` of box (`br`, `bc`): its `bs` cells, left to right.
pub open spec fn box_row_items(rows: Seq<Seq<Option<u8>>>, bs: int, br: int, bc: int, dr: int) -> Seq<Item> {
    Seq::new(bs as nat, |dc: int| {
        let r = br * bs + dr;
        let c = bc * bs + dc;
        (r as usize, c as usize, rows[r][c])
    })
}

/// The repeats of the first `n` boxes in band `br`, box by box.
pub open spec fn band_groups(rows: Seq<Seq<Option<u8>>>, bs: int, br: int, n: int) -> Seq<Seq<(usize, usize, u8)>> {
    Seq::new(n as nat, |bc: int| dups_in(box_items(rows, bs, br, bc)))
}

/// The repeats of the first `n` bands of boxes, band by band.
pub open spec fn box_groups(rows: Seq<Seq<Option<u8>>>, bs: int, n: int) -> Seq<Seq<(usize, usize, u8)>> {
    Seq::new(n as nat, |br: int| band_groups(rows, bs, br, bs).flatten())
}

/// `(row index, column, digit)` for every cell that repeats a digit already
/// seen earlier in its box, box by box in reading order; nothing when there
/// are fewer rows than the board has.
pub open spec fn box_dups(rows: Seq<Seq<Option<u8>>>, bs: int) -> Seq<(usize, usize, u8)> {
    if rows.len() < bs * bs {
        Seq::empty()
    } else {
        box_groups(rows, bs, bs).flatten()
    }
}

/// The box starting at row `b * bs` ends within a board of `bs * bs` rows.
pub proof fn lemma_box_bounds_pub(bs: int, b: int)
    requires
        0 <= b < bs,
    ensures
        0 <= b * bs,
        b * bs + bs <= bs * bs,
{
    lemma_box_bounds(bs, b, 0);
}

proof fn lemma_box_bounds(bs: int, b: int, d: int)
    requires
        0 <= b < bs,
        0 <= d < bs,
    ensures
        0 <= b * bs + d < bs * bs,
        b * bs + bs <= bs * bs,
{
    assert(b * bs + bs <= bs * bs) by (nonlinear_arith)
        requires
            0 <= b < bs,
    ;
    assert(0 <= b * bs) by (nonlinear_arith)
        requires
            0 <= b,
            0 <= bs,
    ;
}

/// Returns `(row index, column, digit)` for every cell that repeats a digit
/// already seen earlier in its `box_size`x`box_size` box. Boxes are scanned
/// in reading order (left to right, top to bottom within each box).
#[verifier::loop_isolation(false)]
pub fn find_box_duplicates(rows: &[Row], box_size: usize) -> (dups: Vec<(usize, usize, u8)>)
    requires
        box_size * box_size < usize::MAX,
        rows@.len() >= box_size * box_size ==> rows_fit(
            rows_view(rows@),
            box_size * box_size,
            box_size * box_size,
        ),
    ensures
        dups@ == box_dups(rows_view(rows@), box_size as int),
        dups_within(dups@, (box_size * box_size) as int, (box_size * box_size) as int, (box_size * box_size) as int),
{
    let ghost rv = rows_view(rows@);
    let ghost bs = box_size as int;
    let mut dups: Vec<(usize, usize, u8)> = Vec::new();
    let size = box_size * box_size;
    if rows.len() < size {
        return dups;
    }
    assert(box_groups(rv, bs, 0).flatten() =~= Seq::<(usize, usize, u8)>::empty());
    let mut box_row: usize = 0;
    while box_row < box_size
        invariant
            box_row <= box_size,
            dups@ == box_groups(rv, bs, box_row as int).flatten(),
            dups_within(dups@, size as int, size as int, size as int),
        decreases box_size - box_row,
    {
        let ghost band_start = dups@;
        assert(band_groups(rv, bs, box_row as int, 0).flatten() =~= Seq::<(usize, usize, u8)>::empty());
        let mut box_col: usize = 0;
        while box_col < box_size
            invariant
                box_row < box_size,
                box_col <= box_size,
                dups@ == band_start + band_groups(rv, bs, box_row as int, box_col as int).flatten(),
                dups_within(dups@, size as int, size as int, size as int),
            decreases box_size - box_col,
        {
            let ghost box_start = dups@;
            let ghost br = box_row as int;
            let ghost bc = box_col as int;
            let mut seen = fresh_seen(size + 1);
            proof {
                lemma_tracks_empty(seen@);
                lemma_box_bounds(bs, br, 0);
                lemma_box_bounds(bs, bc, 0);
                assert(box_rows(rv, bs, br, bc, 0).flatten() =~= Seq::<Item>::empty());
            }
            let r0 = box_row * box_size;
            let c0 = box_col * box_size;
            let mut dr: usize = 0;
            while dr < box_size
                invariant
                    box_row < box_size,
                    box_col < box_size,
                    dr <= box_size,
                    r0 == br * bs,
                    c0 == bc * bs,
                    r0 + box_size <= size,
                    c0 + box_size <= size,
                    seen@.len() == size + 1,
                    tracks(seen@, box_rows(rv, bs, br, bc, dr as int).flatten()),
                    dups@ == box_start + dups_in(box_rows(rv, bs, br, bc, dr as int).flatten()),
                    dups_within(dups@, size as int, size as int, size as int),
                decreases box_size - dr,
            {
                let ghost row_start = box_rows(rv, bs, br, bc, dr as int).flatten();
                let ghost seg = box_row_items(rv, bs, br, bc, dr as int);
                let r = r0 + dr;
                let mut dc: usize = 0;
                assert(row_start + seg.take(0) =~= row_start);
                while dc < box_size
                    invariant
                        box_row < box_size,
                        box_col < box_size,
                        dr < box_size,
                        dc <= box_size,
                        r == r0 + dr,
                        r < size,
                        seen@.len() == size + 1,
                        tracks(seen@, row_start + seg.take(dc as int)),
                        dups@ == box_start + dups_in(row_start + seg.take(dc as int)),
                        c0 + box_size <= size,
                        dups_within(dups@, size as int, size as int, size as int),
                    decreases box_size - dc,
                {
                    let c = c0 + dc;
                    assert(rv[r as int] == rows@[r as int]@);
                    assert(rv[r as int].len() >= size);
                    let cell = rows[r][c];
                    assert(rv[r as int][c as int] == cell);
                    let ghost items = row_start + seg.take(dc as int);
                    proof {
                        assert(seg[dc as int] == (r, c, cell));
                        lemma_dups_step(items, seg[dc as int], seen@);
                        assert(items.push(seg[dc as int]) =~= row_start + seg.take(dc + 1));
                    }
                    if note_cell(&mut seen, cell) {
                        assert(cell_at_most(rv[r as int][c as int], size as int));
                        dups.push((r, c, cell.unwrap()));
                    }
                    assert(dups@ =~= box_start + dups_in(row_start + seg.take(dc + 1)));
                    dc += 1;
                }
                proof {
                    assert(seg.take(bs) =~= seg);
                    assert(box_rows(rv, bs, br, bc, dr + 1) =~= box_rows(rv, bs, br, bc, dr as int).push(seg));
                    box_rows(rv, bs, br, bc, dr as int).lemma_flatten_push(seg);
                }
                dr += 1;
            }
            proof {
                let items = box_items(rv, bs, br, bc);
                assert(band_groups(rv, bs, br, bc + 1) =~= band_groups(rv, bs, br, bc).push(dups_in(items)));
                band_groups(rv, bs, br, bc).lemma_flatten_push(dups_in(items));
            }
            box_col += 1;
        }
        proof {
            let band = band_groups(rv, bs, box_row as int, bs).flatten();
            assert(box_groups(rv, bs, box_row + 1) =~= box_groups(rv, bs, box_row as int).push(band));
            box_groups(rv, bs, box_row as int).lemma_flatten_push(band);
        }
        box_row += 1;
    }
    dups
}

/// Every entry names a row below `n`.
pub open spec fn rows_below(s: Seq<(usize, usize, u8)>, n: int) -> bool {
    forall|k: int| 0 <= k < s.len() ==> (#[trigger] s[k]).0 < n
}

proof fn lemma_dups_in_rows_below(items: Seq<Item>, n: int)
    requires
        forall|j: int| 0 <= j < items.len() ==> (#[trigger] items[j]).0 < n,
    ensures
        rows_below(dups_in(items), n),
    decreases items.len(),
{
    if items.len() > 0 {
        let prev = items.drop_last();
        assert forall|j: int| 0 <= j < prev.len() implies (#[trigger] prev[j]).0 < n by {
            assert(prev[j] == items[j]);
        }
        lemma_dups_in_rows_below(prev, n);
        let out = dups_in(items);
        assert(items[items.len() - 1].0 < n);
        assert forall|k: int| 0 <= k < out.len() implies (#[trigger] out[k]).0 < n by {
            if k < dups_in(prev).len() {
                assert(out[k] == dups_in(prev)[k]);
            }
        }
    }
}

proof fn lemma_flatten_rows_below(groups: Seq<Seq<(usize, usize, u8)>>, n: int)
    requires
        forall|i: int| 0 <= i < groups.len() ==> rows_below(#[trigger] groups[i], n),
    ensures
        rows_below(groups.flatten(), n),
    decreases groups.len(),
{
    if groups.len() > 0 {
        let rest = groups.drop_first();
        assert forall|i: int| 0 <= i < rest.len() implies rows_below(#[trigger] rest[i], n) by {
            assert(rest[i] == groups[i + 1]);
        }
        lemma_flatten_rows_below(rest, n);
        assert(rows_below(groups[0], n));
        let f = groups.flatten();
        assert(f == groups[0] + rest.flatten());
        assert forall|k: int| 0 <= k < f.len() implies (#[trigger] f[k]).0 < n by {
            if k < groups[0].len() {
                assert(f[k] == groups[0][k]);
            } else {
                assert(f[k] == rest.flatten()[k - groups[0].len()]);
            }
        }
    }
}

/// Every column repeat names one of the given rows.
pub proof fn lemma_column_dups_rows(rows: Seq<Seq<Option<u8>>>)
    ensures
        rows_below(column_dups(rows), rows.len() as int),
{
    if rows.len() > 0 {
        let groups = column_groups(rows, rows[0].len() as int);
        assert forall|i: int| 0 <= i < groups.len() implies rows_below(#[trigger] groups[i], rows.len() as int) by {
            let items = column_items(rows, i);
            assert forall|j: int| 0 <= j < items.len() implies (#[trigger] items[j]).0 < rows.len() by {}
            lemma_dups_in_rows_below(items, rows.len() as int);
        }
        lemma_flatten_rows_below(groups, rows.len() as int);
    }
}

/// Every box repeat names one of the board's `bs * bs` rows.
pub proof fn lemma_box_dups_rows(rows: Seq<Seq<Option<u8>>>, bs: int)
    requires
        0 <= bs,
        bs * bs < usize::MAX,
    ensures
        rows_below(box_dups(rows, bs), bs * bs),
{
    if rows.len() >= bs * bs {
        let groups = box_groups(rows, bs, bs);
        assert forall|br: int| 0 <= br < groups.len() implies rows_below(#[trigger] groups[br], bs * bs) by {
            let band = band_groups(rows, bs, br, bs);
            assert forall|bc: int| 0 <= bc < band.len() implies rows_below(#[trigger] band[bc], bs * bs) by {
                let brs = box_rows(rows, bs, br, bc, bs);
                assert forall|dr: int| 0 <= dr < brs.len() implies items_below(#[trigger] brs[dr], bs * bs) by {
                    lemma_box_bounds(bs, br, dr);
                    assert forall|j: int| 0 <= j < brs[dr].len() implies (#[trigger] brs[dr][j]).0 < bs * bs by {
                        assert(brs[dr][j].0 == (br * bs + dr) as usize);
                    }
                }
                lemma_flatten_items_rows(brs, bs * bs);
                lemma_dups_in_rows_below(box_items(rows, bs, br, bc), bs * bs);
            }
            lemma_flatten_rows_below(band, bs * bs);
        }
        lemma_flatten_rows_below(groups, bs * bs);
    }
}

/// Every item lies in a row below `n`.
pub open spec fn items_below(items: Seq<Item>, n: int) -> bool {
    forall|j: int| 0 <= j < items.len() ==> (#[trigger] items[j]).0 < n
}

proof fn lemma_flatten_items_rows(groups: Seq<Seq<Item>>, n: int)
    requires
        forall|i: int| 0 <= i < groups.len() ==> items_below(#[trigger] groups[i], n),
    ensures
        items_below(groups.flatten(), n),
    decreases groups.len(),
{
    if groups.len() > 0 {
        let rest = groups.drop_first();
        assert forall|i: int| 0 <= i < rest.len() implies items_below(#[trigger] rest[i], n) by {
            assert(rest[i] == groups[i + 1]);
        }
        lemma_flatten_items_rows(rest, n);
        let f = groups.flatten();
        assert(items_below(groups[0], n));
        assert(f == groups[0] + rest.flatten());
        assert forall|k: int| 0 <= k < f.len() implies (#[trigger] f[k]).0 < n by {
            if k < groups[0].len() {
                assert(f[k] == groups[0][k]);
            } else {
                assert(f[k] == rest.flatten()[k - groups[0].len()]);
            }
        }
    }
}

proof fn lemma_seen_before_row(row: Seq<Option<u8>>, d: u8)
    ensures
        seen_before(row_items(row), d as int) <==> row.contains(Some(d)),
{
    let items = row_items(row);
    if seen_before(items, d as int) {
        let j = choose|j: int| 0 <= j < items.len() && #[trigger] items[j].2 == Some((d as int) as u8) && 0 <= d < 256;
        assert(row[j] == Some(d));
    }
    if row.contains(Some(d)) {
        let j = choose|j: int| 0 <= j < row.len() && row[j] == Some(d);
        assert(items[j].2 == Some((d as int) as u8));
    }
}

/// Law: in a row, a digit is reported once for each occurrence beyond its
/// first.
pub proof fn lemma_repeated_digit_counts(row: Seq<Option<u8>>, d: u8)
    ensures
        repeated_digits(row).to_multiset().count(d) + (if row.contains(Some(d)) { 1nat } else { 0nat })
            == row.to_multiset().count(Some(d)),
    decreases row.len(),
{
    broadcast use vstd::seq_lib::group_to_multiset_ensures;

    if row.len() > 0 {
        let prev = row.drop_last();
        let x = row.last();
        lemma_repeated_digit_counts(prev, d);
        assert(row_items(row).drop_last() =~= row_items(prev));
        assert(row =~= prev.push(x));
        assert(row_items(row).last().2 == x);
        if let Some(e) = x {
            lemma_seen_before_row(prev, e);
            if prev.contains(Some(e)) {
                assert(repeated_digits(row) =~= repeated_digits(prev).push(e));
            } else {
                assert(repeated_digits(row) =~= repeated_digits(prev));
            }
            if e == d {
                assert(row.contains(Some(d)));
            } else {
                if row.contains(Some(d)) {
                    let j = choose|j: int| 0 <= j < row.len() && row[j] == Some(d);
                    assert(prev[j] == Some(d));
                }
            }
        } else {
            assert(repeated_digits(row) =~= repeated_digits(prev));
            if row.contains(Some(d)) {
                let j = choose|j: int| 0 <= j < row.len() && row[j] == Some(d);
                assert(prev[j] == Some(d));
            }
        }
    }
}

/// No two cells of `items` hold the same digit.
pub open spec fn no_repeats(items: Seq<Item>) -> bool {
    forall|i: int, j: int|
        0 <= i < j < items.len() && (#[trigger] items[i]).2 is Some ==> (#[trigger] items[j]).2 != items[i].2
}

/// Law: a scan that reports no repeat saw no digit twice.
pub proof fn lemma_no_dups_no_repeats(items: Seq<Item>)
    requires
        dups_in(items).len() == 0,
    ensures
        no_repeats(items),
    decreases items.len(),
{
    if items.len() > 0 {
        let prev = items.drop_last();
        let x = items.last();
        if let Some(d) = x.2 {
            if seen_before(prev, d as int) {
                assert(dups_in(items).len() == dups_in(prev).len() + 1);
            }
        }
        assert(dups_in(prev).len() <= dups_in(items).len());
        lemma_no_dups_no_repeats(prev);
        assert forall|i: int, j: int|
            0 <= i < j < items.len() && (#[trigger] items[i]).2 is Some implies (#[trigger] items[j]).2 != items[i].2 by {
            assert(items[i] == prev[i]);
            if j < items.len() - 1 {
                assert(items[j] == prev[j]);
            } else {
                let d = items[i].2->0;
                if items[j].2 == items[i].2 {
                    assert(prev[i].2 == Some((d as int) as u8));
                    assert(seen_before(prev, d as int));
                }
            }
        }
    }
}

/// An empty flattening comes from empty parts.
pub proof fn lemma_flatten_empty<A>(groups: Seq<Seq<A>>)
    requires
        groups.flatten().len() == 0,
    ensures
        forall|i: int| 0 <= i < groups.len() ==> (#[trigger] groups[i]).len() == 0,
    decreases groups.len(),
{
    if groups.len() > 0 {
        let rest = groups.drop_first();
        assert(groups.flatten() == groups[0] + rest.flatten());
        lemma_flatten_empty(rest);
        assert forall|i: int| 0 <= i < groups.len() implies (#[trigger] groups[i]).len() == 0 by {
            if i > 0 {
                assert(groups[i] == rest[i - 1]);
            }
        }
    }
}

/// In a flattening of parts that all have `w` elements, element `j` of part
/// `i` stands at `i * w + j`.
pub proof fn lemma_flatten_index<A>(groups: Seq<Seq<A>>, w: int, i: int, j: int)
    requires
        forall|k: int| 0 <= k < groups.len() ==> (#[trigger] groups[k]).len() == w,
        0 <= i < groups.len(),
        0 <= j < w,
    ensures
        i * w + j < groups.flatten().len(),
        groups.flatten()[i * w + j] == groups[i][j],
    decreases groups.len(),
{
    let rest = groups.drop_first();
    assert(groups.flatten() == groups[0] + rest.flatten());
    assert forall|k: int| 0 <= k < rest.len() implies (#[trigger] rest[k]).len() == w by {
        assert(rest[k] == groups[k + 1]);
    }
    if i == 0 {
        assert(groups[0].len() == w);
    } else {
        lemma_flatten_index(rest, w, i - 1, j);
        assert(rest[i - 1] == groups[i]);
        assert(groups[0].len() == w);
        assert(i * w + j == w + ((i - 1) * w + j)) by (nonlinear_arith);
    }
}

/// Law: when no column repeat is reported, no column holds a digit twice.
pub proof fn lemma_column_clean(rows: Seq<Seq<Option<u8>>>, col: int)
    requires
        rows.len() > 0,
        0 <= col < rows[0].len(),
        column_dups(rows).len() == 0,
    ensures
        no_repeats(column_items(rows, col)),
{
    let groups = column_groups(rows, rows[0].len() as int);
    lemma_flatten_empty(groups);
    assert(groups[col].len() == 0);
    lemma_no_dups_no_repeats(column_items(rows, col));
}

/// Law: when no box repeat is reported, no box holds a digit twice.
pub proof fn lemma_box_clean(rows: Seq<Seq<Option<u8>>>, bs: int, br: int, bc: int)
    requires
        rows.len() >= bs * bs,
        0 <= br < bs,
        0 <= bc < bs,
        box_dups(rows, bs).len() == 0,
    ensures
        no_repeats(box_items(rows, bs, br, bc)),
{
    let groups = box_groups(rows, bs, bs);
    lemma_flatten_empty(groups);
    assert(groups[br].len() == 0);
    let band = band_groups(rows, bs, br, bs);
    lemma_flatten_empty(band);
    assert(band[bc].len() == 0);
    lemma_no_dups_no_repeats(box_items(rows, bs, br, bc));
}

/// Cell `(dr, dc)` of box (`br`, `bc`) stands at `dr * bs + dc` among the box's items.
pub proof fn lemma_box_item(rows: Seq<Seq<Option<u8>>>, bs: int, br: int, bc: int, dr: int, dc: int)
    requires
        0 <= dr < bs,
        0 <= dc < bs,
    ensures
        dr * bs + dc < box_items(rows, bs, br, bc).len(),
        box_items(rows, bs, br, bc)[dr * bs + dc] == box_row_items(rows, bs, br, bc, dr)[dc],
{
    let brs = box_rows(rows, bs, br, bc, bs);
    assert forall|k: int| 0 <= k < brs.len() implies (#[trigger] brs[k]).len() == bs by {}
    lemma_flatten_index(brs, bs, dr, dc);
}

/// Law: when no repeat is reported for a row, the row holds no digit twice.
pub proof fn lemma_row_clean(row: Seq<Option<u8>>)
    requires
        repeated_digits(row).len() == 0,
    ensures
        no_repeats(row_items(row)),
{
    lemma_no_dups_no_repeats(row_items(row));
}

/// Law: a scan over cells that hold no digit twice reports no repeat.
pub proof fn lemma_no_repeats_no_dups(items: Seq<Item>)
    requires
        no_repeats(items),
    ensures
        dups_in(items).len() == 0,
    decreases items.len(),
{
    if items.len() > 0 {
        let prev = items.drop_last();
        assert forall|i: int, j: int|
            0 <= i < j < prev.len() && (#[trigger] prev[i]).2 is Some implies (#[trigger] prev[j]).2 != prev[i].2 by {
            assert(prev[i] == items[i] && prev[j] == items[j]);
        }
        lemma_no_repeats_no_dups(prev);
        let x = items.last();
        if let Some(d) = x.2 {
            if seen_before(prev, d as int) {
                let j = choose|j: int| 0 <= j < prev.len() && #[trigger] prev[j].2 == Some((d as int) as u8) && 0 <= d < 256;
                assert(items[j] == prev[j]);
                assert(items[items.len() - 1].2 != items[j].2);
            }
        }
    }
}

/// Flattening parts that are all empty gives nothing.
pub proof fn lemma_flatten_of_empties<A>(groups: Seq<Seq<A>>)
    requires
        forall|i: int| 0 <= i < groups.len() ==> (#[trigger] groups[i]).len() == 0,
    ensures
        groups.flatten().len() == 0,
    decreases groups.len(),
{
    if groups.len() > 0 {
        let rest = groups.drop_first();
        assert forall|i: int| 0 <= i < rest.len() implies (#[trigger] rest[i]).len() == 0 by {
            assert(rest[i] == groups[i + 1]);
        }
        lemma_flatten_of_empties(rest);
        assert(groups[0].len() == 0);
        assert(groups.flatten() == groups[0] + rest.flatten());
    }
}

/// Law: when no column holds a digit twice, no column repeat is reported.
pub proof fn lemma_columns_clean(rows: Seq<Seq<Option<u8>>>)
    requires
        rows.len() > 0 ==> forall|col: int| 0 <= col < rows[0].len() ==> no_repeats(#[trigger] column_items(rows, col)),
    ensures
        column_dups(rows).len() == 0,
{
    if rows.len() > 0 {
        let groups = column_groups(rows, rows[0].len() as int);
        assert forall|i: int| 0 <= i < groups.len() implies (#[trigger] groups[i]).len() == 0 by {
            lemma_no_repeats_no_dups(column_items(rows, i));
        }
        lemma_flatten_of_empties(groups);
    }
}

/// Law: when no box holds a digit twice, no box repeat is reported.
pub proof fn lemma_boxes_clean(rows: Seq<Seq<Option<u8>>>, bs: int)
    requires
        0 <= bs,
        forall|br: int, bc: int| 0 <= br < bs && 0 <= bc < bs ==> no_repeats(#[trigger] box_items(rows, bs, br, bc)),
    ensures
        box_dups(rows, bs).len() == 0,
{
    if rows.len() >= bs * bs {
        let groups = box_groups(rows, bs, bs);
        assert forall|br: int| 0 <= br < groups.len() implies (#[trigger] groups[br]).len() == 0 by {
            let band = band_groups(rows, bs, br, bs);
            assert forall|bc: int| 0 <= bc < band.len() implies (#[trigger] band[bc]).len() == 0 by {
                lemma_no_repeats_no_dups(box_items(rows, bs, br, bc));
            }
            lemma_flatten_of_empties(band);
        }
        lemma_flatten_of_empties(groups);
    }
}

/// Law: when a row holds no digit twice, no row repeat is reported.
pub proof fn lemma_row_no_repeats(row: Seq<Option<u8>>)
    requires
        no_repeats(row_items(row)),
    ensures
        repeated_digits(row).len() == 0,
{
    lemma_no_repeats_no_dups(row_items(row));
}

/// Item `k` of box (`br`, `bc`) is cell `(br * bs + k / bs, bc * bs + k % bs)`.
pub proof fn lemma_box_item_at(rows: Seq<Seq<Option<u8>>>, bs: int, br: int, bc: int, k: int)
    requires
        bs > 0,
        0 <= k < box_items(rows, bs, br, bc).len(),
    ensures
        0 <= k / bs < bs,
        0 <= k % bs < bs,
        k == (k / bs) * bs + k % bs,
        box_items(rows, bs, br, bc)[k] == box_row_items(rows, bs, br, bc, k / bs)[k % bs],
{
    let brs = box_rows(rows, bs, br, bc, bs);
    assert forall|i: int| 0 <= i < brs.len() implies (#[trigger] brs[i]).len() == bs by {}
    lemma_flatten_len(brs, bs);
    vstd::arithmetic::div_mod::lemma_fundamental_div_mod(k, bs);
    vstd::arithmetic::div_mod::lemma_mod_pos_bound(k, bs);
    assert(bs * (k / bs) == (k / bs) * bs) by (nonlinear_arith);
    assert(0 <= k / bs < bs) by (nonlinear_arith)
        requires
            0 <= k < bs * bs,
            k == (k / bs) * bs + k % bs,
            0 <= k % bs < bs,
            bs > 0,
    ;
    lemma_box_item(rows, bs, br, bc, k / bs, k % bs);
}

/// Parts that all have `w` elements flatten to `len * w` elements.
proof fn lemma_flatten_len<A>(groups: Seq<Seq<A>>, w: int)
    requires
        forall|i: int| 0 <= i < groups.len() ==> (#[trigger] groups[i]).len() == w,
    ensures
        groups.flatten().len() == groups.len() * w,
    decreases groups.len(),
{
    if groups.len() > 0 {
        let rest = groups.drop_first();
        assert forall|i: int| 0 <= i < rest.len() implies (#[trigger] rest[i]).len() == w by {
            assert(rest[i] == groups[i + 1]);
        }
        lemma_flatten_len(rest, w);
        assert(groups.flatten() == groups[0] + rest.flatten());
        assert(groups[0].len() == w);
        assert(groups.len() * w == w + rest.len() * w) by (nonlinear_arith)
            requires
                rest.len() == groups.len() - 1,
        ;
    }
}

/// Item `j` holds a digit that an earlier item of `items` holds too.
pub open spec fn repeats_earlier(items: Seq<Item>, j: int) -> bool {
    items[j].2 is Some && exists|i: int| 0 <= i < j && items[i].2 == items[j].2
}

/// The positions `0..n`.
pub open spec fn positions(n: nat) -> Seq<int> {
    Seq::new(n, |j: int| j)
}

/// The test for a repeated position of `items`.
pub open spec fn repeat_test(items: Seq<Item>) -> spec_fn(int) -> bool {
    |j: int| repeats_earlier(items, j)
}

/// The report for position `j` of `items`: its row, column and digit.
pub open spec fn report_at(items: Seq<Item>) -> spec_fn(int) -> (usize, usize, u8) {
    |j: int| (items[j].0, items[j].1, items[j].2.unwrap())
}

/// The reports of the repeated positions among the first `n` items, in order.
pub open spec fn repeats_filtered(items: Seq<Item>, n: nat) -> Seq<(usize, usize, u8)> {
    positions(n).filter(repeat_test(items)).map_values(report_at(items))
}

proof fn lemma_dups_in_filtered(items: Seq<Item>, n: nat)
    requires
        n <= items.len(),
    ensures
        dups_in(items.take(n as int)) == repeats_filtered(items, n),
    decreases n,
{
    reveal(Seq::filter);
    if n == 0 {
        assert(items.take(0) =~= Seq::<Item>::empty());
        assert(positions(0).filter(repeat_test(items)) =~= Seq::<int>::empty());
        assert(repeats_filtered(items, 0) =~= Seq::<(usize, usize, u8)>::empty());
    } else {
        let k = (n - 1) as nat;
        lemma_dups_in_filtered(items, k);
        let pre = items.take(k as int);
        let cur = items.take(n as int);
        assert(cur.drop_last() =~= pre);
        assert(cur.last() == items[k as int]);
        assert(positions(n).drop_last() =~= positions(k));
        assert(positions(n).last() == k as int);
        let x = items[k as int];
        let f0 = positions(k).filter(repeat_test(items));
        if let Some(d) = x.2 {
            if seen_before(pre, d as int) {
                let i = choose|i: int| 0 <= i < pre.len() && #[trigger] pre[i].2 == Some((d as int) as u8) && 0 <= d < 256;
                assert(items[i].2 == x.2);
                assert(repeats_earlier(items, k as int));
            } else {
                if repeats_earlier(items, k as int) {
                    let i = choose|i: int| 0 <= i < k && items[i].2 == items[k as int].2;
                    assert(pre[i].2 == Some((d as int) as u8));
                }
            }
        }
        if repeat_test(items)(k as int) {
            assert(positions(n).filter(repeat_test(items)) == f0.push(k as int));
            assert(f0.push(k as int).map_values(report_at(items)) =~= f0.map_values(report_at(items)).push(
                report_at(items)(k as int),
            ));
        } else {
            assert(positions(n).filter(repeat_test(items)) == f0);
        }
    }
}

/// Law: a scan reports, in order, exactly the items holding a digit that an
/// earlier item holds.
pub proof fn lemma_dups_in_is_filter(items: Seq<Item>)
    ensures
        dups_in(items) == repeats_filtered(items, items.len()),
{
    lemma_dups_in_filtered(items, items.len());
    assert(items.take(items.len() as int) =~= items);
}

/// Law: `find_duplicates` reports the digit of each cell that repeats the
/// digit of an earlier cell of the row, in the row's order.
pub proof fn lemma_repeated_digits_filter(row: Seq<Option<u8>>)
    ensures
        repeated_digits(row) == repeats_filtered(row_items(row), row.len()).map_values(|t: (usize, usize, u8)| t.2),
        forall|j: int| 0 <= j < row.len() ==> (repeat_test(row_items(row))(j) <==> (row[j] is Some && exists|i: int|
            0 <= i < j && row[i] == row[j])),
{
    lemma_dups_in_is_filter(row_items(row));
    assert forall|j: int| 0 <= j < row.len() implies (repeat_test(row_items(row))(j) <==> (row[j] is Some && exists|
        i: int,
    | 0 <= i < j && row[i] == row[j])) by {
        let items = row_items(row);
        if repeat_test(items)(j) {
            let i = choose|i: int| 0 <= i < j && items[i].2 == items[j].2;
            assert(row[i] == row[j]);
        }
        if row[j] is Some && exists|i: int| 0 <= i < j && row[i] == row[j] {
            let i = choose|i: int| 0 <= i < j && row[i] == row[j];
            assert(items[i].2 == items[j].2);
        }
    }
}

/// Law: `find_column_duplicates` reports, column by column, each cell that
/// repeats the digit of a cell above it in its column.
pub proof fn lemma_column_dups_filter(rows: Seq<Seq<Option<u8>>>)
    ensures
        rows.len() > 0 ==> column_dups(rows) == Seq::new(
            rows[0].len(),
            |c: int| repeats_filtered(column_items(rows, c), rows.len()),
        ).flatten(),
{
    if rows.len() > 0 {
        let w = rows[0].len() as int;
        assert forall|c: int| 0 <= c < w implies #[trigger] column_groups(rows, w)[c] == repeats_filtered(
            column_items(rows, c),
            rows.len(),
        ) by {
            lemma_dups_in_is_filter(column_items(rows, c));
        }
        assert(column_groups(rows, w) =~= Seq::new(
            rows[0].len(),
            |c: int| repeats_filtered(column_items(rows, c), rows.len()),
        ));
    }
}

/// Law: `find_box_duplicates` reports, box by box in reading order, each
/// cell that repeats the digit of a cell before it in its box.
pub proof fn lemma_box_dups_filter(rows: Seq<Seq<Option<u8>>>, bs: int)
    requires
        bs >= 0,
    ensures
        rows.len() >= bs * bs ==> box_dups(rows, bs) == Seq::new(
            bs as nat,
            |br: int| Seq::new(
                bs as nat,
                |bc: int| repeats_filtered(box_items(rows, bs, br, bc), box_items(rows, bs, br, bc).len()),
            ).flatten(),
        ).flatten(),
{
    if rows.len() >= bs * bs {
        let target = Seq::new(
            bs as nat,
            |br: int| Seq::new(
                bs as nat,
                |bc: int| repeats_filtered(box_items(rows, bs, br, bc), box_items(rows, bs, br, bc).len()),
            ).flatten(),
        );
        assert forall|br: int| 0 <= br < bs implies #[trigger] box_groups(rows, bs, bs)[br] == target[br] by {
            let inner = Seq::new(
                bs as nat,
                |bc: int| repeats_filtered(box_items(rows, bs, br, bc), box_items(rows, bs, br, bc).len()),
            );
            assert forall|bc: int| 0 <= bc < bs implies #[trigger] band_groups(rows, bs, br, bs)[bc] == inner[bc] by {
                lemma_dups_in_is_filter(box_items(rows, bs, br, bc));
            }
            assert(band_groups(rows, bs, br, bs) =~= inner);
        }
        assert(box_groups(rows, bs, bs) =~= target);
    }
}

} // verus!
