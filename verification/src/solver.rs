//! Whether a board can be completed: a backtracking search over its empty
//! cells.

use vstd::prelude::*;
use vstd::arithmetic::div_mod::{lemma_fundamental_div_mod, lemma_fundamental_div_mod_converse};
use crate::dups::rows_view;
use crate::row::Row;

verus! {

/// `(r, c)` is a cell of an `n`x`n` grid.
pub open spec fn in_grid(n: int, r: int, c: int) -> bool {
    0 <= r < n && 0 <= c < n
}

/// Cells `(r, c)` and `(r2, c2)` share a row, a column, or a `bs`x`bs` box.
pub open spec fn same_unit(bs: int, r: int, c: int, r2: int, c2: int) -> bool {
    ||| r == r2
    ||| c == c2
    ||| (r / bs == r2 / bs && c / bs == c2 / bs)
}

/// `(r2, c2)` is another cell in a row, column or box of `(r, c)`.
pub open spec fn peers(bs: int, r: int, c: int, r2: int, c2: int) -> bool {
    (r != r2 || c != c2) && same_unit(bs, r, c, r2, c2)
}

/// `g` is an `n`x`n` grid.
pub open spec fn square(g: Seq<Seq<u8>>, n: int) -> bool {
    g.len() == n && forall|r: int| 0 <= r < n ==> #[trigger] g[r].len() == n
}

/// No cell in a row, column or box of `(r, c)` holds `d`.
pub open spec fn digit_free(g: Seq<Seq<u8>>, n: int, bs: int, r: int, c: int, d: int) -> bool {
    forall|r2: int, c2: int|
        in_grid(n, r2, c2) && same_unit(bs, r, c, r2, c2) ==> #[trigger] g[r2][c2] != d
}

/// The digit at `(r, c)` of `h` differs from that of every other cell in
/// its row, column and box.
pub open spec fn fits_peers(h: Seq<Seq<u8>>, n: int, bs: int, r: int, c: int) -> bool {
    forall|r2: int, c2: int|
        in_grid(n, r2, c2) && peers(bs, r, c, r2, c2) ==> #[trigger] h[r2][c2] != h[r][c]
}

/// `h` fills the empty (zero) cells of `g` with digits from 1 to `top`, each
/// of them different from every other cell in its row, column and box, and
/// keeps the filled cells of `g` as they are.
pub open spec fn completes(g: Seq<Seq<u8>>, h: Seq<Seq<u8>>, n: int, bs: int, top: int) -> bool {
    &&& square(h, n)
    &&& forall|r: int, c: int|
        in_grid(n, r, c) ==> if g[r][c] != 0 {
            #[trigger] h[r][c] == g[r][c]
        } else {
            1 <= h[r][c] <= top && fits_peers(h, n, bs, r, c)
        }
}

/// Some grid completes `g`.
pub open spec fn completable(g: Seq<Seq<u8>>, n: int, bs: int, top: int) -> bool {
    exists|h: Seq<Seq<u8>>| completes(g, h, n, bs, top)
}

/// `g` with `d` written at `(r, c)`.
pub open spec fn place(g: Seq<Seq<u8>>, r: int, c: int, d: u8) -> Seq<Seq<u8>> {
    g.update(r, g[r].update(c, d))
}

/// The highest digit the search tries on a board of `n` rows: `n` taken as a byte.
pub open spec fn top_digit(n: int) -> int {
    n % 256
}

/// The grid the search starts from: `n` rows of `n` cells, an empty or
/// missing cell as 0.
pub open spec fn start_grid(rows: Seq<Seq<Option<u8>>>, n: int) -> Seq<Seq<u8>> {
    Seq::new(n as nat, |r: int| Seq::new(n as nat, |c: int| start_cell(rows, r, c)))
}

/// The starting value of cell `(r, c)`: its digit, or 0 when it is empty or missing.
pub open spec fn start_cell(rows: Seq<Seq<Option<u8>>>, r: int, c: int) -> u8 {
    if c < rows[r].len() {
        match rows[r][c] {
            Some(d) => d,
            None => 0,
        }
    } else {
        0
    }
}

/// The number of empty cells of a row.
pub open spec fn row_zeros(row: Seq<u8>) -> nat
    decreases row.len(),
{
    if row.len() == 0 {
        0
    } else {
        row_zeros(row.drop_last()) + if row.last() == 0 { 1nat } else { 0nat }
    }
}

/// The number of empty cells of a grid.
pub open spec fn grid_zeros(g: Seq<Seq<u8>>) -> nat
    decreases g.len(),
{
    if g.len() == 0 {
        0
    } else {
        grid_zeros(g.drop_last()) + row_zeros(g.last())
    }
}

proof fn lemma_row_zeros_update(row: Seq<u8>, c: int, d: u8)
    requires
        0 <= c < row.len(),
        row[c] == 0,
        d != 0,
    ensures
        row_zeros(row.update(c, d)) + 1 == row_zeros(row),
    decreases row.len(),
{
    let row2 = row.update(c, d);
    if c == row.len() - 1 {
        assert(row2.drop_last() =~= row.drop_last());
    } else {
        assert(row2.drop_last() =~= row.drop_last().update(c, d));
        lemma_row_zeros_update(row.drop_last(), c, d);
    }
}

proof fn lemma_grid_zeros_update(g: Seq<Seq<u8>>, r: int, row2: Seq<u8>)
    requires
        0 <= r < g.len(),
        row_zeros(row2) + 1 == row_zeros(g[r]),
    ensures
        grid_zeros(g.update(r, row2)) + 1 == grid_zeros(g),
    decreases g.len(),
{
    let g2 = g.update(r, row2);
    if r == g.len() - 1 {
        assert(g2.drop_last() =~= g.drop_last());
    } else {
        assert(g2.drop_last() =~= g.drop_last().update(r, row2));
        lemma_grid_zeros_update(g.drop_last(), r, row2);
    }
}

/// Placing a digit in an empty cell leaves one empty cell fewer.
proof fn lemma_place_zeros(g: Seq<Seq<u8>>, n: int, r: int, c: int, d: u8)
    requires
        square(g, n),
        in_grid(n, r, c),
        g[r][c] == 0,
        d != 0,
    ensures
        grid_zeros(place(g, r, c, d)) < grid_zeros(g),
{
    lemma_row_zeros_update(g[r], c, d);
    lemma_grid_zeros_update(g, r, g[r].update(c, d));
}

/// `r2` lies in the band of `bs` rows that holds `r` exactly when the
/// first band index equals the second.
proof fn lemma_same_band(bs: int, r: int, r2: int)
    requires
        bs > 0,
        0 <= r,
        0 <= r2,
    ensures
        (r / bs) * bs <= r2 < (r / bs) * bs + bs <==> r2 / bs == r / bs,
{
    let q = r / bs;
    lemma_fundamental_div_mod(r2, bs);
    assert(0 <= r2 % bs < bs) by {
        vstd::arithmetic::div_mod::lemma_mod_pos_bound(r2, bs);
    }
    assert(bs * (r2 / bs) == (r2 / bs) * bs) by (nonlinear_arith);
    if q * bs <= r2 < q * bs + bs {
        lemma_fundamental_div_mod_converse(r2, bs, q, r2 - q * bs);
    }
}

/// The first row of the band holding `r` is at most `r`.
proof fn lemma_band_start(bs: int, r: int)
    requires
        bs > 0,
        0 <= r,
    ensures
        0 <= (r / bs) * bs <= r,
{
    lemma_fundamental_div_mod(r, bs);
    vstd::arithmetic::div_mod::lemma_mod_pos_bound(r, bs);
    assert(bs * (r / bs) == (r / bs) * bs) by (nonlinear_arith);
    assert(0 <= r / bs) by (nonlinear_arith)
        requires
            bs > 0,
            0 <= r,
    ;
    assert(0 <= (r / bs) * bs) by (nonlinear_arith)
        requires
            bs > 0,
            0 <= r / bs,
    ;
}

/// A completion of the grid with `d` placed is a completion of the grid.
proof fn lemma_place_sound(
    g: Seq<Seq<u8>>,
    n: int,
    bs: int,
    top: int,
    r: int,
    c: int,
    d: u8,
    h: Seq<Seq<u8>>,
)
    requires
        square(g, n),
        in_grid(n, r, c),
        g[r][c] == 0,
        1 <= d <= top,
        digit_free(g, n, bs, r, c, d as int),
        completes(place(g, r, c, d), h, n, bs, top),
    ensures
        completes(g, h, n, bs, top),
{
    let g2 = place(g, r, c, d);
    assert forall|r1: int, c1: int| in_grid(n, r1, c1) implies if g[r1][c1] != 0 {
        #[trigger] h[r1][c1] == g[r1][c1]
    } else {
        1 <= h[r1][c1] <= top && fits_peers(h, n, bs, r1, c1)
    } by {
        if r1 == r && c1 == c {
            assert(h[r][c] == g2[r][c]);
            assert forall|r2: int, c2: int|
                in_grid(n, r2, c2) && peers(bs, r, c, r2, c2) implies #[trigger] h[r2][c2] != h[r][c] by {
                if g[r2][c2] != 0 {
                    assert(g2[r2][c2] == g[r2][c2]);
                    assert(h[r2][c2] == g2[r2][c2]);
                } else {
                    assert(g2[r2][c2] == 0);
                    assert(fits_peers(h, n, bs, r2, c2));
                    assert(peers(bs, r2, c2, r, c));
                }
            }
        } else {
            assert(g2[r1][c1] == g[r1][c1]);
        }
    }
}

/// A completion of the grid places, at an empty cell, a digit that the cell
/// can take, and completes the grid with that digit placed.
proof fn lemma_place_complete(
    g: Seq<Seq<u8>>,
    n: int,
    bs: int,
    top: int,
    r: int,
    c: int,
    h: Seq<Seq<u8>>,
)
    requires
        square(g, n),
        in_grid(n, r, c),
        g[r][c] == 0,
        completes(g, h, n, bs, top),
    ensures
        1 <= h[r][c] <= top,
        digit_free(g, n, bs, r, c, h[r][c] as int),
        completes(place(g, r, c, h[r][c]), h, n, bs, top),
{
    let d = h[r][c];
    assert(1 <= h[r][c] <= top && fits_peers(h, n, bs, r, c));
    assert forall|r2: int, c2: int|
        in_grid(n, r2, c2) && same_unit(bs, r, c, r2, c2) implies #[trigger] g[r2][c2] != d by {
        if r2 != r || c2 != c {
            if g[r2][c2] != 0 {
                assert(h[r2][c2] == g[r2][c2]);
                assert(peers(bs, r, c, r2, c2));
            }
        }
    }
    let g2 = place(g, r, c, d);
    assert forall|r1: int, c1: int| in_grid(n, r1, c1) implies if g2[r1][c1] != 0 {
        #[trigger] h[r1][c1] == g2[r1][c1]
    } else {
        1 <= h[r1][c1] <= top && fits_peers(h, n, bs, r1, c1)
    } by {
        if r1 != r || c1 != c {
            assert(g2[r1][c1] == g[r1][c1]);
            if g[r1][c1] != 0 {
                assert(h[r1][c1] == g[r1][c1]);
            }
        }
    }
}

/// The contents of a grid held as rows of bytes.
pub open spec fn gview(grid: Seq<Vec<u8>>) -> Seq<Seq<u8>> {
    grid.map_values(|row: Vec<u8>| row@)
}

/// Writes `d` at `(r, c)`.
fn set_cell(grid: &mut Vec<Vec<u8>>, r: usize, c: usize, d: u8)
    requires
        r < old(grid)@.len(),
        c < old(grid)@[r as int]@.len(),
    ensures
        gview(final(grid)@) == place(gview(old(grid)@), r as int, c as int, d),
{
    let mut row = grid.remove(r);
    row.set(c, d);
    grid.insert(r, row);
    assert(gview(grid@) =~= place(gview(old(grid)@), r as int, c as int, d));
}

/// True if `digit` appears nowhere in the row, column and box of `(row, col)`.
pub fn is_safe(grid: &Vec<Vec<u8>>, row: usize, col: usize, digit: u8, size: usize, box_size: usize) -> (safe: bool)
    requires
        square(gview(grid@), size as int),
        size == box_size * box_size,
        row < size,
        col < size,
    ensures
        safe == digit_free(gview(grid@), size as int, box_size as int, row as int, col as int, digit as int),
{
    let ghost g = gview(grid@);
    let ghost n = size as int;
    let ghost bs = box_size as int;
    assert(box_size > 0) by (nonlinear_arith)
        requires
            row < size,
            size == box_size * box_size,
    ;
    let mut i: usize = 0;
    while i < size
        invariant
            i <= size,
            g == gview(grid@),
            square(g, n),
            n == size,
            row < size,
            col < size,
            forall|j: int| 0 <= j < i ==> #[trigger] g[row as int][j] != digit,
            forall|j: int| 0 <= j < i ==> #[trigger] g[j][col as int] != digit,
        decreases size - i,
    {
        assert(grid@[row as int]@ == g[row as int]);
        assert(grid@[i as int]@ == g[i as int]);
        let a = grid[row][i];
        let b = grid[i][col];
        assert(a == g[row as int][i as int]);
        assert(b == g[i as int][col as int]);
        if a == digit || b == digit {
            assert(same_unit(bs, row as int, col as int, row as int, i as int));
            assert(same_unit(bs, row as int, col as int, i as int, col as int));
            return false;
        }
        i += 1;
    }
    proof {
        lemma_band_start(bs, row as int);
        lemma_band_start(bs, col as int);
    }
    let box_row = (row / box_size) * box_size;
    let box_col = (col / box_size) * box_size;
    proof {
        assert(row as int / bs < bs && col as int / bs < bs) by (nonlinear_arith)
            requires
                row < size,
                col < size,
                size == bs * bs,
                bs > 0,
        ;
        crate::dups::lemma_box_bounds_pub(bs, row as int / bs);
        crate::dups::lemma_box_bounds_pub(bs, col as int / bs);
    }
    let mut r = box_row;
    while r < box_row + box_size
        invariant
            box_row <= r <= box_row + box_size <= size,
            box_col + box_size <= size,
            box_row == (row as int / bs) * bs,
            box_col == (col as int / bs) * bs,
            bs == box_size,
            bs > 0,
            row < size,
            col < size,
            g == gview(grid@),
            square(g, n),
            n == size,
            forall|r2: int, c2: int|
                box_row <= r2 < r && box_col <= c2 < box_col + box_size ==> #[trigger] g[r2][c2] != digit,
        decreases box_row + box_size - r,
    {
        let mut c = box_col;
        while c < box_col + box_size
            invariant
                box_row <= r < box_row + box_size <= size,
                box_col <= c <= box_col + box_size <= size,
                box_row == (row as int / bs) * bs,
                box_col == (col as int / bs) * bs,
                bs == box_size,
                bs > 0,
                row < size,
                col < size,
                g == gview(grid@),
                square(g, n),
                n == size,
                forall|r2: int, c2: int|
                    box_row <= r2 < r && box_col <= c2 < box_col + box_size ==> #[trigger] g[r2][c2] != digit,
                forall|c2: int| box_col <= c2 < c ==> #[trigger] g[r as int][c2] != digit,
            decreases box_col + box_size - c,
        {
            assert(grid@[r as int]@ == g[r as int]);
            if grid[r][c] == digit {
                proof {
                    lemma_same_band(bs, row as int, r as int);
                    lemma_same_band(bs, col as int, c as int);
                    assert(same_unit(bs, row as int, col as int, r as int, c as int));
                    assert(in_grid(n, r as int, c as int));
                }
                return false;
            }
            c += 1;
        }
        r += 1;
    }
    proof {
        assert forall|r2: int, c2: int|
            in_grid(n, r2, c2) && same_unit(bs, row as int, col as int, r2, c2) implies #[trigger] g[r2][c2]
                != digit by {
            if r2 != row && c2 != col {
                lemma_same_band(bs, row as int, r2);
                lemma_same_band(bs, col as int, c2);
            }
        }
    }
    true
}

/// True if the grid can be completed: every empty (zero) cell filled with a
/// digit from 1 to `size` (as a byte) that no other cell in its row, column
/// or box holds. On success the grid holds such a completion; otherwise it
/// is left as it was.
pub fn solve(grid: &mut Vec<Vec<u8>>, size: usize, box_size: usize) -> (found: bool)
    requires
        square(gview(old(grid)@), size as int),
        size == box_size * box_size,
    ensures
        square(gview(final(grid)@), size as int),
        found == completable(gview(old(grid)@), size as int, box_size as int, top_digit(size as int)),
        found ==> completes(
            gview(old(grid)@),
            gview(final(grid)@),
            size as int,
            box_size as int,
            top_digit(size as int),
        ),
        !found ==> gview(final(grid)@) == gview(old(grid)@),
    decreases grid_zeros(gview(old(grid)@)),
{
    let ghost g0 = gview(grid@);
    let ghost n = size as int;
    let ghost bs = box_size as int;
    let ghost top_i = top_digit(n);
    let top: u8 = (size % 256) as u8;
    let mut r: usize = 0;
    while r < size
        invariant
            r <= size,
            gview(grid@) == g0,
            gview(old(grid)@) == g0,
            square(g0, n),
            n == size,
            bs == box_size,
            top_i == top,
            top_i == top_digit(n),
            size == box_size * box_size,
            forall|r2: int, c2: int| 0 <= r2 < r && 0 <= c2 < n ==> #[trigger] g0[r2][c2] != 0,
        decreases size - r,
    {
        let mut c: usize = 0;
        while c < size
            invariant
                r < size,
                c <= size,
                gview(grid@) == g0,
                gview(old(grid)@) == g0,
                square(g0, n),
                n == size,
                bs == box_size,
                top_i == top,
                top_i == top_digit(n),
                size == box_size * box_size,
                forall|r2: int, c2: int| 0 <= r2 < r && 0 <= c2 < n ==> #[trigger] g0[r2][c2] != 0,
                forall|c2: int| 0 <= c2 < c ==> #[trigger] g0[r as int][c2] != 0,
            decreases size - c,
        {
            assert(grid@[r as int]@ == g0[r as int]);
            if grid[r][c] == 0 {
                let mut d: u16 = 1;
                while d <= top as u16
                    invariant
                        1 <= d <= top as u16 + 1,
                        r < size,
                        c < size,
                        gview(grid@) == g0,
                        gview(old(grid)@) == g0,
                        square(g0, n),
                        g0[r as int][c as int] == 0,
                        n == size,
                        bs == box_size,
                        top_i == top,
                        top_i == top_digit(n),
                        size == box_size * box_size,
                        forall|e: int|
                            1 <= e < d ==> !(digit_free(g0, n, bs, r as int, c as int, e) && #[trigger] completable(
                                place(g0, r as int, c as int, e as u8),
                                n,
                                bs,
                                top_i,
                            )),
                    decreases top as u16 + 1 - d,
                {
                    let digit = d as u8;
                    if is_safe(grid, r, c, digit, size, box_size) {
                        set_cell(grid, r, c, digit);
                        proof {
                            lemma_place_zeros(g0, n, r as int, c as int, digit);
                            assert forall|r2: int| 0 <= r2 < n implies #[trigger] gview(grid@)[r2].len() == n by {
                                assert(g0[r2].len() == n);
                            }
                        }
                        let ghost placed = gview(grid@);
                        assert(placed == place(g0, r as int, c as int, digit));
                        if solve(grid, size, box_size) {
                            proof {
                                lemma_place_sound(g0, n, bs, top_i, r as int, c as int, digit, gview(grid@));
                            }
                            return true;
                        }
                        assert(grid@[r as int]@ == gview(grid@)[r as int]);
                        set_cell(grid, r, c, 0);
                        assert(gview(grid@) =~= g0) by {
                            assert(place(placed, r as int, c as int, 0u8)[r as int] =~= g0[r as int]);
                        }
                    }
                    assert((d as int) as u8 == digit);
                    d += 1;
                }
                proof {
                    if completable(g0, n, bs, top_i) {
                        let h = choose|h: Seq<Seq<u8>>| completes(g0, h, n, bs, top_i);
                        lemma_place_complete(g0, n, bs, top_i, r as int, c as int, h);
                        let e = h[r as int][c as int] as int;
                        assert(e as u8 == h[r as int][c as int]);
                        assert(completable(place(g0, r as int, c as int, e as u8), n, bs, top_i));
                    }
                }
                return false;
            }
            c += 1;
        }
        r += 1;
    }
    proof {
        assert(completes(g0, g0, n, bs, top_i));
    }
    true
}

/// True if a board can be completed: its `box_size * box_size` rows, with
/// empty cells (and cells missing from short rows) filled by digits from 1
/// to the board size (taken as a byte), each placed digit different from
/// every other cell of its row, column and box. Given digits are kept as
/// they are and are not checked against each other; a full board is
/// completable as it stands.
pub fn is_solvable(rows: &[Row], box_size: usize) -> (solvable: bool)
    requires
        box_size * box_size <= usize::MAX,
        rows@.len() == box_size * box_size ==> forall|r: int|
            0 <= r < rows@.len() ==> #[trigger] rows@[r]@.len() <= box_size * box_size,
    ensures
        solvable == (rows@.len() == box_size * box_size && completable(
            start_grid(rows_view(rows@), box_size * box_size),
            box_size * box_size,
            box_size as int,
            top_digit(box_size * box_size),
        )),
{
    let size = box_size * box_size;
    if rows.len() != size {
        return false;
    }
    let ghost rv = rows_view(rows@);
    let ghost target = start_grid(rv, size as int);
    let mut grid: Vec<Vec<u8>> = Vec::new();
    let mut r: usize = 0;
    while r < size
        invariant
            r <= size,
            rows@.len() == size,
            rv == rows_view(rows@),
            target == start_grid(rv, size as int),
            forall|r2: int| 0 <= r2 < rows@.len() ==> #[trigger] rows@[r2]@.len() <= size,
            gview(grid@) == target.take(r as int),
        decreases size - r,
    {
        let src = &rows[r];
        assert(rv[r as int] == src@);
        let mut line: Vec<u8> = Vec::new();
        let mut c: usize = 0;
        while c < size
            invariant
                r < size,
                c <= size,
                rows@.len() == size,
                rv == rows_view(rows@),
                rv[r as int] == src@,
                src@.len() <= size,
                target == start_grid(rv, size as int),
                line@ == target[r as int].take(c as int),
            decreases size - c,
        {
            let v: u8 = if c < src.len() {
                match src[c] {
                    Some(d) => d,
                    None => 0,
                }
            } else {
                0
            };
            line.push(v);
            assert(line@ =~= target[r as int].take(c + 1));
            c += 1;
        }
        assert(line@ =~= target[r as int]);
        let ghost old_g = gview(grid@);
        grid.push(line);
        assert(gview(grid@) =~= old_g.push(target[r as int]));
        assert(gview(grid@) =~= target.take(r + 1));
        r += 1;
    }
    assert(gview(grid@) =~= target);
    solve(&mut grid, size, box_size)
}

/// `h` is a solved board: every cell holds a digit from 1 to `top` that no
/// other cell of its row, column or box holds.
pub open spec fn is_solution(h: Seq<Seq<u8>>, n: int, bs: int, top: int) -> bool {
    &&& square(h, n)
    &&& forall|r: int, c: int|
        in_grid(n, r, c) ==> 1 <= #[trigger] h[r][c] <= top && fits_peers(h, n, bs, r, c)
}

/// `h` keeps every filled cell of `g`.
pub open spec fn extends(g: Seq<Seq<u8>>, h: Seq<Seq<u8>>, n: int) -> bool {
    forall|r: int, c: int| in_grid(n, r, c) && g[r][c] != 0 ==> #[trigger] h[r][c] == g[r][c]
}

/// The filled cells of `g` hold digits up to `top`, and no two filled cells
/// of one row, column or box hold the same digit.
pub open spec fn givens_consistent(g: Seq<Seq<u8>>, n: int, bs: int, top: int) -> bool {
    forall|r: int, c: int, r2: int, c2: int|
        in_grid(n, r, c) && in_grid(n, r2, c2) && #[trigger] g[r][c] != 0 ==> {
            &&& g[r][c] <= top
            &&& (peers(bs, r, c, r2, c2) && #[trigger] g[r2][c2] != 0 ==> g[r2][c2] != g[r][c])
        }
}

/// Law: when the filled cells of a board do not clash, the search succeeds
/// exactly when the board has a solution that keeps them.
pub proof fn lemma_completable_iff_solution(g: Seq<Seq<u8>>, n: int, bs: int, top: int)
    requires
        square(g, n),
        givens_consistent(g, n, bs, top),
    ensures
        completable(g, n, bs, top) <==> exists|h: Seq<Seq<u8>>| is_solution(h, n, bs, top) && extends(g, h, n),
{
    if completable(g, n, bs, top) {
        let h = choose|h: Seq<Seq<u8>>| completes(g, h, n, bs, top);
        assert forall|r: int, c: int| in_grid(n, r, c) implies 1 <= #[trigger] h[r][c] <= top && fits_peers(
            h,
            n,
            bs,
            r,
            c,
        ) by {
            if g[r][c] != 0 {
                assert(h[r][c] == g[r][c]);
                assert(g[r][c] <= top);
                assert forall|r2: int, c2: int| in_grid(n, r2, c2) && peers(bs, r, c, r2, c2) implies #[trigger] h[r2][c2]
                    != h[r][c] by {
                    if g[r2][c2] != 0 {
                        assert(h[r2][c2] == g[r2][c2]);
                    } else {
                        assert(fits_peers(h, n, bs, r2, c2));
                        assert(peers(bs, r2, c2, r, c));
                    }
                }
            }
        }
        assert(is_solution(h, n, bs, top) && extends(g, h, n));
    }
    if exists|h: Seq<Seq<u8>>| is_solution(h, n, bs, top) && extends(g, h, n) {
        let h = choose|h: Seq<Seq<u8>>| is_solution(h, n, bs, top) && extends(g, h, n);
        assert(completes(g, h, n, bs, top));
    }
}

/// Law: on an `n`x`n` grid, `n` below 256, whose filled cells do not
/// clash, the search that `solve` makes succeeds exactly when the grid has
/// a solution with the digits 1 to `n` that keeps its filled cells.
pub proof fn lemma_search_iff_solution(g: Seq<Seq<u8>>, n: int, bs: int)
    requires
        square(g, n),
        0 <= n < 256,
        givens_consistent(g, n, bs, n),
    ensures
        completable(g, n, bs, top_digit(n)) <==> exists|h: Seq<Seq<u8>>|
            #[trigger] is_solution(h, n, bs, n) && extends(g, h, n),
{
    assert(top_digit(n) == n);
    lemma_completable_iff_solution(g, n, bs, n);
}

/// Law: for boxes of `bs`x`bs` cells, `bs * bs` below 256, and rows whose
/// filled cells do not clash, `is_solvable` answers yes exactly when there
/// are `bs * bs` rows and they have a solution with the digits 1 to
/// `bs * bs` that keeps their filled cells.
pub proof fn lemma_solvable_iff_solution(rows: Seq<Seq<Option<u8>>>, bs: int)
    requires
        0 <= bs * bs < 256,
        givens_consistent(start_grid(rows, bs * bs), bs * bs, bs, bs * bs),
    ensures
        (rows.len() == bs * bs && completable(start_grid(rows, bs * bs), bs * bs, bs, top_digit(bs * bs))) <==> (
        rows.len() == bs * bs && exists|h: Seq<Seq<u8>>|
            #[trigger] is_solution(h, bs * bs, bs, bs * bs) && extends(start_grid(rows, bs * bs), h, bs * bs)),
{
    let n = bs * bs;
    let g = start_grid(rows, n);
    assert(square(g, n));
    lemma_search_iff_solution(g, n, bs);
}

} // verus!
