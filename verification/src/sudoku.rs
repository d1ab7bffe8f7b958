//! Sudoku boards: generation of a solved grid by randomized backtracking,
//! and puzzle making by blanking cells.
//!
//! A board of side `n` (a perfect square) holds values `0..=n`, `0` standing
//! for an empty cell. A board is consistent when no row, column or box holds
//! the same nonzero value twice.

use vstd::prelude::*;
use vstd::arithmetic::div_mod::lemma_fundamental_div_mod;
use vstd::arithmetic::div_mod::lemma_mod_bound;
use crate::rng::random_below;
use crate::rng::shuffle_values;

verus! {

broadcast use vstd::seq_lib::group_to_multiset_ensures;

#[derive(Clone, Copy, Debug, PartialEq, Eq, Structural)]
pub enum Difficulty {
    Easy,
    Medium,
    Hard,
    Extreme,
}

/// How many cells a puzzle of each difficulty blanks out.
pub open spec fn removal_count_spec(d: Difficulty) -> int {
    match d {
        Difficulty::Easy => 40,
        Difficulty::Medium => 50,
        Difficulty::Hard => 60,
        Difficulty::Extreme => 70,
    }
}

impl Difficulty {
    pub fn removal_count(&self) -> (n: usize)
        ensures
            n == removal_count_spec(*self),
    {
        match self {
            Difficulty::Easy => 40,
            Difficulty::Medium => 50,
            Difficulty::Hard => 60,
            Difficulty::Extreme => 70,
        }
    }
}

#[derive(Clone, Copy, Debug, PartialEq, Eq, Structural)]
pub struct SudokuParams {
    pub size: i32,
    pub difficulty: Difficulty,
}

/// The board as a sequence of rows of values.
pub open spec fn grid(board: Seq<Vec<i32>>) -> Seq<Seq<i32>> {
    Seq::new(board.len(), |r: int| board[r]@)
}

/// The board is `n` rows of `n` cells each.
pub open spec fn dims_ok(g: Seq<Seq<i32>>, n: int) -> bool {
    g.len() == n && forall|r: int| 0 <= r < n ==> (#[trigger] g[r]).len() == n
}

/// Every cell holds a value of `0..=n`.
pub open spec fn in_range(g: Seq<Seq<i32>>, n: int) -> bool {
    forall|r: int, c: int|
        0 <= r < g.len() && 0 <= c < g[r].len() ==> 0 <= #[trigger] g[r][c] <= n
}

/// No row holds the same nonzero value twice.
pub open spec fn rows_ok(g: Seq<Seq<i32>>, n: int) -> bool {
    forall|r: int, c1: int, c2: int|
        #![trigger g[r][c1], g[r][c2]]
        0 <= r < n && 0 <= c1 < n && 0 <= c2 < n && c1 != c2 && g[r][c1] != 0 ==> g[r][c1]
            != g[r][c2]
}

/// No column holds the same nonzero value twice.
pub open spec fn cols_ok(g: Seq<Seq<i32>>, n: int) -> bool {
    forall|r1: int, r2: int, c: int|
        #![trigger g[r1][c], g[r2][c]]
        0 <= r1 < n && 0 <= r2 < n && 0 <= c < n && r1 != r2 && g[r1][c] != 0 ==> g[r1][c]
            != g[r2][c]
}

/// No box of side `bx` holds the same nonzero value twice.
pub open spec fn boxes_ok(g: Seq<Seq<i32>>, n: int, bx: int) -> bool {
    forall|r1: int, c1: int, r2: int, c2: int|
        #![trigger g[r1][c1], g[r2][c2]]
        0 <= r1 < n && 0 <= c1 < n && 0 <= r2 < n && 0 <= c2 < n && r1 / bx == r2 / bx && c1 / bx
            == c2 / bx && (r1 != r2 || c1 != c2) && g[r1][c1] != 0 ==> g[r1][c1] != g[r2][c2]
}

/// No row, column or box holds a nonzero value twice.
pub open spec fn consistent(g: Seq<Seq<i32>>, n: int, bx: int) -> bool {
    rows_ok(g, n) && cols_ok(g, n) && boxes_ok(g, n, bx)
}

/// The box side of a board side that is a perfect square.
pub open spec fn box_dim(n: int) -> int {
    choose|b: int| 1 <= b && #[trigger] (b * b) == n
}

/// Whether `n` is a positive perfect square.
pub open spec fn square_side(n: int) -> bool {
    exists|b: int| 1 <= b && #[trigger] (b * b) == n
}

/// Every cell of the board is filled.
pub open spec fn no_zeros(g: Seq<Seq<i32>>, n: int) -> bool {
    forall|r: int, c: int| 0 <= r < n && 0 <= c < n ==> #[trigger] g[r][c] != 0
}

/// Whether row `r` holds `num`.
pub open spec fn in_row(g: Seq<Seq<i32>>, n: int, r: int, num: int) -> bool {
    exists|c: int| 0 <= c < n && #[trigger] g[r][c] == num
}

/// Whether column `c` holds `num`.
pub open spec fn in_col(g: Seq<Seq<i32>>, n: int, c: int, num: int) -> bool {
    exists|r: int| 0 <= r < n && #[trigger] g[r][c] == num
}

/// Whether the box of side `bx` starting at (row_start, col_start) holds `num`.
pub open spec fn in_box(g: Seq<Seq<i32>>, bx: int, row_start: int, col_start: int, num: int) -> bool {
    exists|r: int, c: int|
        row_start <= r < row_start + bx && col_start <= c < col_start + bx && #[trigger] g[r][c]
            == num
}

/// A value may be placed at (r, c): it is nowhere in the row, the column or
/// the box of that cell.
pub open spec fn safe_at(g: Seq<Seq<i32>>, n: int, bx: int, r: int, c: int, num: int) -> bool {
    !in_row(g, n, r, num) && !in_col(g, n, c, num) && !in_box(
        g,
        bx,
        bx * (r / bx),
        bx * (c / bx),
        num,
    )
}

/// Number of empty cells in one row.
pub open spec fn row_zeros(row: Seq<i32>) -> int
    decreases row.len(),
{
    if row.len() == 0 {
        0
    } else {
        row_zeros(row.drop_last()) + if row.last() == 0 {
            1int
        } else {
            0int
        }
    }
}

/// Number of empty cells on the whole board.
pub open spec fn grid_zeros(g: Seq<Seq<i32>>) -> int
    decreases g.len(),
{
    if g.len() == 0 {
        0
    } else {
        grid_zeros(g.drop_last()) + row_zeros(g.last())
    }
}

proof fn lemma_row_zeros_bounds(row: Seq<i32>)
    ensures
        0 <= row_zeros(row) <= row.len(),
    decreases row.len(),
{
    if row.len() > 0 {
        lemma_row_zeros_bounds(row.drop_last());
    }
}

proof fn lemma_grid_zeros_bounds(g: Seq<Seq<i32>>, n: int)
    requires
        forall|r: int| 0 <= r < g.len() ==> (#[trigger] g[r]).len() == n,
    ensures
        0 <= grid_zeros(g) <= g.len() * n,
    decreases g.len(),
{
    if g.len() > 0 {
        lemma_grid_zeros_bounds(g.drop_last(), n);
        lemma_row_zeros_bounds(g.last());
        assert(g.len() * n == (g.len() - 1) * n + n) by (nonlinear_arith);
    }
}

proof fn lemma_row_zeros_update(row: Seq<i32>, c: int, v: i32)
    requires
        0 <= c < row.len(),
    ensures
        row_zeros(row.update(c, v)) == row_zeros(row) - (if row[c] == 0 {
            1int
        } else {
            0int
        }) + (if v == 0 {
            1int
        } else {
            0int
        }),
    decreases row.len(),
{
    let row2 = row.update(c, v);
    if c == row.len() - 1 {
        assert(row2.drop_last() =~= row.drop_last());
    } else {
        assert(row2.drop_last() =~= row.drop_last().update(c, v));
        lemma_row_zeros_update(row.drop_last(), c, v);
    }
}

proof fn lemma_grid_zeros_update(g: Seq<Seq<i32>>, r: int, row2: Seq<i32>)
    requires
        0 <= r < g.len(),
    ensures
        grid_zeros(g.update(r, row2)) == grid_zeros(g) - row_zeros(g[r]) + row_zeros(row2),
    decreases g.len(),
{
    let g2 = g.update(r, row2);
    if r == g.len() - 1 {
        assert(g2.drop_last() =~= g.drop_last());
    } else {
        assert(g2.drop_last() =~= g.drop_last().update(r, row2));
        lemma_grid_zeros_update(g.drop_last(), r, row2);
    }
}

proof fn lemma_row_zeros_none(row: Seq<i32>)
    requires
        forall|c: int| 0 <= c < row.len() ==> #[trigger] row[c] != 0,
    ensures
        row_zeros(row) == 0,
    decreases row.len(),
{
    if row.len() > 0 {
        lemma_row_zeros_none(row.drop_last());
    }
}

proof fn lemma_grid_zeros_none(g: Seq<Seq<i32>>)
    requires
        forall|r: int, c: int|
            0 <= r < g.len() && 0 <= c < g[r].len() ==> #[trigger] g[r][c] != 0,
    ensures
        grid_zeros(g) == 0,
    decreases g.len(),
{
    if g.len() > 0 {
        lemma_grid_zeros_none(g.drop_last());
        lemma_row_zeros_none(g.last());
    }
}

proof fn lemma_grid_zeros_step(g: Seq<Seq<i32>>, r: int)
    requires
        0 <= r < g.len(),
    ensures
        grid_zeros(g.take(r + 1)) == grid_zeros(g.take(r)) + row_zeros(g[r]),
{
    assert(g.take(r + 1).drop_last() =~= g.take(r));
    assert(g.take(r + 1).last() == g[r]);
}

proof fn lemma_row_zeros_step(row: Seq<i32>, c: int)
    requires
        0 <= c < row.len(),
    ensures
        row_zeros(row.take(c + 1)) == row_zeros(row.take(c)) + if row[c] == 0 {
            1int
        } else {
            0int
        },
{
    assert(row.take(c + 1).drop_last() =~= row.take(c));
    assert(row.take(c + 1).last() == row[c]);
}

/// Reads one cell.
pub fn get_cell(board: &Vec<Vec<i32>>, r: usize, c: usize) -> (v: i32)
    requires
        r < board@.len(),
        c < board@[r as int]@.len(),
    ensures
        v == grid(board@)[r as int][c as int],
{
    board[r][c]
}

/// Writes one cell.
pub(crate) fn set_cell(board: &mut Vec<Vec<i32>>, r: usize, c: usize, value: i32)
    requires
        r < old(board)@.len(),
        c < old(board)@[r as int]@.len(),
    ensures
        grid(final(board)@) == grid(old(board)@).update(
            r as int,
            grid(old(board)@)[r as int].update(c as int, value),
        ),
{
    board[r].set(c, value);
    proof {
        assert(grid(board@) =~~= grid(old(board)@).update(
            r as int,
            grid(old(board)@)[r as int].update(c as int, value),
        ));
    }
}

/// The side of a box: the square root of the board side.
pub(crate) fn int_sqrt(n: usize) -> (r: usize)
    requires
        square_side(n as int),
    ensures
        1 <= r,
        r * r == n,
        r == box_dim(n as int),
{
    let ghost b = box_dim(n as int);
    proof {
        assert(1 <= b && b * b == n);
        assert(b <= n) by (nonlinear_arith)
            requires
                1 <= b,
                b * b == n,
        ;
    }
    let mut r: usize = 1;
    while r * r != n
        invariant
            1 <= r <= b,
            b <= n,
            b * b == n,
            r * r <= n,
        decreases n - r,
    {
        proof {
            assert(r < b) by (nonlinear_arith)
                requires
                    1 <= r <= b,
                    b * b == n,
                    r * r != n,
                    r * r <= n,
            ;
            assert((r + 1) * (r + 1) <= b * b) by (nonlinear_arith)
                requires
                    r + 1 <= b,
                    1 <= r,
            ;
        }
        r = r + 1;
    }
    proof {
        assert(r == b) by (nonlinear_arith)
            requires
                1 <= r <= b,
                r * r == b * b,
        ;
    }
    r
}

/// Whether a row already holds a value.
pub fn used_in_row(board: &Vec<Vec<i32>>, row: usize, num: i32) -> (r: bool)
    requires
        row < board@.len(),
    ensures
        r == exists|c: int|
            0 <= c < grid(board@)[row as int].len() && #[trigger] grid(board@)[row as int][c]
                == num,
{
    let g_row = &board[row];
    let mut c: usize = 0;
    while c < g_row.len()
        invariant
            c <= g_row@.len(),
            row < board@.len(),
            g_row@ == grid(board@)[row as int],
            forall|k: int| 0 <= k < c ==> #[trigger] g_row@[k] != num,
        decreases g_row@.len() - c,
    {
        if g_row[c] == num {
            return true;
        }
        c = c + 1;
    }
    false
}

/// Whether a column already holds a value.
pub fn used_in_col(board: &Vec<Vec<i32>>, col: usize, num: i32) -> (r: bool)
    requires
        forall|k: int| 0 <= k < board@.len() ==> col < (#[trigger] grid(board@)[k]).len(),
    ensures
        r == exists|k: int|
            0 <= k < board@.len() && #[trigger] grid(board@)[k][col as int] == num,
{
    let mut row: usize = 0;
    while row < board.len()
        invariant
            row <= board@.len(),
            forall|k: int| 0 <= k < board@.len() ==> col < (#[trigger] grid(board@)[k]).len(),
            forall|k: int| 0 <= k < row ==> #[trigger] grid(board@)[k][col as int] != num,
        decreases board@.len() - row,
    {
        proof {
            assert(grid(board@)[row as int] == board@[row as int]@);
        }
        if board[row][col] == num {
            proof {
                assert(grid(board@)[row as int][col as int] == num);
            }
            return true;
        }
        row = row + 1;
    }
    false
}

/// Whether the box starting at (row_start, col_start) already holds a value.
pub fn used_in_square(
    board: &Vec<Vec<i32>>,
    col_start: usize,
    row_start: usize,
    num: i32,
    box_size: usize,
) -> (r: bool)
    requires
        row_start + box_size <= board@.len(),
        col_start + box_size <= board@.len(),
        forall|k: int|
            0 <= k < board@.len() ==> (#[trigger] grid(board@)[k]).len() == board@.len(),
    ensures
        r == in_box(grid(board@), box_size as int, row_start as int, col_start as int, num as int),
{
    let n = board.len();
    let ghost g = grid(board@);
    let mut i: usize = 0;
    while i < box_size
        invariant
            i <= box_size,
            g == grid(board@),
            n == board@.len(),
            row_start + box_size <= n,
            col_start + box_size <= n,
            forall|k: int| 0 <= k < n ==> (#[trigger] g[k]).len() == n,
            forall|r: int, c: int|
                row_start <= r < row_start + i && col_start <= c < col_start + box_size
                    ==> #[trigger] g[r][c] != num,
        decreases box_size - i,
    {
        let mut j: usize = 0;
        while j < box_size
            invariant
                i < box_size,
                j <= box_size,
                g == grid(board@),
                n == board@.len(),
                row_start + box_size <= n,
                col_start + box_size <= n,
                forall|k: int| 0 <= k < n ==> (#[trigger] g[k]).len() == n,
                forall|r: int, c: int|
                    row_start <= r < row_start + i && col_start <= c < col_start + box_size
                        ==> #[trigger] g[r][c] != num,
                forall|c: int|
                    col_start <= c < col_start + j ==> #[trigger] g[row_start + i][c] != num,
            decreases box_size - j,
        {
            let r_idx = row_start + i;
            let c_idx = col_start + j;
            proof {
                assert(g[r_idx as int] == board@[r_idx as int]@);
            }
            if board[r_idx][c_idx] == num {
                proof {
                    assert(g[r_idx as int][c_idx as int] == num);
                    assert(in_box(
                        g,
                        box_size as int,
                        row_start as int,
                        col_start as int,
                        num as int,
                    ));
                }
                return true;
            }
            j = j + 1;
        }
        i = i + 1;
    }
    false
}

/// Whether `num` may be placed at (row, col) without clashing in its row,
/// column or box.
pub fn is_safe(board: &Vec<Vec<i32>>, size: i32, row: usize, col: usize, num: i32) -> (r: bool)
    requires
        size >= 1,
        square_side(size as int),
        dims_ok(grid(board@), size as int),
        row < size,
        col < size,
    ensures
        r == safe_at(
            grid(board@),
            size as int,
            box_dim(size as int),
            row as int,
            col as int,
            num as int,
        ),
{
    let box_size = int_sqrt(size as usize);
    let ghost bx = box_dim(size as int);
    proof {
        lemma_fundamental_div_mod(row as int, bx);
        lemma_mod_bound(row as int, bx);
        lemma_fundamental_div_mod(col as int, bx);
        lemma_mod_bound(col as int, bx);
        assert(bx * ((row as int) / bx) + bx <= size as int) by (nonlinear_arith)
            requires
                1 <= bx,
                bx * bx == size as int,
                0 <= (row as int) < size as int,
                row as int == bx * ((row as int) / bx) + (row as int) % bx,
                0 <= (row as int) % bx < bx,
        ;
        assert(bx * ((col as int) / bx) + bx <= size as int) by (nonlinear_arith)
            requires
                1 <= bx,
                bx * bx == size as int,
                0 <= (col as int) < size as int,
                col as int == bx * ((col as int) / bx) + (col as int) % bx,
                0 <= (col as int) % bx < bx,
        ;
    }
    let row_start = row - row % box_size;
    let col_start = col - col % box_size;
    proof {
        assert(row_start as int == bx * ((row as int) / bx));
        assert(col_start as int == bx * ((col as int) / bx));
    }
    !used_in_row(board, row, num) && !used_in_col(board, col, num) && !used_in_square(
        board,
        col_start,
        row_start,
        num,
        box_size,
    )
}

/// Placing a safe nonzero value keeps the board consistent.
proof fn lemma_place_keeps_consistent(g: Seq<Seq<i32>>, n: int, bx: int, r: int, c: int, num: i32)
    requires
        dims_ok(g, n),
        in_range(g, n),
        consistent(g, n, bx),
        1 <= bx,
        bx * bx == n,
        0 <= r < n,
        0 <= c < n,
        1 <= num <= n,
        safe_at(g, n, bx, r, c, num as int),
    ensures
        dims_ok(g.update(r, g[r].update(c, num)), n),
        in_range(g.update(r, g[r].update(c, num)), n),
        consistent(g.update(r, g[r].update(c, num)), n, bx),
{
    let g2 = g.update(r, g[r].update(c, num));
    let rs = bx * (r / bx);
    let cs = bx * (c / bx);
    assert forall|cc: int| 0 <= cc < n implies g[r][cc] != num by {
        if g[r][cc] == num {
            assert(in_row(g, n, r, num as int));
        }
    }
    assert forall|rr: int| 0 <= rr < n implies g[rr][c] != num by {
        if g[rr][c] == num {
            assert(in_col(g, n, c, num as int));
        }
    }
    assert forall|rr: int, cc: int|
        rs <= rr < rs + bx && cs <= cc < cs + bx implies g[rr][cc] != num by {
        if g[rr][cc] == num {
            assert(in_box(g, bx, rs, cs, num as int));
        }
    }
    lemma_fundamental_div_mod(r, bx);
    lemma_mod_bound(r, bx);
    lemma_fundamental_div_mod(c, bx);
    lemma_mod_bound(c, bx);
    assert forall|k: int| 0 <= k < n implies (#[trigger] g2[k]).len() == n by {
        assert(g[k].len() == n);
    }
    assert forall|r2: int, c2: int|
        0 <= r2 < g2.len() && 0 <= c2 < g2[r2].len() implies 0 <= #[trigger] g2[r2][c2] <= n by {
        if !(r2 == r && c2 == c) {
            assert(g2[r2][c2] == g[r2][c2]);
        }
    }
    assert forall|r0: int, c1: int, c2: int|
        #![trigger g2[r0][c1], g2[r0][c2]]
        0 <= r0 < n && 0 <= c1 < n && 0 <= c2 < n && c1 != c2 && g2[r0][c1] != 0 implies g2[r0][c1]
        != g2[r0][c2] by {
        if r0 == r && c1 == c {
            assert(g2[r0][c2] == g[r0][c2]);
        } else if r0 == r && c2 == c {
            assert(g2[r0][c1] == g[r0][c1]);
        } else {
            assert(g2[r0][c1] == g[r0][c1] && g2[r0][c2] == g[r0][c2]);
        }
    }
    assert forall|r1: int, r2: int, c0: int|
        #![trigger g2[r1][c0], g2[r2][c0]]
        0 <= r1 < n && 0 <= r2 < n && 0 <= c0 < n && r1 != r2 && g2[r1][c0] != 0 implies g2[r1][c0]
        != g2[r2][c0] by {
        if r1 == r && c0 == c {
            assert(g2[r2][c0] == g[r2][c0]);
        } else if r2 == r && c0 == c {
            assert(g2[r1][c0] == g[r1][c0]);
        } else {
            assert(g2[r1][c0] == g[r1][c0] && g2[r2][c0] == g[r2][c0]);
        }
    }
    assert forall|r1: int, c1: int, r2: int, c2: int|
        #![trigger g2[r1][c1], g2[r2][c2]]
        0 <= r1 < n && 0 <= c1 < n && 0 <= r2 < n && 0 <= c2 < n && r1 / bx == r2 / bx && c1 / bx
        == c2 / bx && (r1 != r2 || c1 != c2) && g2[r1][c1] != 0 implies g2[r1][c1] != g2[r2][c2] by {
        if r1 == r && c1 == c {
            assert(g2[r2][c2] == g[r2][c2]);
            lemma_fundamental_div_mod(r2, bx);
            lemma_mod_bound(r2, bx);
            lemma_fundamental_div_mod(c2, bx);
            lemma_mod_bound(c2, bx);
            assert(rs <= r2 < rs + bx && cs <= c2 < cs + bx);
        } else if r2 == r && c2 == c {
            assert(g2[r1][c1] == g[r1][c1]);
            lemma_fundamental_div_mod(r1, bx);
            lemma_mod_bound(r1, bx);
            lemma_fundamental_div_mod(c1, bx);
            lemma_mod_bound(c1, bx);
            assert(rs <= r1 < rs + bx && cs <= c1 < cs + bx);
        } else {
            assert(g2[r1][c1] == g[r1][c1] && g2[r2][c2] == g[r2][c2]);
        }
    }
}

/// The first empty cell in row-major order, if any.
fn find_zero(board: &Vec<Vec<i32>>, size: usize) -> (found: Option<(usize, usize)>)
    requires
        dims_ok(grid(board@), size as int),
    ensures
        found matches Some(p) ==> p.0 < size && p.1 < size && grid(board@)[p.0 as int][p.1 as int]
            == 0,
        found is None ==> no_zeros(grid(board@), size as int),
{
    let ghost g = grid(board@);
    let mut r: usize = 0;
    while r < size
        invariant
            r <= size,
            g == grid(board@),
            dims_ok(g, size as int),
            forall|rr: int, cc: int| 0 <= rr < r && 0 <= cc < size ==> #[trigger] g[rr][cc] != 0,
        decreases size - r,
    {
        let mut c: usize = 0;
        while c < size
            invariant
                r < size,
                c <= size,
                g == grid(board@),
                dims_ok(g, size as int),
                forall|rr: int, cc: int|
                    0 <= rr < r && 0 <= cc < size ==> #[trigger] g[rr][cc] != 0,
                forall|cc: int| 0 <= cc < c ==> #[trigger] g[r as int][cc] != 0,
            decreases size - c,
        {
            proof {
                assert(g[r as int] == board@[r as int]@);
            }
            if board[r][c] == 0 {
                return Some((r, c));
            }
            c = c + 1;
        }
        r = r + 1;
    }
    None
}

/// Fills every empty cell by randomized backtracking: candidate values are
/// tried in shuffled order, each placement checked by `is_safe`. Returns
/// whether the board was completed; filled cells are never changed, and the
/// board stays consistent whatever the outcome.
pub fn random_puzzle_from_empty(board: &mut Vec<Vec<i32>>, size: usize) -> (filled: bool)
    requires
        1 <= size <= 0x7fff_ffff,
        square_side(size as int),
        dims_ok(grid(old(board)@), size as int),
        in_range(grid(old(board)@), size as int),
        consistent(grid(old(board)@), size as int, box_dim(size as int)),
    ensures
        dims_ok(grid(final(board)@), size as int),
        in_range(grid(final(board)@), size as int),
        consistent(grid(final(board)@), size as int, box_dim(size as int)),
        grid_zeros(grid(final(board)@)) <= grid_zeros(grid(old(board)@)),
        forall|r: int, c: int|
            #![trigger grid(final(board)@)[r][c]]
            0 <= r < size && 0 <= c < size && grid(old(board)@)[r][c] != 0 ==> grid(
                final(board)@,
            )[r][c] == grid(old(board)@)[r][c],
        filled ==> no_zeros(grid(final(board)@), size as int),
    decreases grid_zeros(grid(old(board)@)),
{
    let ghost g0 = grid(board@);
    let ghost n = size as int;
    let ghost bx = box_dim(n);
    let found = find_zero(board, size);
    match found {
        None => true,
        Some((r0, c0)) => {
            let mut candidates: Vec<i32> = Vec::new();
            let mut k: usize = 0;
            while k < size
                invariant
                    k <= size,
                    size <= 0x7fff_ffff,
                    candidates@.len() == k,
                    forall|i: int| 0 <= i < k ==> 1 <= #[trigger] candidates@[i] <= size,
                decreases size - k,
            {
                candidates.push((k as i32) + 1);
                k = k + 1;
            }
            let ghost pre_shuffle = candidates@;
            shuffle_values(&mut candidates);
            proof {
                assert forall|i: int|
                    0 <= i < candidates@.len() implies 1 <= #[trigger] candidates@[i] <= size by {
                    let x = candidates@[i];
                    assert(candidates@.contains(x));
                    assert(candidates@.to_multiset().count(x) > 0);
                    assert(pre_shuffle.to_multiset().count(x) > 0);
                    assert(pre_shuffle.contains(x));
                }
            }
            let mut idx: usize = 0;
            let mut filled = false;
            while idx < candidates.len() && !filled
                invariant
                    idx <= candidates@.len(),
                    1 <= size <= 0x7fff_ffff,
                    n == size as int,
                    bx == box_dim(n),
                    square_side(n),
                    g0 == grid(old(board)@),
                    forall|i: int| 0 <= i < candidates@.len() ==> 1 <= #[trigger] candidates@[i] <= size,
                    dims_ok(g0, n),
                    in_range(g0, n),
                    consistent(g0, n, bx),
                    r0 < size,
                    c0 < size,
                    g0[r0 as int][c0 as int] == 0,
                    dims_ok(grid(board@), n),
                    in_range(grid(board@), n),
                    consistent(grid(board@), n, bx),
                    grid_zeros(grid(board@)) <= grid_zeros(g0),
                    forall|r: int, c: int|
                        #![trigger grid(board@)[r][c]]
                        0 <= r < n && 0 <= c < n && g0[r][c] != 0 ==> grid(board@)[r][c]
                            == g0[r][c],
                    grid(board@)[r0 as int][c0 as int] == 0 ==> grid(board@) == g0,
                    grid(board@)[r0 as int][c0 as int] != 0 ==> grid_zeros(grid(board@))
                        <= grid_zeros(g0) - 1,
                    filled ==> no_zeros(grid(board@), n),
                decreases candidates@.len() - idx,
            {
                let num = candidates[idx];
                if is_safe(board, size as i32, r0, c0, num) {
                    let ghost gpre = grid(board@);
                    proof {
                        assert(gpre[r0 as int] == board@[r0 as int]@);
                    }
                    set_cell(board, r0, c0, num);
                    proof {
                        let g2 = grid(board@);
                        lemma_place_keeps_consistent(gpre, n, bx, r0 as int, c0 as int, num);
                        lemma_row_zeros_update(gpre[r0 as int], c0 as int, num);
                        lemma_grid_zeros_update(gpre, r0 as int, gpre[r0 as int].update(c0 as int, num));
                        if gpre[r0 as int][c0 as int] == 0 {
                            assert(gpre == g0);
                            assert(grid_zeros(g2) == grid_zeros(g0) - 1);
                        } else {
                            assert(grid_zeros(g2) <= grid_zeros(g0) - 1);
                        }
                        lemma_grid_zeros_bounds(g2, n);
                    }
                    if random_puzzle_from_empty(board, size) {
                        filled = true;
                    }
                    proof {
                        assert(grid(board@)[r0 as int][c0 as int] == num);
                    }
                }
                idx = idx + 1;
            }
            filled
        },
    }
}

/// Blanking a cell keeps the board consistent.
proof fn lemma_zero_keeps_consistent(g: Seq<Seq<i32>>, n: int, bx: int, r: int, c: int)
    requires
        dims_ok(g, n),
        in_range(g, n),
        consistent(g, n, bx),
        0 <= r < n,
        0 <= c < n,
    ensures
        dims_ok(g.update(r, g[r].update(c, 0)), n),
        in_range(g.update(r, g[r].update(c, 0)), n),
        consistent(g.update(r, g[r].update(c, 0)), n, bx),
{
    let g2 = g.update(r, g[r].update(c, 0));
    assert forall|k: int| 0 <= k < n implies (#[trigger] g2[k]).len() == n by {
        assert(g[k].len() == n);
    }
    assert forall|r2: int, c2: int|
        0 <= r2 < g2.len() && 0 <= c2 < g2[r2].len() implies 0 <= #[trigger] g2[r2][c2] <= n by {
        if !(r2 == r && c2 == c) {
            assert(g2[r2][c2] == g[r2][c2]);
        }
    }
    assert forall|r0: int, c1: int, c2: int|
        #![trigger g2[r0][c1], g2[r0][c2]]
        0 <= r0 < n && 0 <= c1 < n && 0 <= c2 < n && c1 != c2 && g2[r0][c1] != 0 implies g2[r0][c1]
        != g2[r0][c2] by {
        assert(!(r0 == r && c1 == c));
        assert(g2[r0][c1] == g[r0][c1]);
        if !(r0 == r && c2 == c) {
            assert(g2[r0][c2] == g[r0][c2]);
        }
    }
    assert forall|r1: int, r2: int, c0: int|
        #![trigger g2[r1][c0], g2[r2][c0]]
        0 <= r1 < n && 0 <= r2 < n && 0 <= c0 < n && r1 != r2 && g2[r1][c0] != 0 implies g2[r1][c0]
        != g2[r2][c0] by {
        assert(!(r1 == r && c0 == c));
        assert(g2[r1][c0] == g[r1][c0]);
        if !(r2 == r && c0 == c) {
            assert(g2[r2][c0] == g[r2][c0]);
        }
    }
    assert forall|r1: int, c1: int, r2: int, c2: int|
        #![trigger g2[r1][c1], g2[r2][c2]]
        0 <= r1 < n && 0 <= c1 < n && 0 <= r2 < n && 0 <= c2 < n && r1 / bx == r2 / bx && c1 / bx
        == c2 / bx && (r1 != r2 || c1 != c2) && g2[r1][c1] != 0 implies g2[r1][c1] != g2[r2][c2] by {
        assert(!(r1 == r && c1 == c));
        assert(g2[r1][c1] == g[r1][c1]);
        if !(r2 == r && c2 == c) {
            assert(g2[r2][c2] == g[r2][c2]);
        }
    }
}

fn empty_board(size: usize) -> (board: Vec<Vec<i32>>)
    requires
        1 <= size,
    ensures
        dims_ok(grid(board@), size as int),
        forall|r: int, c: int|
            0 <= r < size && 0 <= c < size ==> #[trigger] grid(board@)[r][c] == 0,
{
    let mut board: Vec<Vec<i32>> = Vec::new();
    let mut r: usize = 0;
    while r < size
        invariant
            r <= size,
            board@.len() == r,
            forall|k: int| 0 <= k < r ==> (#[trigger] grid(board@)[k]).len() == size,
            forall|k: int, c: int|
                0 <= k < r && 0 <= c < size ==> #[trigger] grid(board@)[k][c] == 0,
        decreases size - r,
    {
        let mut row: Vec<i32> = Vec::new();
        let mut c: usize = 0;
        while c < size
            invariant
                c <= size,
                row@.len() == c,
                forall|j: int| 0 <= j < c ==> #[trigger] row@[j] == 0,
            decreases size - c,
        {
            row.push(0);
            c = c + 1;
        }
        let ghost prev = grid(board@);
        board.push(row);
        proof {
            assert forall|k: int| 0 <= k < r + 1 implies (#[trigger] grid(board@)[k]).len()
                == size by {
                if k < r {
                    assert(grid(board@)[k] == prev[k]);
                } else {
                    assert(grid(board@)[k] == row@);
                }
            }
            assert forall|k: int, c: int|
                0 <= k < r + 1 && 0 <= c < size implies #[trigger] grid(board@)[k][c] == 0 by {
                if k < r {
                    assert(grid(board@)[k] == prev[k]);
                } else {
                    assert(grid(board@)[k] == row@);
                }
            }
        }
        r = r + 1;
    }
    board
}

/// A sudoku: the current board and the parameters it was generated with.
pub struct SudokuBoard {
    pub board: Vec<Vec<i32>>,
    pub params: SudokuParams,
}

impl SudokuBoard {
    /// The board has its declared square side, all values in `0..=size`, and
    /// no nonzero value repeated in a row, column or box.
    pub open spec fn wf(self) -> bool {
        &&& 1 <= self.params.size
        &&& square_side(self.params.size as int)
        &&& dims_ok(grid(self.board@), self.params.size as int)
        &&& in_range(grid(self.board@), self.params.size as int)
        &&& consistent(
            grid(self.board@),
            self.params.size as int,
            box_dim(self.params.size as int),
        )
    }

    /// Generates a puzzle: a full consistent grid is built by randomized
    /// backtracking, then the difficulty's number of cells is blanked.
    /// Returns `None` only when no attempt at a full grid succeeds.
    pub fn new(params: SudokuParams) -> (result: Option<SudokuBoard>)
        requires
            1 <= params.size,
            square_side(params.size as int),
            removal_count_spec(params.difficulty) <= params.size * params.size,
        ensures
            result matches Some(s) ==> s.params == params && s.wf() && grid_zeros(grid(s.board@))
                == removal_count_spec(params.difficulty),
    {
        let size = params.size as usize;
        let mut attempt: usize = 0;
        while attempt < 32
            invariant
                1 <= params.size,
                square_side(params.size as int),
                removal_count_spec(params.difficulty) <= params.size * params.size,
                size == params.size as usize,
            decreases 32 - attempt,
        {
            let mut board = empty_board(size);
            if random_puzzle_from_empty(&mut board, size) {
                proof {
                    assert forall|r: int, c: int|
                        0 <= r < board@.len() && 0 <= c < grid(board@)[r].len()
                            implies #[trigger] grid(board@)[r][c] != 0 by {
                        assert(no_zeros(grid(board@), size as int));
                    }
                    lemma_grid_zeros_none(grid(board@));
                }
                let mut sudoku = SudokuBoard { board, params };
                sudoku.puzzilify();
                return Some(sudoku);
            }
            attempt = attempt + 1;
        }
        None
    }

    /// A board with the same parameters but another grid.
    pub fn clone_params(&self, new_board: Vec<Vec<i32>>) -> (s: SudokuBoard)
        ensures
            s.board == new_board,
            s.params == self.params,
    {
        SudokuBoard { board: new_board, params: self.params }
    }

    /// Whether a cell is blank, so a solver may fill it.
    pub fn removable(&self, i: usize, j: usize) -> (r: bool)
        requires
            i < self.board@.len(),
            j < self.board@[i as int]@.len(),
        ensures
            r == (grid(self.board@)[i as int][j as int] == 0),
    {
        if self.board[i][j] == 0 {
            return true;
        }
        false
    }

    /// Blanks the difficulty's number of cells, each picked uniformly among
    /// the cells still filled.
    pub fn puzzilify(&mut self)
        requires
            old(self).wf(),
            removal_count_spec(old(self).params.difficulty) <= old(self).params.size * old(
                self,
            ).params.size - grid_zeros(grid(old(self).board@)),
        ensures
            final(self).params == old(self).params,
            final(self).wf(),
            forall|r: int, c: int|
                #![trigger grid(final(self).board@)[r][c]]
                0 <= r < old(self).params.size && 0 <= c < old(self).params.size ==> grid(
                    final(self).board@,
                )[r][c] == grid(old(self).board@)[r][c] || grid(final(self).board@)[r][c] == 0,
            grid_zeros(grid(final(self).board@)) == grid_zeros(grid(old(self).board@))
                + removal_count_spec(old(self).params.difficulty),
    {
        let size = self.params.size as usize;
        let ghost n = size as int;
        let ghost bx = box_dim(n);
        let ghost g0 = grid(self.board@);
        let mut positions: Vec<(usize, usize)> = Vec::new();
        let mut r: usize = 0;
        while r < size
            invariant
                r <= size,
                n == size as int,
                1 <= size,
                *self == *old(self),
                g0 == grid(self.board@),
                dims_ok(g0, n),
                positions@.len() == r * n - grid_zeros(g0.take(r as int)),
                forall|k: int|
                    0 <= k < positions@.len() ==> (#[trigger] positions@[k]).0 < r
                        && positions@[k].1 < size && g0[positions@[k].0 as int][positions@[k].1 as int]
                        != 0,
                forall|k1: int, k2: int|
                    0 <= k1 < k2 < positions@.len() ==> positions@[k1] != positions@[k2],
            decreases size - r,
        {
            proof {
                lemma_grid_zeros_bounds(g0.take(r as int), n);
                assert(g0.take(r as int).len() == r);
            }
            let mut c: usize = 0;
            while c < size
                invariant
                    r < size,
                    c <= size,
                    n == size as int,
                    1 <= size,
                    *self == *old(self),
                    g0 == grid(self.board@),
                    dims_ok(g0, n),
                    positions@.len() == r * n + c - (grid_zeros(g0.take(r as int)) + row_zeros(
                        g0[r as int].take(c as int),
                    )),
                    forall|k: int|
                        0 <= k < positions@.len() ==> ((#[trigger] positions@[k]).0 < r || (
                        positions@[k].0 == r && positions@[k].1 < c)) && positions@[k].0 < size
                            && positions@[k].1 < size
                            && g0[positions@[k].0 as int][positions@[k].1 as int] != 0,
                    forall|k1: int, k2: int|
                        0 <= k1 < k2 < positions@.len() ==> positions@[k1] != positions@[k2],
                decreases size - c,
            {
                proof {
                    lemma_grid_zeros_bounds(g0.take(r as int), n);
                    lemma_row_zeros_bounds(g0[r as int].take(c as int));
                    lemma_row_zeros_step(g0[r as int], c as int);
                }
                let v = get_cell(&self.board, r, c);
                if v != 0 {
                    positions.push((r, c));
                }
                c = c + 1;
            }
            proof {
                lemma_grid_zeros_step(g0, r as int);
                assert(g0[r as int].take(size as int) =~= g0[r as int]);
                assert((r + 1) * n == r * n + n) by (nonlinear_arith);
            }
            r = r + 1;
        }
        proof {
            assert(g0.take(size as int) =~= g0);
            assert(size as int * n == n * n) by (nonlinear_arith)
                requires
                    n == size as int,
            ;
        }
        let removal = self.params.difficulty.removal_count();
        let ghost z0 = grid_zeros(g0);
        let mut k: usize = 0;
        while k < removal
            invariant
                k <= removal,
                n == old(self).params.size as int,
                1 <= size,
                n == size as int,
                bx == box_dim(n),
                self.params == old(self).params,
                g0 == grid(old(self).board@),
                z0 == grid_zeros(g0),
                square_side(n),
                removal == removal_count_spec(old(self).params.difficulty),
                removal <= n * n - z0,
                dims_ok(grid(self.board@), n),
                in_range(grid(self.board@), n),
                consistent(grid(self.board@), n, bx),
                grid_zeros(grid(self.board@)) == z0 + k,
                positions@.len() == n * n - z0 - k,
                forall|j: int|
                    0 <= j < positions@.len() ==> (#[trigger] positions@[j]).0 < size
                        && positions@[j].1 < size && grid(
                        self.board@,
                    )[positions@[j].0 as int][positions@[j].1 as int] != 0,
                forall|k1: int, k2: int|
                    0 <= k1 < k2 < positions@.len() ==> positions@[k1] != positions@[k2],
                forall|r2: int, c2: int|
                    #![trigger grid(self.board@)[r2][c2]]
                    0 <= r2 < n && 0 <= c2 < n ==> grid(self.board@)[r2][c2] == g0[r2][c2] || grid(
                        self.board@,
                    )[r2][c2] == 0,
            decreases removal - k,
        {
            let idx = random_below(positions.len());
            let (pr, pc) = positions[idx];
            let ghost gpre = grid(self.board@);
            let ghost ppre = positions@;
            set_cell(&mut self.board, pr, pc, 0);
            proof {
                lemma_row_zeros_update(gpre[pr as int], pc as int, 0);
                lemma_grid_zeros_update(gpre, pr as int, gpre[pr as int].update(pc as int, 0));
                lemma_zero_keeps_consistent(gpre, n, bx, pr as int, pc as int);
            }
            positions.swap_remove(idx);
            proof {
                assert forall|j: int|
                    0 <= j < positions@.len() implies (#[trigger] positions@[j]).0 < size
                        && positions@[j].1 < size && grid(
                        self.board@,
                    )[positions@[j].0 as int][positions@[j].1 as int] != 0 by {
                    let orig_j: int = if j == idx { ppre.len() - 1 } else { j };
                    assert(positions@[j] == ppre[orig_j]);
                    assert(ppre[orig_j] != (pr, pc));
                    assert(grid(self.board@)[positions@[j].0 as int][positions@[j].1 as int]
                        == gpre[positions@[j].0 as int][positions@[j].1 as int]);
                }
                assert forall|k1: int, k2: int|
                    0 <= k1 < k2 < positions@.len() implies positions@[k1] != positions@[k2] by {
                    let o1: int = if k1 == idx { ppre.len() - 1 } else { k1 };
                    let o2: int = if k2 == idx { ppre.len() - 1 } else { k2 };
                    assert(positions@[k1] == ppre[o1] && positions@[k2] == ppre[o2]);
                }
            }
            k = k + 1;
        }
    }
}

/// Maps a printed grid coordinate (with separator lines) back to the board
/// coordinate it shows.
pub fn find_actual_spot(actual_spot: &mut usize, block: &usize, index: &usize)
    requires
        *block >= 1,
        *index >= 1,
        2 * (*block as int) + 1 <= usize::MAX,
    ensures
        *final(actual_spot) == if *index < *block + 1 {
            *index - 1
        } else if *index < 2 * *block + 1 {
            *index - 2
        } else {
            *index - 3
        },
{
    if *index < *block + 1 {
        *actual_spot = *index - 1;
    } else if *index < 2 * *block + 1 {
        *actual_spot = *index - 2;
    } else {
        *actual_spot = *index - 3;
    }
}

} // verus!
