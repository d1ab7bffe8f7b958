//! Solver helpers: a randomized block-wise first solution for simulated
//! annealing, and the duplicate-count score of a candidate grid.

use vstd::prelude::*;
use vstd::arithmetic::div_mod::lemma_fundamental_div_mod;
use vstd::arithmetic::div_mod::lemma_fundamental_div_mod_converse;
use vstd::arithmetic::div_mod::lemma_mod_bound;
use vstd::set_lib::lemma_int_range;
use vstd::set_lib::lemma_len_subset;
use vstd::set_lib::set_int_range;
use crate::rng::random_below;
use crate::sudoku::SudokuBoard;
use crate::sudoku::box_dim;
use crate::sudoku::boxes_ok;
use crate::sudoku::dims_ok;
use crate::sudoku::get_cell;
use crate::sudoku::grid;
use crate::sudoku::in_box;
use crate::sudoku::in_range;
use crate::sudoku::int_sqrt;
use crate::sudoku::set_cell;
use crate::sudoku::square_side;

verus! {

broadcast use vstd::seq_lib::seq_to_set_is_finite;

fn contains_val(v: &Vec<i32>, x: i32) -> (r: bool)
    ensures
        r == v@.contains(x),
{
    let mut i: usize = 0;
    while i < v.len()
        invariant
            i <= v@.len(),
            forall|k: int| 0 <= k < i ==> v@[k] != x,
        decreases v@.len() - i,
    {
        if v[i] == x {
            return true;
        }
        i = i + 1;
    }
    false
}

/// The numbers of `0..=size` that a block does not hold yet, ascending.
pub fn get_missing_numbers(block: &Vec<i32>, size: i32) -> (missing: Vec<i32>)
    requires
        0 <= size < i32::MAX,
    ensures
        forall|i: int|
            0 <= i < missing@.len() ==> 0 <= #[trigger] missing@[i] <= size && !block@.contains(
                missing@[i],
            ),
        forall|x: i32| 0 <= x <= size && !block@.contains(x) ==> missing@.contains(x),
        forall|i: int, j: int| 0 <= i < j < missing@.len() ==> missing@[i] < missing@[j],
{
    let mut missing: Vec<i32> = Vec::new();
    let mut x: i32 = 0;
    while x <= size
        invariant
            size < i32::MAX,
            0 <= x <= size + 1,
            forall|i: int|
                0 <= i < missing@.len() ==> 0 <= #[trigger] missing@[i] < x && !block@.contains(
                    missing@[i],
                ),
            forall|y: i32| 0 <= y < x && !block@.contains(y) ==> missing@.contains(y),
            forall|i: int, j: int| 0 <= i < j < missing@.len() ==> missing@[i] < missing@[j],
        decreases size + 1 - x,
    {
        if !contains_val(block, x) {
            let ghost before = missing@;
            missing.push(x);
            proof {
                assert forall|y: i32|
                    0 <= y < x + 1 && !block@.contains(y) implies missing@.contains(y) by {
                    if y < x {
                        let k = choose|k: int| 0 <= k < before.len() && before[k] == y;
                        assert(missing@[k] == y);
                    } else {
                        assert(missing@[missing@.len() - 1] == y);
                    }
                }
            }
        }
        x = x + 1;
    }
    missing
}

/// The values held by the block of side `block_size` whose top-left cell is
/// (row_start, col_start), as a list of `block_size * block_size` entries.
fn block_values(board: &Vec<Vec<i32>>, col_start: usize, row_start: usize, block_size: usize) -> (vals: Vec<i32>)
    requires
        row_start + block_size <= board@.len(),
        col_start + block_size <= board@.len(),
        forall|k: int|
            0 <= k < board@.len() ==> (#[trigger] grid(board@)[k]).len() == board@.len(),
    ensures
        vals@.len() == block_size * block_size,
        forall|x: i32|
            vals@.contains(x) <==> in_box(
                grid(board@),
                block_size as int,
                row_start as int,
                col_start as int,
                x as int,
            ),
{
    let ghost g = grid(board@);
    let n = board.len();
    let mut vals: Vec<i32> = Vec::new();
    let mut i: usize = 0;
    while i < block_size
        invariant
            i <= block_size,
            g == grid(board@),
            n == board@.len(),
            row_start + block_size <= n,
            col_start + block_size <= n,
            forall|k: int| 0 <= k < board@.len() ==> (#[trigger] g[k]).len() == board@.len(),
            vals@.len() == i * block_size,
            forall|x: i32|
                vals@.contains(x) ==> in_box(
                    g,
                    block_size as int,
                    row_start as int,
                    col_start as int,
                    x as int,
                ),
            forall|r: int, c: int|
                row_start <= r < row_start + i && col_start <= c < col_start + block_size
                    ==> vals@.contains(#[trigger] g[r][c]),
        decreases block_size - i,
    {
        let mut j: usize = 0;
        while j < block_size
            invariant
                i < block_size,
                j <= block_size,
                g == grid(board@),
                n == board@.len(),
                row_start + block_size <= n,
                col_start + block_size <= n,
                forall|k: int| 0 <= k < board@.len() ==> (#[trigger] g[k]).len() == board@.len(),
                vals@.len() == i * block_size + j,
                forall|x: i32|
                    vals@.contains(x) ==> in_box(
                        g,
                        block_size as int,
                        row_start as int,
                        col_start as int,
                        x as int,
                    ),
                forall|r: int, c: int|
                    row_start <= r < row_start + i && col_start <= c < col_start + block_size
                        ==> vals@.contains(#[trigger] g[r][c]),
                forall|c: int|
                    col_start <= c < col_start + j ==> vals@.contains(
                        #[trigger] g[row_start + i][c],
                    ),
            decreases block_size - j,
        {
            let ghost before = vals@;
            let r_idx = row_start + i;
            let c_idx = col_start + j;
            proof {
                assert(g[r_idx as int] == board@[r_idx as int]@);
            }
            let v = get_cell(board, r_idx, c_idx);
            vals.push(v);
            proof {
                assert(vals@[vals@.len() - 1] == v);
                assert forall|x: i32| vals@.contains(x) implies in_box(
                    g,
                    block_size as int,
                    row_start as int,
                    col_start as int,
                    x as int,
                ) by {
                    let k = choose|k: int| 0 <= k < vals@.len() && vals@[k] == x;
                    if k < before.len() {
                        assert(before[k] == x);
                        assert(before.contains(x));
                    } else {
                        assert(x == v);
                        assert(g[row_start + i][col_start + j] == x);
                    }
                }
                assert forall|r: int, c: int|
                    row_start <= r < row_start + i && col_start <= c < col_start + block_size
                        implies vals@.contains(#[trigger] g[r][c]) by {
                    assert(before.contains(g[r][c]));
                    let k = choose|k: int| 0 <= k < before.len() && before[k] == g[r][c];
                    assert(vals@[k] == g[r][c]);
                }
                assert forall|c: int|
                    col_start <= c < col_start + (j + 1) implies vals@.contains(
                        #[trigger] g[row_start + i][c],
                    ) by {
                    if c < col_start + j {
                        assert(before.contains(g[row_start + i][c]));
                        let k = choose|k: int|
                            0 <= k < before.len() && before[k] == g[row_start + i][c];
                        assert(vals@[k] == g[row_start + i][c]);
                    } else {
                        assert(vals@[vals@.len() - 1] == g[row_start + i][c]);
                    }
                }
            }
            j = j + 1;
        }
        proof {
            assert((i + 1) * block_size == i * block_size + block_size) by (nonlinear_arith);
        }
        i = i + 1;
    }
    proof {
        assert forall|x: i32|
            in_box(
                g,
                block_size as int,
                row_start as int,
                col_start as int,
                x as int,
            ) implies vals@.contains(x) by {
            let (r, c): (int, int) = choose|r: int, c: int|
                row_start <= r < row_start + block_size && col_start <= c < col_start + block_size
                    && g[r][c] == x as int;
            assert(vals@.contains(g[r][c]));
        }
    }
    vals
}

/// The numbers a block does not hold yet. When the block still has a blank
/// cell and the block side squares to `size`, at least one number is missing.
pub fn missing_in_block(
    board: &Vec<Vec<i32>>,
    size: i32,
    col_start: usize,
    row_start: usize,
    block_size: usize,
) -> (missing: Vec<i32>)
    requires
        0 <= size < i32::MAX,
        row_start + block_size <= board@.len(),
        col_start + block_size <= board@.len(),
        forall|k: int|
            0 <= k < board@.len() ==> (#[trigger] grid(board@)[k]).len() == board@.len(),
    ensures
        forall|i: int|
            0 <= i < missing@.len() ==> 0 <= #[trigger] missing@[i] <= size && !in_box(
                grid(board@),
                block_size as int,
                row_start as int,
                col_start as int,
                missing@[i] as int,
            ),
        forall|x: i32|
            0 <= x <= size && !in_box(
                grid(board@),
                block_size as int,
                row_start as int,
                col_start as int,
                x as int,
            ) ==> missing@.contains(x),
        forall|i: int, j: int| 0 <= i < j < missing@.len() ==> missing@[i] < missing@[j],
        (in_box(grid(board@), block_size as int, row_start as int, col_start as int, 0)
            && block_size * block_size == size) ==> missing@.len() >= 1,
{
    let vals = block_values(board, col_start, row_start, block_size);
    let missing = get_missing_numbers(&vals, size);
    proof {
        let g = grid(board@);
        if in_box(g, block_size as int, row_start as int, col_start as int, 0) && block_size
            * block_size == size {
            if missing@.len() == 0 {
                let vi = vals@.map_values(|v: i32| v as int);
                assert forall|e: int| set_int_range(0, size + 1).contains(e) implies vi.to_set().contains(
                    e,
                ) by {
                    let x = e as i32;
                    assert(0 <= x <= size);
                    assert(!missing@.contains(x));
                    assert(vals@.contains(x));
                    let k = choose|k: int| 0 <= k < vals@.len() && vals@[k] == x;
                    assert(vi[k] == e);
                    assert(vi.contains(e));
                }
                lemma_int_range(0, size + 1);
                lemma_len_subset(set_int_range(0, size + 1), vi.to_set());
                vi.lemma_cardinality_of_set();
                assert(vi.len() == size);
                assert(false);
            }
        }
    }
    missing
}

/// The numbers of `0..=size` that a block of the puzzle does not hold.
pub fn get_block_numbers(
    problem: &SudokuBoard,
    col_start: usize,
    row_start: usize,
    block_size: usize,
) -> (missing: Vec<i32>)
    requires
        0 <= problem.params.size < i32::MAX,
        row_start + block_size <= problem.board@.len(),
        col_start + block_size <= problem.board@.len(),
        forall|k: int|
            0 <= k < problem.board@.len() ==> (#[trigger] grid(problem.board@)[k]).len()
                == problem.board@.len(),
    ensures
        forall|i: int|
            0 <= i < missing@.len() ==> 0 <= #[trigger] missing@[i] <= problem.params.size
                && !in_box(
                grid(problem.board@),
                block_size as int,
                row_start as int,
                col_start as int,
                missing@[i] as int,
            ),
        forall|x: i32|
            0 <= x <= problem.params.size && !in_box(
                grid(problem.board@),
                block_size as int,
                row_start as int,
                col_start as int,
                x as int,
            ) ==> missing@.contains(x),
        forall|i: int, j: int| 0 <= i < j < missing@.len() ==> missing@[i] < missing@[j],
{
    missing_in_block(&problem.board, problem.params.size, col_start, row_start, block_size)
}

/// How many distinct values a row holds.
pub fn unique(row: &Vec<i32>) -> (count: usize)
    ensures
        count == row@.to_set().len(),
{
    let mut count: usize = 0;
    let mut i: usize = 0;
    proof {
        assert(row@.take(0).to_set() =~= Set::<i32>::empty());
    }
    while i < row.len()
        invariant
            i <= row@.len(),
            count == row@.take(i as int).to_set().len(),
            count <= i,
        decreases row@.len() - i,
    {
        let x = row[i];
        let mut seen = false;
        let mut j: usize = 0;
        while j < i
            invariant
                j <= i,
                i < row@.len(),
                x == row@[i as int],
                seen == row@.take(i as int).take(j as int).contains(x),
            decreases i - j,
        {
            let ghost p = row@.take(i as int);
            let ghost q = p.take(j + 1);
            let ghost q0 = p.take(j as int);
            proof {
                assert(q =~= q0.push(p[j as int]));
                assert forall|y: i32| q.contains(y) <==> (q0.contains(y) || y == p[j as int]) by {
                    if q.contains(y) {
                        let k = choose|k: int| 0 <= k < q.len() && #[trigger] q[k] == y;
                        if k < j {
                            assert(q0[k] == y);
                        }
                    }
                    if q0.contains(y) {
                        let k = choose|k: int| 0 <= k < q0.len() && #[trigger] q0[k] == y;
                        assert(q[k] == y);
                    }
                    if y == p[j as int] {
                        assert(q[j as int] == y);
                    }
                }
            }
            if row[j] == x {
                seen = true;
            }
            j = j + 1;
        }
        proof {
            let p = row@.take(i as int);
            assert(p.take(i as int) =~= p);
            assert(seen == p.contains(x));
            assert(row@.take(i + 1) =~= p.push(x));
            assert(p.push(x).to_set() =~= p.to_set().insert(x)) by {
                assert forall|y: i32| p.push(x).contains(y) <==> (p.contains(y) || y == x) by {
                    if p.push(x).contains(y) {
                        let k = choose|k: int| 0 <= k < p.push(x).len() && p.push(x)[k] == y;
                        if k < p.len() {
                            assert(p[k] == y);
                        }
                    }
                    if p.contains(y) {
                        let k = choose|k: int| 0 <= k < p.len() && p[k] == y;
                        assert(p.push(x)[k] == y);
                    }
                    if y == x {
                        assert(p.push(x)[p.len() as int] == y);
                    }
                }
            }
        }
        if !seen {
            count = count + 1;
        }
        i = i + 1;
    }
    proof {
        assert(row@.take(row@.len() as int) =~= row@);
    }
    count
}

/// One column of the board as a sequence.
pub open spec fn col_seq(g: Seq<Seq<i32>>, n: int, j: int) -> Seq<i32> {
    Seq::new(n as nat, |r: int| g[r][j])
}

/// The annealing score: for each of the first 9 rows and columns, how many
/// of the 9 values are missing (a solved 9-by-9 grid scores 0).
pub open spec fn score_upto(g: Seq<Seq<i32>>, n: int, i: int) -> int
    decreases i,
{
    if i <= 0 {
        0
    } else {
        score_upto(g, n, i - 1) + (9 - g[i - 1].to_set().len()) + (9 - col_seq(
            g,
            n,
            i - 1,
        ).to_set().len())
    }
}

pub open spec fn score_spec(g: Seq<Seq<i32>>, n: int) -> int {
    score_upto(g, n, n)
}

/// Scores a grid: the total count of values missing from its rows and
/// columns.
pub fn get_score(problem: &SudokuBoard) -> (score: i32)
    requires
        1 <= problem.params.size <= 9,
        dims_ok(grid(problem.board@), problem.params.size as int),
    ensures
        score == score_spec(grid(problem.board@), problem.params.size as int),
{
    let ghost g = grid(problem.board@);
    let ghost n = problem.params.size as int;
    let size = problem.params.size as usize;
    let mut score: i32 = 0;
    let mut i: usize = 0;
    while i < size
        invariant
            i <= size,
            size == n,
            1 <= n <= 9,
            g == grid(problem.board@),
            dims_ok(g, n),
            score == score_upto(g, n, i as int),
            0 <= score <= 18 * i,
        decreases size - i,
    {
        proof {
            assert(g[i as int] == problem.board@[i as int]@);
        }
        let row_unique = unique(&problem.board[i]);
        proof {
            g[i as int].lemma_cardinality_of_set();
        }
        let mut col: Vec<i32> = Vec::new();
        let mut r: usize = 0;
        while r < size
            invariant
                r <= size,
                size == n,
                g == grid(problem.board@),
                dims_ok(g, n),
                i < size,
                col@.len() == r,
                forall|k: int| 0 <= k < r ==> #[trigger] col@[k] == g[k][i as int],
            decreases size - r,
        {
            proof {
                assert(g[r as int] == problem.board@[r as int]@);
            }
            col.push(get_cell(&problem.board, r, i));
            r = r + 1;
        }
        proof {
            assert(col@ =~= col_seq(g, n, i as int));
        }
        let col_unique = unique(&col);
        proof {
            col_seq(g, n, i as int).lemma_cardinality_of_set();
        }
        score = score + (9 - row_unique as i32) + (9 - col_unique as i32);
        i = i + 1;
    }
    score
}

/// Placing a value its box is missing keeps every box duplicate-free.
proof fn lemma_place_keeps_boxes(g: Seq<Seq<i32>>, n: int, bx: int, r: int, c: int, num: i32)
    requires
        dims_ok(g, n),
        in_range(g, n),
        boxes_ok(g, n, bx),
        1 <= bx,
        bx * bx == n,
        0 <= r < n,
        0 <= c < n,
        num != 0,
        0 <= num <= n,
        !in_box(g, bx, bx * (r / bx), bx * (c / bx), num as int),
    ensures
        dims_ok(g.update(r, g[r].update(c, num)), n),
        in_range(g.update(r, g[r].update(c, num)), n),
        boxes_ok(g.update(r, g[r].update(c, num)), n, bx),
{
    let g2 = g.update(r, g[r].update(c, num));
    let rs = bx * (r / bx);
    let cs = bx * (c / bx);
    assert forall|rr: int, cc: int|
        rs <= rr < rs + bx && cs <= cc < cs + bx implies g[rr][cc] != num by {
        if g[rr][cc] == num {
            assert(in_box(g, bx, rs, cs, num as int));
        }
    }
    lemma_fundamental_div_mod(r, bx);
    lemma_mod_bound(r, bx);
    lemma_fundamental_div_mod(c, bx);
    lemma_mod_bound(c, bx);
    assert forall|k: int| 0 <= k < n implies (#[trigger] g2[k]).len() == n by {
        assert(g[k].len() == n);
    }
    assert forall|r2: int, c2: int|
        0 <= r2 < g2.len() && 0 <= c2 < g2[r2].len() implies 0 <= #[trigger] g2[r2][c2] <= n by {
        if !(r2 == r && c2 == c) {
            assert(g2[r2][c2] == g[r2][c2]);
        }
    }
    assert forall|r1: int, c1: int, r2: int, c2: int|
        #![trigger g2[r1][c1], g2[r2][c2]]
        0 <= r1 < n && 0 <= c1 < n && 0 <= r2 < n && 0 <= c2 < n && r1 / bx == r2 / bx && c1 / bx
        == c2 / bx && (r1 != r2 || c1 != c2) && g2[r1][c1] != 0 implies g2[r1][c1] != g2[r2][c2] by {
        if r1 == r && c1 == c {
            assert(g2[r2][c2] == g[r2][c2]);
            lemma_fundamental_div_mod(r2, bx);
            lemma_mod_bound(r2, bx);
            lemma_fundamental_div_mod(c2, bx);
            lemma_mod_bound(c2, bx);
            assert(rs <= r2 < rs + bx && cs <= c2 < cs + bx);
        } else if r2 == r && c2 == c {
            assert(g2[r1][c1] == g[r1][c1]);
            lemma_fundamental_div_mod(r1, bx);
            lemma_mod_bound(r1, bx);
            lemma_fundamental_div_mod(c1, bx);
            lemma_mod_bound(c1, bx);
            assert(rs <= r1 < rs + bx && cs <= c1 < cs + bx);
        } else {
            assert(g2[r1][c1] == g[r1][c1] && g2[r2][c2] == g[r2][c2]);
        }
    }
}

/// A first full candidate grid for the annealing solver: the puzzle's given
/// cells are kept, and every blank cell is filled with a number its block is
/// still missing, picked at random. Every block of the result is a set of
/// distinct values in `1..=size`; rows and columns may still clash.
pub fn init_solution(problem: &SudokuBoard) -> (solution: Vec<Vec<i32>>)
    requires
        problem.wf(),
        problem.params.size < i32::MAX,
    ensures
        dims_ok(grid(solution@), problem.params.size as int),
        forall|r: int, c: int|
            #![trigger grid(solution@)[r][c]]
            0 <= r < problem.params.size && 0 <= c < problem.params.size && grid(
                problem.board@,
            )[r][c] != 0 ==> grid(solution@)[r][c] == grid(problem.board@)[r][c],
        forall|r: int, c: int|
            #![trigger grid(solution@)[r][c]]
            0 <= r < problem.params.size && 0 <= c < problem.params.size ==> 1 <= grid(
                solution@,
            )[r][c] <= problem.params.size,
        boxes_ok(
            grid(solution@),
            problem.params.size as int,
            box_dim(problem.params.size as int),
        ),
{
    let ghost g = grid(problem.board@);
    let ghost n = problem.params.size as int;
    let size = problem.params.size as usize;
    let bs = int_sqrt(size);
    let ghost bx = box_dim(n);
    proof {
        assert(size as int == n);
        assert(bs as int == bx);
    }
    // Copy the puzzle.
    let mut solution: Vec<Vec<i32>> = Vec::new();
    let mut r: usize = 0;
    while r < size
        invariant
            r <= size,
            n == size as int,
            g == grid(problem.board@),
            dims_ok(g, n),
            solution@.len() == r,
            forall|k: int| 0 <= k < r ==> #[trigger] grid(solution@)[k] == g[k],
        decreases size - r,
    {
        let mut row: Vec<i32> = Vec::new();
        let mut c: usize = 0;
        while c < size
            invariant
                r < size,
                c <= size,
                n == size as int,
                g == grid(problem.board@),
                dims_ok(g, n),
                row@.len() == c,
                forall|k: int| 0 <= k < c ==> #[trigger] row@[k] == g[r as int][k],
            decreases size - c,
        {
            proof {
                assert(g[r as int] == problem.board@[r as int]@);
            }
            row.push(get_cell(&problem.board, r, c));
            c = c + 1;
        }
        let ghost prev = grid(solution@);
        solution.push(row);
        proof {
            assert forall|k: int| 0 <= k < r + 1 implies #[trigger] grid(solution@)[k] == g[k] by {
                if k < r {
                    assert(grid(solution@)[k] == prev[k]);
                } else {
                    assert(grid(solution@)[k] == row@);
                    assert(row@ =~= g[k]);
                }
            }
        }
        r = r + 1;
    }
    proof {
        assert(grid(solution@) =~= g);
    }
    // Fill each block's blanks with its missing numbers.
    let mut br: usize = 0;
    while br < bs
        invariant
            br <= bs,
            n == size as int,
            1 <= size,
            size < 0x7fff_ffff_usize,
            bs as int == bx,
            1 <= bx,
            bx * bx == n,
            bx == box_dim(n),
            g == grid(problem.board@),
            dims_ok(g, n),
            dims_ok(grid(solution@), n),
            in_range(grid(solution@), n),
            boxes_ok(grid(solution@), n, bx),
            forall|r2: int, c2: int|
                #![trigger grid(solution@)[r2][c2]]
                0 <= r2 < n && 0 <= c2 < n ==> grid(solution@)[r2][c2] == g[r2][c2] || (g[r2][c2]
                    == 0 && grid(solution@)[r2][c2] != 0),
            forall|r2: int, c2: int|
                #![trigger grid(solution@)[r2][c2]]
                0 <= r2 < br * bx && 0 <= c2 < n ==> grid(solution@)[r2][c2] != 0,
        decreases bs - br,
    {
        let mut bc: usize = 0;
        while bc < bs
            invariant
                br < bs,
                bc <= bs,
                n == size as int,
                1 <= size,
                size < 0x7fff_ffff_usize,
                bs as int == bx,
                1 <= bx,
                bx * bx == n,
                bx == box_dim(n),
                g == grid(problem.board@),
                dims_ok(g, n),
                dims_ok(grid(solution@), n),
                in_range(grid(solution@), n),
                boxes_ok(grid(solution@), n, bx),
                forall|r2: int, c2: int|
                    #![trigger grid(solution@)[r2][c2]]
                    0 <= r2 < n && 0 <= c2 < n ==> grid(solution@)[r2][c2] == g[r2][c2] || (
                    g[r2][c2] == 0 && grid(solution@)[r2][c2] != 0),
                forall|r2: int, c2: int|
                    #![trigger grid(solution@)[r2][c2]]
                    0 <= r2 < br * bx && 0 <= c2 < n ==> grid(solution@)[r2][c2] != 0,
                forall|r2: int, c2: int|
                    #![trigger grid(solution@)[r2][c2]]
                    br * bx <= r2 < br * bx + bx && 0 <= c2 < bc * bx ==> grid(solution@)[r2][c2]
                        != 0,
            decreases bs - bc,
        {
            proof {
                assert(br * bs <= size && bc * bs <= size) by (nonlinear_arith)
                    requires
                        br < bs,
                        bc < bs,
                        bs as int == bx,
                        bx * bx == n,
                        n == size as int,
                ;
            }
            let rs = br * bs;
            let cs = bc * bs;
            proof {
                assert(rs as int == br * bx && cs as int == bc * bx && rs + bs <= size && cs + bs
                    <= size) by (nonlinear_arith)
                    requires
                        rs == br * bs,
                        cs == bc * bs,
                        br < bs,
                        bc < bs,
                        bs as int == bx,
                        bx * bx == n,
                        n == size as int,
                ;
            }
            let mut i: usize = 0;
            while i < bs
                invariant
                    br < bs,
                    bc < bs,
                    i <= bs,
                    rs as int == br * bx,
                    cs as int == bc * bx,
                    rs + bs <= size,
                    cs + bs <= size,
                    n == size as int,
                    1 <= size,
                    size < 0x7fff_ffff_usize,
                    bs as int == bx,
                    1 <= bx,
                    bx * bx == n,
                    bx == box_dim(n),
                    g == grid(problem.board@),
                    dims_ok(g, n),
                    dims_ok(grid(solution@), n),
                    in_range(grid(solution@), n),
                    boxes_ok(grid(solution@), n, bx),
                    forall|r2: int, c2: int|
                        #![trigger grid(solution@)[r2][c2]]
                        0 <= r2 < n && 0 <= c2 < n ==> grid(solution@)[r2][c2] == g[r2][c2] || (
                        g[r2][c2] == 0 && grid(solution@)[r2][c2] != 0),
                    forall|r2: int, c2: int|
                        #![trigger grid(solution@)[r2][c2]]
                        0 <= r2 < br * bx && 0 <= c2 < n ==> grid(solution@)[r2][c2] != 0,
                    forall|r2: int, c2: int|
                        #![trigger grid(solution@)[r2][c2]]
                        br * bx <= r2 < br * bx + bx && 0 <= c2 < bc * bx ==> grid(
                            solution@,
                        )[r2][c2] != 0,
                    forall|r2: int, c2: int|
                        #![trigger grid(solution@)[r2][c2]]
                        rs <= r2 < rs + i && cs <= c2 < cs + bx ==> grid(solution@)[r2][c2] != 0,
                decreases bs - i,
            {
                let mut j: usize = 0;
                while j < bs
                    invariant
                        br < bs,
                        bc < bs,
                        i < bs,
                        j <= bs,
                        rs as int == br * bx,
                        cs as int == bc * bx,
                        rs + bs <= size,
                        cs + bs <= size,
                        n == size as int,
                        1 <= size,
                        size < 0x7fff_ffff_usize,
                        bs as int == bx,
                        1 <= bx,
                        bx * bx == n,
                        bx == box_dim(n),
                        g == grid(problem.board@),
                        dims_ok(g, n),
                        dims_ok(grid(solution@), n),
                        in_range(grid(solution@), n),
                        boxes_ok(grid(solution@), n, bx),
                        forall|r2: int, c2: int|
                            #![trigger grid(solution@)[r2][c2]]
                            0 <= r2 < n && 0 <= c2 < n ==> grid(solution@)[r2][c2] == g[r2][c2]
                                || (g[r2][c2] == 0 && grid(solution@)[r2][c2] != 0),
                        forall|r2: int, c2: int|
                            #![trigger grid(solution@)[r2][c2]]
                            0 <= r2 < br * bx && 0 <= c2 < n ==> grid(solution@)[r2][c2] != 0,
                        forall|r2: int, c2: int|
                            #![trigger grid(solution@)[r2][c2]]
                            br * bx <= r2 < br * bx + bx && 0 <= c2 < bc * bx ==> grid(
                                solution@,
                            )[r2][c2] != 0,
                        forall|r2: int, c2: int|
                            #![trigger grid(solution@)[r2][c2]]
                            rs <= r2 < rs + i && cs <= c2 < cs + bx ==> grid(solution@)[r2][c2]
                                != 0,
                        forall|c2: int|
                            cs <= c2 < cs + j ==> #[trigger] grid(solution@)[rs + i][c2] != 0,
                    decreases bs - j,
                {
                    let r_idx = rs + i;
                    let c_idx = cs + j;
                    proof {
                        assert(grid(solution@)[r_idx as int] == solution@[r_idx as int]@);
                    }
                    if get_cell(&solution, r_idx, c_idx) == 0 {
                        let ghost gs = grid(solution@);
                        let missing = missing_in_block(&solution, size as i32, cs, rs, bs);
                        proof {
                            assert(gs[r_idx as int][c_idx as int] == 0);
                            assert(in_box(gs, bx, rs as int, cs as int, 0));
                            assert(bs * bs == size) by (nonlinear_arith)
                                requires
                                    bs as int == bx,
                                    bx * bx == n,
                                    n == size as int,
                            ;
                        }
                        let idx = random_below(missing.len());
                        let num = missing[idx];
                        proof {
                            assert(!in_box(gs, bx, rs as int, cs as int, num as int));
                            assert(num != 0);
                            lemma_fundamental_div_mod_converse(r_idx as int, bx, br as int, i as int);
                            lemma_fundamental_div_mod_converse(c_idx as int, bx, bc as int, j as int);
                            assert(bx * ((r_idx as int) / bx) == rs as int) by (nonlinear_arith)
                                requires
                                    (r_idx as int) / bx == br as int,
                                    rs as int == (br as int) * bx,
                            ;
                            assert(bx * ((c_idx as int) / bx) == cs as int) by (nonlinear_arith)
                                requires
                                    (c_idx as int) / bx == bc as int,
                                    cs as int == (bc as int) * bx,
                            ;
                            lemma_place_keeps_boxes(gs, n, bx, r_idx as int, c_idx as int, num);
                        }
                        set_cell(&mut solution, r_idx, c_idx, num);
                    }
                    j = j + 1;
                }
                i = i + 1;
            }
            proof {
                assert(br * bx + (bc + 1) * bx == bc * bx + bx + br * bx && (bc + 1) * bx == bc
                    * bx + bx) by (nonlinear_arith);
            }
            bc = bc + 1;
        }
        proof {
            assert((br + 1) * bx == br * bx + bx) by (nonlinear_arith);
            assert(bs as int * bx == n) by (nonlinear_arith)
                requires
                    bs as int == bx,
                    bx * bx == n,
            ;
        }
        br = br + 1;
    }
    proof {
        assert forall|r2: int, c2: int|
            0 <= r2 < n && 0 <= c2 < n implies #[trigger] grid(solution@)[r2][c2] != 0 by {
            assert(r2 < bs * bx) by (nonlinear_arith)
                requires
                    bs as int == bx,
                    bx * bx == n,
                    r2 < n,
            ;
        }
    }
    solution
}

} // verus!
