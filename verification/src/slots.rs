//! Slot machine rules: spinning the wheels and paying out winning lines.
//!
//! Money is held in whole cents so the account arithmetic is exact. The
//! symbol and payout tables are plain lists of `(symbol, count)` and
//! `(symbol, value)` pairs.

use vstd::prelude::*;
use crate::rng::random_below;

verus! {

broadcast use vstd::seq_lib::group_to_multiset_ensures;

pub const MAX_LINES: i32 = 5;
pub const MIN_BET_CENTS: u64 = 50;
pub const MAX_BET_CENTS: u64 = 5000;
pub const VISIBLE_SPOTS: usize = 5;
pub const NUMBER_OF_WHEELS: usize = 5;

/// A deposit must be a positive amount.
pub fn valid_deposit(amount_cents: u64) -> (r: bool)
    ensures
        r == (amount_cents > 0),
{
    amount_cents > 0
}

/// A spin plays between one line and `MAX_LINES` lines.
pub fn valid_line_count(lines: i32) -> (r: bool)
    ensures
        r == (1 <= lines <= MAX_LINES),
{
    lines > 0 && lines <= MAX_LINES
}

/// A bet per line is between `MIN_BET_CENTS` and `MAX_BET_CENTS`.
pub fn valid_bet(bet_cents: u64) -> (r: bool)
    ensures
        r == (MIN_BET_CENTS <= bet_cents <= MAX_BET_CENTS),
{
    bet_cents >= MIN_BET_CENTS && bet_cents <= MAX_BET_CENTS
}

/// The cost of one spin: the per-line bet on every played line.
pub fn total_bet(bet_cents: u64, lines: i32) -> (total: u64)
    requires
        MIN_BET_CENTS <= bet_cents <= MAX_BET_CENTS,
        1 <= lines <= MAX_LINES,
    ensures
        total == bet_cents * lines,
{
    proof {
        assert(bet_cents * lines <= MAX_BET_CENTS * MAX_LINES) by (nonlinear_arith)
            requires
                0 < bet_cents <= MAX_BET_CENTS,
                0 < lines <= MAX_LINES,
        ;
    }
    bet_cents * (lines as u64)
}

/// Takes the spin's cost out of the account, or refuses when it does not
/// cover the bet.
pub fn place_bet(account_cents: u64, total_cents: u64) -> (r: Option<u64>)
    ensures
        total_cents <= account_cents ==> r == Some((account_cents - total_cents) as u64),
        total_cents > account_cents ==> r == None::<u64>,
{
    if total_cents <= account_cents {
        Some(account_cents - total_cents)
    } else {
        None
    }
}

/// The flattened symbol pool of a wheel: each symbol repeated its count.
pub open spec fn pool_of(symbols: Seq<(char, u32)>) -> Seq<char>
    decreases symbols.len(),
{
    if symbols.len() == 0 {
        Seq::empty()
    } else {
        pool_of(symbols.drop_last()) + Seq::new(symbols.last().1 as nat, |i: int| symbols.last().0)
    }
}

proof fn lemma_pool_take_len(symbols: Seq<(char, u32)>, k: int)
    requires
        0 <= k <= symbols.len(),
    ensures
        pool_of(symbols.take(k)).len() <= pool_of(symbols).len(),
    decreases symbols.len() - k,
{
    if k == symbols.len() {
        assert(symbols.take(k) =~= symbols);
    } else {
        assert(symbols.take(k + 1).drop_last() =~= symbols.take(k));
        lemma_pool_take_len(symbols, k + 1);
    }
}

fn build_pool(symbols: &Vec<(char, u32)>) -> (pool: Vec<char>)
    requires
        pool_of(symbols@).len() <= usize::MAX,
    ensures
        pool@ == pool_of(symbols@),
{
    let mut pool: Vec<char> = Vec::new();
    let mut k: usize = 0;
    while k < symbols.len()
        invariant
            k <= symbols@.len(),
            pool_of(symbols@).len() <= usize::MAX,
            pool@ == pool_of(symbols@.take(k as int)),
        decreases symbols@.len() - k,
    {
        let (symbol, count) = symbols[k];
        let ghost before = pool@;
        proof {
            assert(symbols@.take(k + 1).drop_last() =~= symbols@.take(k as int));
            assert(symbols@.take(k + 1).last() == symbols@[k as int]);
            lemma_pool_take_len(symbols@, k + 1);
        }
        let mut j: u32 = 0;
        while j < count
            invariant
                j <= count,
                (symbol, count) == symbols@[k as int],
                pool@ == before + Seq::new(j as nat, |i: int| symbol),
                before + Seq::new(count as nat, |i: int| symbol)
                    == pool_of(symbols@.take(k + 1)),
                pool_of(symbols@.take(k + 1)).len() <= usize::MAX,
            decreases count - j,
        {
            pool.push(symbol);
            proof {
                assert(pool@ =~= before + Seq::new((j + 1) as nat, |i: int| symbol));
            }
            j = j + 1;
        }
        proof {
            assert(pool@ =~= pool_of(symbols@.take(k + 1)));
        }
        k = k + 1;
    }
    proof {
        assert(symbols@.take(symbols@.len() as int) =~= symbols@);
    }
    pool
}

/// Spins the machine: `cols` wheels, each showing `rows` symbols drawn
/// without replacement from the full symbol pool of that wheel.
pub fn get_slot_machine_spin(rows: usize, cols: usize, symbols: &Vec<(char, u32)>) -> (columns: Vec<
    Vec<char>,
>)
    requires
        pool_of(symbols@).len() <= usize::MAX,
        rows <= pool_of(symbols@).len(),
    ensures
        columns@.len() == cols,
        forall|c: int| 0 <= c < cols ==> #[trigger] columns@[c]@.len() == rows,
        forall|c: int|
            0 <= c < cols ==> #[trigger] columns@[c]@.to_multiset().subset_of(
                pool_of(symbols@).to_multiset(),
            ),
{
    let mut columns: Vec<Vec<char>> = Vec::new();
    let mut c: usize = 0;
    while c < cols
        invariant
            c <= cols,
            pool_of(symbols@).len() <= usize::MAX,
            rows <= pool_of(symbols@).len(),
            columns@.len() == c,
            forall|k: int| 0 <= k < c ==> #[trigger] columns@[k]@.len() == rows,
            forall|k: int|
                0 <= k < c ==> #[trigger] columns@[k]@.to_multiset().subset_of(
                    pool_of(symbols@).to_multiset(),
                ),
        decreases cols - c,
    {
        let mut current_symbols = build_pool(symbols);
        let mut column: Vec<char> = Vec::new();
        let mut r: usize = 0;
        while r < rows
            invariant
                r <= rows,
                rows <= pool_of(symbols@).len(),
                column@.len() == r,
                current_symbols@.len() + r == pool_of(symbols@).len(),
                column@.to_multiset().add(current_symbols@.to_multiset())
                    == pool_of(symbols@).to_multiset(),
            decreases rows - r,
        {
            let index = random_below(current_symbols.len());
            let value = current_symbols.remove(index);
            column.push(value);
            proof {
                assert(column@.to_multiset().add(current_symbols@.to_multiset())
                    =~= pool_of(symbols@).to_multiset());
            }
            r = r + 1;
        }
        proof {
            assert forall|x: char|
                column@.to_multiset().count(x) <= pool_of(symbols@).to_multiset().count(x) by {
                assert(pool_of(symbols@).to_multiset().count(x) == column@.to_multiset().count(x)
                    + current_symbols@.to_multiset().count(x));
            }
        }
        columns.push(column);
        c = c + 1;
    }
    columns
}

/// Whether every wheel shows the same symbol on a line.
pub open spec fn row_wins(columns: Seq<Vec<char>>, line: int) -> bool {
    forall|c: int| 0 <= c < columns.len() ==> #[trigger] columns[c]@[line] == columns[0]@[line]
}

/// The payout value of a symbol: the first entry for it in the table, from
/// position `i` on.
pub open spec fn value_from(values: Seq<(char, u32)>, i: int, symbol: char) -> int
    decreases values.len() - i,
{
    if i < 0 || i >= values.len() {
        0
    } else if values[i].0 == symbol {
        values[i].1 as int
    } else {
        value_from(values, i + 1, symbol)
    }
}

/// Whether the table has an entry for a symbol, from position `i` on.
pub open spec fn has_symbol_from(values: Seq<(char, u32)>, i: int, symbol: char) -> bool
    decreases values.len() - i,
{
    if i < 0 || i >= values.len() {
        false
    } else {
        values[i].0 == symbol || has_symbol_from(values, i + 1, symbol)
    }
}

/// The payout value of a symbol: the first entry for it in the table.
pub open spec fn symbol_value_spec(values: Seq<(char, u32)>, symbol: char) -> int {
    value_from(values, 0, symbol)
}

proof fn lemma_value_from_bounds(values: Seq<(char, u32)>, i: int, symbol: char)
    ensures
        0 <= value_from(values, i, symbol) <= u32::MAX,
    decreases values.len() - i,
{
    if !(i < 0 || i >= values.len() || values[i].0 == symbol) {
        lemma_value_from_bounds(values, i + 1, symbol);
    }
}

/// Whether the table has an entry for a symbol.
pub open spec fn has_symbol(values: Seq<(char, u32)>, symbol: char) -> bool {
    has_symbol_from(values, 0, symbol)
}

/// Looks a symbol up in the payout table; the first entry counts.
pub fn symbol_value(values: &Vec<(char, u32)>, symbol: char) -> (v: Option<u32>)
    ensures
        has_symbol(values@, symbol) ==> v == Some(
            symbol_value_spec(values@, symbol) as u32,
        ),
        !has_symbol(values@, symbol) ==> v == None::<u32>,
{
    let mut i: usize = 0;
    while i < values.len()
        invariant
            i <= values@.len(),
            has_symbol(values@, symbol) == has_symbol_from(values@, i as int, symbol),
            symbol_value_spec(values@, symbol) == value_from(values@, i as int, symbol),
        decreases values@.len() - i,
    {
        if values[i].0 == symbol {
            return Some(values[i].1);
        }
        i = i + 1;
    }
    None
}

/// Total winnings over the first `lines` lines, in cents.
pub open spec fn winnings_spec(
    columns: Seq<Vec<char>>,
    lines: int,
    bet_cents: int,
    values: Seq<(char, u32)>,
) -> int
    decreases lines,
{
    if lines <= 0 {
        0
    } else {
        winnings_spec(columns, lines - 1, bet_cents, values) + if row_wins(columns, lines - 1) {
            symbol_value_spec(values, columns[0]@[lines - 1]) * bet_cents
        } else {
            0
        }
    }
}

/// The winning lines among the first `lines`, numbered from 1, in order.
pub open spec fn winning_lines_spec(columns: Seq<Vec<char>>, lines: int) -> Seq<i32>
    decreases lines,
{
    if lines <= 0 {
        Seq::empty()
    } else {
        winning_lines_spec(columns, lines - 1) + if row_wins(columns, lines - 1) {
            seq![lines as i32]
        } else {
            Seq::empty()
        }
    }
}

fn row_all_match(columns: &Vec<Vec<char>>, line: usize) -> (b: bool)
    requires
        columns@.len() > 0,
        forall|c: int| 0 <= c < columns@.len() ==> line < #[trigger] columns@[c]@.len(),
    ensures
        b == row_wins(columns@, line as int),
{
    let symbol = columns[0][line];
    let mut c: usize = 0;
    while c < columns.len()
        invariant
            c <= columns@.len(),
            columns@.len() > 0,
            forall|k: int| 0 <= k < columns@.len() ==> line < #[trigger] columns@[k]@.len(),
            symbol == columns@[0]@[line as int],
            forall|k: int| 0 <= k < c ==> #[trigger] columns@[k]@[line as int] == symbol,
        decreases columns@.len() - c,
    {
        if columns[c][line] != symbol {
            return false;
        }
        c = c + 1;
    }
    true
}

/// Pays out each line on which every wheel shows the same symbol: the
/// symbol's table value times the per-line bet. Returns the total winnings
/// in cents and the winning line numbers (numbered from 1, ascending).
pub fn check_winnings(
    columns: &Vec<Vec<char>>,
    lines: i32,
    bet_cents: u64,
    values: &Vec<(char, u32)>,
) -> (r: (u64, Vec<i32>))
    requires
        columns@.len() > 0,
        1 <= lines <= MAX_LINES,
        MIN_BET_CENTS <= bet_cents <= MAX_BET_CENTS,
        forall|c: int| 0 <= c < columns@.len() ==> #[trigger] columns@[c]@.len() >= lines,
        forall|l: int| 0 <= l < lines ==> has_symbol(values@, #[trigger] columns@[0]@[l]),
    ensures
        r.0 == winnings_spec(columns@, lines as int, bet_cents as int, values@),
        r.1@ == winning_lines_spec(columns@, lines as int),
{
    let mut winnings: u64 = 0;
    let mut winning_lines: Vec<i32> = Vec::new();
    let mut line: usize = 0;
    while line < lines as usize
        invariant
            line <= lines,
            1 <= lines <= MAX_LINES,
            MIN_BET_CENTS <= bet_cents <= MAX_BET_CENTS,
            columns@.len() > 0,
            forall|c: int| 0 <= c < columns@.len() ==> #[trigger] columns@[c]@.len() >= lines,
            forall|l: int| 0 <= l < lines ==> has_symbol(values@, #[trigger] columns@[0]@[l]),
            winnings == winnings_spec(columns@, line as int, bet_cents as int, values@),
            winnings <= line * MAX_BET_CENTS * (u32::MAX as int),
            winning_lines@ == winning_lines_spec(columns@, line as int),
        decreases lines - line,
    {
        let wins = row_all_match(columns, line);
        if wins {
            let symbol = columns[0][line];
            let value = symbol_value(values, symbol).unwrap();
            proof {
                lemma_value_from_bounds(values@, 0, symbol);
                assert(value == symbol_value_spec(values@, symbol));
                assert(winnings_spec(columns@, line + 1, bet_cents as int, values@)
                    == winnings_spec(columns@, line as int, bet_cents as int, values@)
                    + symbol_value_spec(values@, columns@[0]@[line as int]) * bet_cents);
                assert(value * bet_cents <= (u32::MAX as int) * MAX_BET_CENTS) by (nonlinear_arith)
                    requires
                        0 <= value <= u32::MAX,
                        0 < bet_cents <= MAX_BET_CENTS,
                ;
                assert((line + 1) * MAX_BET_CENTS * (u32::MAX as int) == line * MAX_BET_CENTS * (
                u32::MAX as int) + MAX_BET_CENTS * (u32::MAX as int)) by (nonlinear_arith);
            }
            winnings = winnings + (value as u64) * bet_cents;
            winning_lines.push((line as i32) + 1);
        } else {
            proof {
                assert(winnings_spec(columns@, line + 1, bet_cents as int, values@)
                    == winnings_spec(columns@, line as int, bet_cents as int, values@));
                assert((line + 1) * MAX_BET_CENTS * (u32::MAX as int) == line * MAX_BET_CENTS * (
                u32::MAX as int) + MAX_BET_CENTS * (u32::MAX as int)) by (nonlinear_arith);
            }
        }
        proof {
            assert(winning_lines@ =~= winning_lines_spec(columns@, line + 1));
        }
        line = line + 1;
    }
    (winnings, winning_lines)
}

/// Returns the winnings to the account after a spin.
pub fn settle_winnings(account_cents: u64, winnings_cents: u64) -> (r: Option<u64>)
    ensures
        account_cents + winnings_cents <= u64::MAX ==> r == Some(
            (account_cents + winnings_cents) as u64,
        ),
        account_cents + winnings_cents > u64::MAX ==> r == None::<u64>,
{
    account_cents.checked_add(winnings_cents)
}

} // verus!
