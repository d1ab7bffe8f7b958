use minigames::solve::get_block_numbers;
use minigames::solve::get_missing_numbers;
use minigames::solve::get_score;
use minigames::solve::init_solution;
use minigames::solve::unique;
use minigames::sudoku::Difficulty;
use minigames::sudoku::SudokuBoard;
use minigames::sudoku::SudokuParams;
use minigames::sudoku::find_actual_spot;

fn params() -> SudokuParams {
    SudokuParams { size: 9, difficulty: Difficulty::Easy }
}

fn no_duplicates(board: &Vec<Vec<i32>>) -> bool {
    for unit in 0..9usize {
        for a in 0..9usize {
            for b in 0..9usize {
                if a != b {
                    if board[unit][a] != 0 && board[unit][a] == board[unit][b] {
                        return false;
                    }
                    if board[a][unit] != 0 && board[a][unit] == board[b][unit] {
                        return false;
                    }
                }
            }
        }
    }
    for br in 0..3usize {
        for bc in 0..3usize {
            let mut vals: Vec<i32> = Vec::new();
            for i in 0..3usize {
                for j in 0..3usize {
                    let v = board[br * 3 + i][bc * 3 + j];
                    if v != 0 {
                        if vals.contains(&v) {
                            return false;
                        }
                        vals.push(v);
                    }
                }
            }
        }
    }
    true
}

fn solved_grid() -> Vec<Vec<i32>> {
    let mut board: Vec<Vec<i32>> = Vec::new();
    for r in 0..9usize {
        let mut row: Vec<i32> = Vec::new();
        let shift = (r % 3) * 3 + r / 3;
        for c in 0..9usize {
            row.push((((c + shift) % 9) + 1) as i32);
        }
        board.push(row);
    }
    board
}

#[test]
fn generated_puzzle_is_consistent() {
    let sudoku = SudokuBoard::new(params()).expect("no grid was generated");
    assert_eq!(sudoku.params.size, 9);
    assert_eq!(sudoku.board.len(), 9);
    let mut zeros = 0;
    for row in &sudoku.board {
        assert_eq!(row.len(), 9);
        for &v in row {
            assert!((0..=9).contains(&v));
            if v == 0 {
                zeros += 1;
            }
        }
    }
    // Easy blanks exactly 40 cells.
    assert_eq!(zeros, 40);
    assert!(no_duplicates(&sudoku.board));
}

#[test]
fn removable_means_blank() {
    let sudoku = SudokuBoard::new(params()).expect("no grid was generated");
    for i in 0..9usize {
        for j in 0..9usize {
            assert_eq!(sudoku.removable(i, j), sudoku.board[i][j] == 0);
        }
    }
}

#[test]
fn clone_params_swaps_the_grid() {
    let sudoku = SudokuBoard::new(params()).expect("no grid was generated");
    let copy = sudoku.clone_params(solved_grid());
    assert_eq!(copy.params.size, 9);
    assert_eq!(copy.board, solved_grid());
}

#[test]
fn missing_numbers_are_the_complement() {
    let block = vec![0, 1, 2, 5];
    assert_eq!(get_missing_numbers(&block, 9), vec![3, 4, 6, 7, 8, 9]);
    let empty: Vec<i32> = Vec::new();
    assert_eq!(get_missing_numbers(&empty, 3), vec![0, 1, 2, 3]);
}

#[test]
fn block_numbers_of_a_blank_board() {
    let sudoku = SudokuBoard::new(params()).expect("no grid was generated");
    let blank = sudoku.clone_params(vec![vec![0; 9]; 9]);
    // A blank block holds 0, so 1..=9 are missing.
    assert_eq!(get_block_numbers(&blank, 0, 0, 3), vec![1, 2, 3, 4, 5, 6, 7, 8, 9]);
}

#[test]
fn unique_counts_distinct_values() {
    assert_eq!(unique(&vec![1, 2, 2, 3]), 3);
    assert_eq!(unique(&Vec::new()), 0);
    assert_eq!(unique(&vec![5, 5, 5]), 1);
    assert_eq!(unique(&vec![1, 2, 3, 4, 5, 6, 7, 8, 9]), 9);
}

#[test]
fn score_of_a_solved_grid_is_zero() {
    let sudoku = SudokuBoard::new(params()).expect("no grid was generated");
    let solved = sudoku.clone_params(solved_grid());
    assert_eq!(get_score(&solved), 0);
}

#[test]
fn score_counts_missing_values() {
    let sudoku = SudokuBoard::new(params()).expect("no grid was generated");
    let ones = sudoku.clone_params(vec![vec![1; 9]; 9]);
    // Every row and column misses 8 of its 9 values.
    assert_eq!(get_score(&ones), 144);
}

#[test]
fn first_solution_fills_blocks_completely() {
    let sudoku = SudokuBoard::new(params()).expect("no grid was generated");
    let solution = init_solution(&sudoku);
    assert_eq!(solution.len(), 9);
    for r in 0..9usize {
        assert_eq!(solution[r].len(), 9);
        for c in 0..9usize {
            assert!((1..=9).contains(&solution[r][c]));
            if sudoku.board[r][c] != 0 {
                assert_eq!(solution[r][c], sudoku.board[r][c]);
            }
        }
    }
    for br in 0..3usize {
        for bc in 0..3usize {
            let mut seen = vec![false; 10];
            for i in 0..3usize {
                for j in 0..3usize {
                    let v = solution[br * 3 + i][bc * 3 + j] as usize;
                    assert!(!seen[v], "a block repeats a value");
                    seen[v] = true;
                }
            }
        }
    }
}

#[test]
fn printed_coordinates_skip_separators() {
    // A 9-wide grid prints with a separator every 4th column.
    let block = 4usize;
    let expected = [(1, 0), (2, 1), (3, 2), (5, 3), (6, 4), (7, 5), (9, 6), (10, 7), (11, 8)];
    for (index, spot) in expected {
        let mut actual = 0usize;
        find_actual_spot(&mut actual, &block, &index);
        assert_eq!(actual, spot);
    }
}
