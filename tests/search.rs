use sudoku::board::Sudoku;
use sudoku::digit::Digit;
use sudoku::solver::{solve, solve_observed, Observer};

const CLASSIC: [u8; 81] = [
    5, 3, 0, 0, 7, 0, 0, 0, 0, //
    6, 0, 0, 1, 9, 5, 0, 0, 0, //
    0, 9, 8, 0, 0, 0, 0, 6, 0, //
    8, 0, 0, 0, 6, 0, 0, 0, 3, //
    4, 0, 0, 8, 0, 3, 0, 0, 1, //
    7, 0, 0, 0, 2, 0, 0, 0, 6, //
    0, 6, 0, 0, 0, 0, 2, 8, 0, //
    0, 0, 0, 4, 1, 9, 0, 0, 5, //
    0, 0, 0, 0, 8, 0, 0, 7, 9, //
];

const CLASSIC_SOLVED: [u8; 81] = [
    5, 3, 4, 6, 7, 8, 9, 1, 2, //
    6, 7, 2, 1, 9, 5, 3, 4, 8, //
    1, 9, 8, 3, 4, 2, 5, 6, 7, //
    8, 5, 9, 7, 6, 1, 4, 2, 3, //
    4, 2, 6, 8, 5, 3, 7, 9, 1, //
    7, 1, 3, 9, 2, 4, 8, 5, 6, //
    9, 6, 1, 5, 3, 7, 2, 8, 4, //
    2, 8, 7, 4, 1, 9, 6, 3, 5, //
    3, 4, 5, 2, 8, 6, 1, 7, 9, //
];

fn board(values: [u8; 81]) -> Sudoku {
    let mut cells = [None; 81];
    for (cell, &v) in cells.iter_mut().zip(values.iter()) {
        *cell = if v == 0 { None } else { Some(Digit::from_u8(v).unwrap()) };
    }
    Sudoku::new(cells)
}

fn values(s: &Sudoku) -> Vec<u8> {
    Digit::all_indices()
        .into_iter()
        .map(|p| s.get(p).map(|d| d.to_u8()).unwrap_or(0))
        .collect()
}

fn is_solved(s: &Sudoku) -> bool {
    let full = |v: Vec<Digit>| {
        let mut seen: Vec<u8> = v.iter().map(|d| d.to_u8()).collect();
        seen.sort();
        seen == (1..=9).collect::<Vec<u8>>()
    };
    Digit::all()
        .into_iter()
        .all(|n| full(s.row(n)) && full(s.col(n)) && full(s.square(n)))
}

struct Counter(usize);

impl Observer for Counter {
    fn observe(&mut self, _board: &Sudoku) {
        self.0 += 1;
    }
}

#[test]
fn solves_classic_puzzle() {
    let solved = solve(board(CLASSIC)).expect("the puzzle has a solution");
    assert_eq!(values(&solved), CLASSIC_SOLVED.to_vec());
    assert!(is_solved(&solved));
}

#[test]
fn duplicate_in_row_has_no_solution() {
    let mut givens = CLASSIC;
    // a second 5 in row 1, at column 9
    givens[8] = 5;
    assert!(solve(board(givens)).is_none());
}

#[test]
fn duplicate_in_row_of_sparse_board_has_no_solution() {
    let mut givens = CLASSIC_SOLVED;
    // clear the last 21 cells, then put a 3 at both ends of row 9;
    // no column and no box holds a second 3
    for k in 60..81 {
        givens[k] = 0;
    }
    givens[72] = 3;
    givens[79] = 3;
    assert!(solve(board(givens)).is_none());
}

#[test]
fn solved_board_is_returned_at_once() {
    let mut watcher = Counter(0);
    let solved = solve_observed(board(CLASSIC_SOLVED), &mut watcher).expect("already solved");
    assert_eq!(values(&solved), CLASSIC_SOLVED.to_vec());
    assert_eq!(watcher.0, 0);
}

#[test]
fn observer_sees_each_attempt() {
    let mut watcher = Counter(0);
    let solved = solve_observed(board(CLASSIC), &mut watcher).expect("the puzzle has a solution");
    assert!(is_solved(&solved));
    assert!(watcher.0 >= 51);
}

#[test]
fn one_empty_cell_is_filled() {
    let mut givens = CLASSIC_SOLVED;
    givens[40] = 0;
    let solved = solve(board(givens)).expect("one cell to fill");
    assert_eq!(values(&solved), CLASSIC_SOLVED.to_vec());
}

#[test]
fn blocked_empty_cell_has_no_solution() {
    let mut givens = CLASSIC_SOLVED;
    // the only digit that fits (5, 5) is 5; put it elsewhere in row 5
    givens[40] = 0;
    givens[36] = 5;
    assert!(solve(board(givens)).is_none());
}
