use sudoku::board::{Move, MoveError, Sudoku};
use sudoku::digit::Digit::{D1, D2, D3, D4, D5, D6, D7, D8, D9};
use sudoku::digit::{Digit, U8ToDigitConversionError};

const CLASSIC: [u8; 81] = [
    5, 3, 0, 0, 7, 0, 0, 0, 0, //
    6, 0, 0, 1, 9, 5, 0, 0, 0, //
    0, 9, 8, 0, 0, 0, 0, 6, 0, //
    8, 0, 0, 0, 6, 0, 0, 0, 3, //
    4, 0, 0, 8, 0, 3, 0, 0, 1, //
    7, 0, 0, 0, 2, 0, 0, 0, 6, //
    0, 6, 0, 0, 0, 0, 2, 8, 0, //
    0, 0, 0, 4, 1, 9, 0, 0, 5, //
    0, 0, 0, 0, 8, 0, 0, 7, 9, //
];

fn digit(v: u8) -> Digit {
    Digit::from_u8(v).unwrap()
}

fn board(values: [u8; 81]) -> Sudoku {
    let mut cells = [None; 81];
    for (cell, &v) in cells.iter_mut().zip(values.iter()) {
        *cell = if v == 0 { None } else { Some(digit(v)) };
    }
    Sudoku::new(cells)
}

fn smove(r: u8, c: u8, d: u8) -> Move {
    Move::from(((digit(r), digit(c)), digit(d)))
}

fn cells_of(s: &Sudoku) -> Vec<Option<Digit>> {
    Digit::all_indices().into_iter().map(|p| s.get(p)).collect()
}

#[test]
fn square_works() {
    let square_1: Vec<_> = D1.square().collect();
    assert_eq!(
        square_1,
        &[(D1, D1), (D1, D2), (D1, D3), (D2, D1), (D2, D2), (D2, D3), (D3, D1), (D3, D2), (D3, D3)]
    );
    let square_2: Vec<_> = D2.square().collect();
    assert_eq!(
        square_2,
        &[(D1, D4), (D1, D5), (D1, D6), (D2, D4), (D2, D5), (D2, D6), (D3, D4), (D3, D5), (D3, D6)]
    );
    let square_3: Vec<_> = D3.square().collect();
    assert_eq!(
        square_3,
        &[(D1, D7), (D1, D8), (D1, D9), (D2, D7), (D2, D8), (D2, D9), (D3, D7), (D3, D8), (D3, D9)]
    );
    let square_4: Vec<_> = D4.square().collect();
    assert_eq!(
        square_4,
        &[(D4, D1), (D4, D2), (D4, D3), (D5, D1), (D5, D2), (D5, D3), (D6, D1), (D6, D2), (D6, D3)]
    );
    let square_5: Vec<_> = D5.square().collect();
    assert_eq!(
        square_5,
        &[(D4, D4), (D4, D5), (D4, D6), (D5, D4), (D5, D5), (D5, D6), (D6, D4), (D6, D5), (D6, D6)]
    );
    let square_6: Vec<_> = D6.square().collect();
    assert_eq!(
        square_6,
        &[(D4, D7), (D4, D8), (D4, D9), (D5, D7), (D5, D8), (D5, D9), (D6, D7), (D6, D8), (D6, D9)]
    );
    let square_7: Vec<_> = D7.square().collect();
    assert_eq!(
        square_7,
        &[(D7, D1), (D7, D2), (D7, D3), (D8, D1), (D8, D2), (D8, D3), (D9, D1), (D9, D2), (D9, D3)]
    );
    let square_8: Vec<_> = D8.square().collect();
    assert_eq!(
        square_8,
        &[(D7, D4), (D7, D5), (D7, D6), (D8, D4), (D8, D5), (D8, D6), (D9, D4), (D9, D5), (D9, D6)]
    );
    let square_9: Vec<_> = D9.square().collect();
    assert_eq!(
        square_9,
        &[(D7, D7), (D7, D8), (D7, D9), (D8, D7), (D8, D8), (D8, D9), (D9, D7), (D9, D8), (D9, D9)]
    );
}

#[test]
fn sudoku_moves() {
    let mut sudoku = board(CLASSIC);
    assert!(sudoku.play(smove(1, 3, 1)).is_ok());
    assert!(matches!(sudoku.play(smove(1, 3, 1)), Err(MoveError::NonEmpty)));
    assert!(matches!(sudoku.play(smove(1, 4, 1)), Err(MoveError::Invalid)));
}

#[test]
fn empty_indices_empty() {
    let sudoku = Sudoku::default();
    assert_eq!(sudoku.empty_indices().count(), 81);
}

#[test]
fn square_walk_ends() {
    let mut walk = Digit::D5.square();
    for _ in 0..9 {
        assert!(walk.next().is_some());
    }
    assert_eq!(walk.next(), None);
    assert_eq!(walk.next(), None);
}

#[test]
fn box_of_partitions_grid() {
    let mut counts = [0usize; 10];
    for p in Digit::all_indices() {
        let b = Digit::square_of(p.0, p.1).to_u8() as usize;
        assert!((1..=9).contains(&b));
        assert!(Digit::square_of(p.0, p.1).square().collect().contains(&p));
        counts[b] += 1;
    }
    assert_eq!(&counts[1..], &[9; 9]);
    assert_eq!(Digit::square_of(Digit::D5, Digit::D8), Digit::D6);
    assert_eq!(Digit::square_of(Digit::D9, Digit::D1), Digit::D7);
}

#[test]
fn digits_and_positions() {
    let all = Digit::all();
    assert_eq!(all.len(), 9);
    for (i, d) in all.iter().enumerate() {
        assert_eq!(d.to_u8() as usize, i + 1);
    }
    let idx = Digit::all_indices();
    assert_eq!(idx.len(), 81);
    assert_eq!(idx[0], (Digit::D1, Digit::D1));
    assert_eq!(idx[10], (Digit::D2, Digit::D2));
    assert_eq!(idx[80], (Digit::D9, Digit::D9));
    let row: Vec<_> = Digit::D4.row();
    assert_eq!(row[0], (Digit::D4, Digit::D1));
    assert_eq!(row[8], (Digit::D4, Digit::D9));
    let col: Vec<_> = Digit::D4.col();
    assert_eq!(col[0], (Digit::D1, Digit::D4));
    assert_eq!(col[8], (Digit::D9, Digit::D4));
    assert_eq!(Digit::D7.to_char(), '7');
}

#[test]
fn digit_conversion_errors() {
    assert_eq!(Digit::from_u8(0), Err(U8ToDigitConversionError(0)));
    assert_eq!(Digit::from_u8(10), Err(U8ToDigitConversionError(10)));
    assert_eq!(Digit::from_u8(9), Ok(Digit::D9));
}

#[test]
fn move_parts() {
    let m = smove(2, 7, 4);
    assert_eq!(m.pos(), (Digit::D2, Digit::D7));
    assert_eq!(m.digit(), Digit::D4);
}

#[test]
fn line_and_box_digits() {
    let s = board(CLASSIC);
    assert_eq!(s.row(D1), vec![D5, D3, D7]);
    assert_eq!(s.col(D1), vec![D5, D6, D8, D4, D7]);
    assert_eq!(s.square(D1), vec![D5, D3, D6, D9, D8]);
    assert_eq!(s.square(D9), vec![D2, D8, D5, D7, D9]);
    assert_eq!(Sudoku::default().row(D3), Vec::<Digit>::new());
}

#[test]
fn candidates_descend_and_repeat() {
    let s = board(CLASSIC);
    let p = (Digit::D1, Digit::D3);
    let mut first = s.possible_moves(p);
    let mut second = s.possible_moves(p);
    let mut a = Vec::new();
    let mut b = Vec::new();
    while let Some(m) = first.next() {
        a.push(m.digit());
    }
    while let Some(m) = second.next() {
        b.push(m.digit());
    }
    assert_eq!(a, vec![Digit::D4, Digit::D2, Digit::D1]);
    assert_eq!(a, b);
    assert_eq!(s.possible_moves(p).nth(1).map(|m| m.digit()), Some(Digit::D2));
    assert_eq!(s.possible_moves(p).nth(3), None);
    assert!(s.possible_moves(p).contains(Digit::D4));
    assert!(!s.possible_moves(p).contains(Digit::D5));
}

#[test]
fn commit_then_undo_restores() {
    let mut s = board(CLASSIC);
    let before = cells_of(&s);
    let p = (Digit::D5, Digit::D5);
    assert!(s.play(Move::from((p, Digit::D5))).is_ok());
    assert_eq!(s.get(p), Some(Digit::D5));
    assert_eq!(s.take(p), Some(Digit::D5));
    assert_eq!(cells_of(&s), before);
}

#[test]
fn play_rejects_row_column_box() {
    let mut s = board(CLASSIC);
    let before = cells_of(&s);
    // row 1 holds a 5
    assert_eq!(s.play(smove(1, 9, 5)), Err(MoveError::Invalid));
    // column 9 holds a 3
    assert_eq!(s.play(smove(2, 9, 3)), Err(MoveError::Invalid));
    // box 1 holds a 9
    assert_eq!(s.play(smove(2, 2, 9)), Err(MoveError::Invalid));
    // (1, 1) holds a 5
    assert_eq!(s.play(smove(1, 1, 1)), Err(MoveError::NonEmpty));
    assert_eq!(cells_of(&s), before);
    assert_eq!(s.play(smove(1, 9, 2)), Ok(()));
}

#[test]
fn empty_walk_on_puzzle() {
    let s = board(CLASSIC);
    assert_eq!(s.empty_indices().count(), 51);
    let mut walk = s.empty_indices();
    assert_eq!(walk.next(), Some((Digit::D1, Digit::D3)));
    assert_eq!(walk.next(), Some((Digit::D1, Digit::D4)));
    let all = s.empty_indices().collect();
    assert_eq!(all.len(), 51);
    assert_eq!(all[50], (Digit::D9, Digit::D7));
}

#[test]
fn grid_text() {
    let s = board(CLASSIC);
    let expected = "+-----+-----+-----+\n|5 3  |  7  |     |\n|6    |1 9 5|     |\n|  9 8|     |  6  |\n+-----+-----+-----+\n|8    |  6  |    3|\n|4    |8   3|    1|\n|7    |  2  |    6|\n+-----+-----+-----+\n|  6  |     |2 8  |\n|     |4 1 9|    5|\n|     |  8  |  7 9|\n+-----+-----+-----+\n";
    assert_eq!(s.to_string(), expected);
    let blank = Sudoku::default().to_string();
    assert_eq!(blank.lines().count(), 13);
    assert_eq!(blank.lines().nth(1), Some("|     |     |     |"));
}

#[test]
fn board_from_values() {
    let s = Sudoku::from_values(&CLASSIC).expect("all values in range");
    assert_eq!(s.get((D1, D1)), Some(D5));
    assert_eq!(s.get((D1, D3)), None);
    assert_eq!(s.get((D9, D9)), Some(D9));
    assert_eq!(s.to_string(), board(CLASSIC).to_string());
    let mut bad = CLASSIC;
    bad[40] = 12;
    bad[50] = 10;
    assert_eq!(Sudoku::from_values(&bad).err(), Some(U8ToDigitConversionError(12)));
}
