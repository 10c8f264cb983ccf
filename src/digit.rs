use vstd::prelude::*;

verus! {

/// One of the nine symbols of the grid; also used as a row, column or box number.
#[derive(Clone, Copy, Debug, PartialEq, Eq, Structural)]
pub enum Digit {
    D1,
    D2,
    D3,
    D4,
    D5,
    D6,
    D7,
    D8,
    D9,
}

/// A cell position: (row, column).
pub type Idx = (Digit, Digit);

/// The error of a conversion from an integer outside 1..=9; it carries that integer.
#[derive(Debug, PartialEq, Eq, Structural)]
pub struct U8ToDigitConversionError(pub u8);

/// The digit whose value is `v`; meaningful for `1 <= v <= 9`.
pub open spec fn digit_of(v: int) -> Digit {
    if v == 1 {
        Digit::D1
    } else if v == 2 {
        Digit::D2
    } else if v == 3 {
        Digit::D3
    } else if v == 4 {
        Digit::D4
    } else if v == 5 {
        Digit::D5
    } else if v == 6 {
        Digit::D6
    } else if v == 7 {
        Digit::D7
    } else if v == 8 {
        Digit::D8
    } else {
        Digit::D9
    }
}

/// The digits 1 to 9 in increasing order.
pub open spec fn all_digits() -> Seq<Digit> {
    Seq::new(9, |i: int| digit_of(i + 1))
}

/// The position at `row`, `col` (both in 1..=9).
pub open spec fn pos_of(row: int, col: int) -> Idx {
    (digit_of(row), digit_of(col))
}

/// All 81 positions, row by row.
pub open spec fn all_positions() -> Seq<Idx> {
    Seq::new(81, |k: int| pos_of(k / 9 + 1, k % 9 + 1))
}

/// The positions of row `r`, from column 1 to 9.
pub open spec fn row_positions(r: Digit) -> Seq<Idx> {
    Seq::new(9, |j: int| (r, digit_of(j + 1)))
}

/// The positions of column `c`, from row 1 to 9.
pub open spec fn col_positions(c: Digit) -> Seq<Idx> {
    Seq::new(9, |i: int| (digit_of(i + 1), c))
}

/// The box (1..=9, left to right, top to bottom) holding the cell at `row`, `col`.
pub open spec fn box_of(row: int, col: int) -> int {
    ((row - 1) / 3) * 3 + (col - 1) / 3 + 1
}

/// The first row of box `b`.
pub open spec fn box_first_row(b: int) -> int {
    ((b - 1) / 3) * 3 + 1
}

/// The first column of box `b`.
pub open spec fn box_first_col(b: int) -> int {
    ((b - 1) % 3) * 3 + 1
}

/// The `i`-th cell (0..9) of box `b`, row by row inside the box.
pub open spec fn box_cell(b: int, i: int) -> Idx {
    pos_of(box_first_row(b) + i / 3, box_first_col(b) + i % 3)
}

/// The nine cells of box `b`, row by row inside the box.
pub open spec fn box_positions(b: int) -> Seq<Idx> {
    Seq::new(9, |i: int| box_cell(b, i))
}

/// The cells whose row lies among the three rows of box `b` and whose column
/// lies among its three columns.
pub open spec fn box_block(b: int) -> Set<Idx> {
    Set::new(
        |p: Idx|
            box_first_row(b) <= p.0.val() < box_first_row(b) + 3 && box_first_col(b) <= p.1.val()
                < box_first_col(b) + 3,
    )
}

/// The cells that `box_of` assigns to box `b`.
pub open spec fn box_members(b: int) -> Set<Idx> {
    Set::new(|p: Idx| box_of(p.0.val(), p.1.val()) == b)
}

impl Digit {
    /// The integer value, 1 to 9.
    pub open spec fn val(self) -> int {
        match self {
            Digit::D1 => 1,
            Digit::D2 => 2,
            Digit::D3 => 3,
            Digit::D4 => 4,
            Digit::D5 => 5,
            Digit::D6 => 6,
            Digit::D7 => 7,
            Digit::D8 => 8,
            Digit::D9 => 9,
        }
    }

    pub fn to_u8(self) -> (r: u8)
        ensures
            r as int == self.val(),
    {
        match self {
            Digit::D1 => 1,
            Digit::D2 => 2,
            Digit::D3 => 3,
            Digit::D4 => 4,
            Digit::D5 => 5,
            Digit::D6 => 6,
            Digit::D7 => 7,
            Digit::D8 => 8,
            Digit::D9 => 9,
        }
    }

    /// The nine digits in increasing order.
    pub fn all() -> (r: Vec<Digit>)
        ensures
            r@ == all_digits(),
    {
        let r = vec![
            Digit::D1,
            Digit::D2,
            Digit::D3,
            Digit::D4,
            Digit::D5,
            Digit::D6,
            Digit::D7,
            Digit::D8,
            Digit::D9,
        ];
        assert(r@ =~= all_digits());
        r
    }

    /// All 81 positions, row by row.
    pub fn all_indices() -> (r: Vec<Idx>)
        ensures
            r@ == all_positions(),
    {
        let digits = Digit::all();
        let mut v: Vec<Idx> = Vec::with_capacity(81);
        let mut i: usize = 0;
        while i < 9
            invariant
                i <= 9,
                digits@ == all_digits(),
                v@ =~= all_positions().take(9 * i as int),
            decreases 9 - i,
        {
            let mut j: usize = 0;
            while j < 9
                invariant
                    i < 9,
                    j <= 9,
                    digits@ == all_digits(),
                    v@ =~= all_positions().take(9 * i + j),
                decreases 9 - j,
            {
                v.push((digits[i], digits[j]));
                proof {
                    let k = 9 * i + j;
                    assert(k / 9 == i && k % 9 == j);
                    assert(v@ =~= all_positions().take(k + 1));
                }
                j += 1;
            }
            i += 1;
        }
        assert(all_positions().take(81) =~= all_positions());
        v
    }

    /// The positions of row `self`, from column 1 to 9.
    pub fn row(self) -> (r: Vec<Idx>)
        ensures
            r@ == row_positions(self),
    {
        let digits = Digit::all();
        let mut v: Vec<Idx> = Vec::with_capacity(9);
        let mut j: usize = 0;
        while j < 9
            invariant
                j <= 9,
                digits@ == all_digits(),
                v@ =~= Seq::new(j as nat, |c: int| (self, digit_of(c + 1))),
            decreases 9 - j,
        {
            v.push((self, digits[j]));
            j += 1;
        }
        v
    }

    /// The positions of column `self`, from row 1 to 9.
    pub fn col(self) -> (r: Vec<Idx>)
        ensures
            r@ == col_positions(self),
    {
        let digits = Digit::all();
        let mut v: Vec<Idx> = Vec::with_capacity(9);
        let mut i: usize = 0;
        while i < 9
            invariant
                i <= 9,
                digits@ == all_digits(),
                v@ =~= Seq::new(i as nat, |r: int| (digit_of(r + 1), self)),
            decreases 9 - i,
        {
            v.push((digits[i], self));
            i += 1;
        }
        v
    }

    /// The cells of box `self`, to be walked row by row inside the box.
    pub fn square(self) -> (r: Square)
        ensures
            r.wf(),
            r.remaining() == box_positions(self.val()),
    {
        Square::new(self)
    }

    /// The box that holds the cell at `row`, `col`.
    pub fn square_of(row: Digit, col: Digit) -> (r: Digit)
        ensures
            r.val() == box_of(row.val(), col.val()),
    {
        match (row, col) {
            (Digit::D1 | Digit::D2 | Digit::D3, Digit::D1 | Digit::D2 | Digit::D3) => Digit::D1,
            (Digit::D1 | Digit::D2 | Digit::D3, Digit::D4 | Digit::D5 | Digit::D6) => Digit::D2,
            (Digit::D1 | Digit::D2 | Digit::D3, Digit::D7 | Digit::D8 | Digit::D9) => Digit::D3,
            (Digit::D4 | Digit::D5 | Digit::D6, Digit::D1 | Digit::D2 | Digit::D3) => Digit::D4,
            (Digit::D4 | Digit::D5 | Digit::D6, Digit::D4 | Digit::D5 | Digit::D6) => Digit::D5,
            (Digit::D4 | Digit::D5 | Digit::D6, Digit::D7 | Digit::D8 | Digit::D9) => Digit::D6,
            (Digit::D7 | Digit::D8 | Digit::D9, Digit::D1 | Digit::D2 | Digit::D3) => Digit::D7,
            (Digit::D7 | Digit::D8 | Digit::D9, Digit::D4 | Digit::D5 | Digit::D6) => Digit::D8,
            (Digit::D7 | Digit::D8 | Digit::D9, Digit::D7 | Digit::D8 | Digit::D9) => Digit::D9,
        }
    }

    /// The digit of value `v`, or the error that carries `v` when it is not in 1..=9.
    pub fn from_u8(v: u8) -> (r: Result<Digit, U8ToDigitConversionError>)
        ensures
            1 <= v <= 9 ==> r == Ok::<Digit, U8ToDigitConversionError>(digit_of(v as int)),
            !(1 <= v <= 9) ==> r == Err::<Digit, U8ToDigitConversionError>(
                U8ToDigitConversionError(v),
            ),
    {
        match v {
            1 => Ok(Digit::D1),
            2 => Ok(Digit::D2),
            3 => Ok(Digit::D3),
            4 => Ok(Digit::D4),
            5 => Ok(Digit::D5),
            6 => Ok(Digit::D6),
            7 => Ok(Digit::D7),
            8 => Ok(Digit::D8),
            9 => Ok(Digit::D9),
            other => Err(U8ToDigitConversionError(other)),
        }
    }
}

/// Every digit has a value in 1..=9, and is the digit of that value.
pub proof fn lemma_digit_val(d: Digit)
    ensures
        1 <= d.val() <= 9,
        digit_of(d.val()) == d,
{
}

/// The digit of a value in 1..=9 has that value.
pub proof fn lemma_digit_of(v: int)
    requires
        1 <= v <= 9,
    ensures
        digit_of(v).val() == v,
{
}

/// The walk over box `b` gives nine distinct cells, and they are exactly the
/// cells that lie in the three rows and the three columns of that box.
pub proof fn lemma_box_walk(b: int)
    requires
        1 <= b <= 9,
    ensures
        box_positions(b).len() == 9,
        box_positions(b).no_duplicates(),
        box_positions(b).to_set() == box_block(b),
{
    let s = box_positions(b);
    let fr = box_first_row(b);
    let fc = box_first_col(b);
    assert(1 <= fr <= 7 && 1 <= fc <= 7);
    assert forall|i: int, j: int| 0 <= i < 9 && 0 <= j < 9 && i != j implies s[i] != s[j] by {
        lemma_digit_of(fr + i / 3);
        lemma_digit_of(fc + i % 3);
        lemma_digit_of(fr + j / 3);
        lemma_digit_of(fc + j % 3);
    }
    assert forall|p: Idx| s.to_set().contains(p) <==> box_block(b).contains(p) by {
        if s.to_set().contains(p) {
            let i = choose|i: int| 0 <= i < 9 && s[i] == p;
            lemma_digit_of(fr + i / 3);
            lemma_digit_of(fc + i % 3);
        }
        if box_block(b).contains(p) {
            lemma_digit_val(p.0);
            lemma_digit_val(p.1);
            let i = (p.0.val() - fr) * 3 + (p.1.val() - fc);
            assert(i / 3 == p.0.val() - fr && i % 3 == p.1.val() - fc);
            assert(s[i] == p);
            assert(s.contains(p));
        }
    }
    assert(s.to_set() =~= box_block(b));
}

/// `box_of` sends every cell to a box numbered 1 to 9, and each box receives
/// exactly nine cells, those of its three rows and three columns: the boxes
/// split the grid into nine disjoint groups of nine.
pub proof fn lemma_box_partition(p: Idx, b: int)
    requires
        1 <= b <= 9,
    ensures
        1 <= box_of(p.0.val(), p.1.val()) <= 9,
        box_members(b) == box_block(b),
        box_members(b).finite(),
        box_members(b).len() == 9,
{
    lemma_digit_val(p.0);
    lemma_digit_val(p.1);
    assert forall|q: Idx| box_members(b).contains(q) <==> box_block(b).contains(q) by {
        lemma_digit_val(q.0);
        lemma_digit_val(q.1);
    }
    assert(box_members(b) =~= box_block(b));
    lemma_box_walk(b);
    box_positions(b).unique_seq_to_set();
    assert(box_positions(b).to_set().finite()) by {
        broadcast use vstd::seq_lib::seq_to_set_is_finite;
    }
}

/// A walk over the nine cells of one box, row by row inside the box.
pub struct Square {
    first_row: u8,
    first_col: u8,
    cur: u8,
}

impl Square {
    /// The walk is over a box of the grid and has not run past its ninth cell.
    pub closed spec fn wf(&self) -> bool {
        &&& 1 <= self.first_row <= 7
        &&& (self.first_row - 1) % 3 == 0
        &&& 1 <= self.first_col <= 7
        &&& (self.first_col - 1) % 3 == 0
        &&& self.cur <= 9
    }

    /// The cells that the walk has still to give, in order.
    pub closed spec fn remaining(&self) -> Seq<Idx> {
        Seq::new(
            (9 - self.cur) as nat,
            |i: int| pos_of(self.first_row + (self.cur + i) / 3, self.first_col + (self.cur + i) % 3),
        )
    }

    fn new(num: Digit) -> (r: Square)
        ensures
            r.wf(),
            r.remaining() == box_positions(num.val()),
    {
        let d = num.to_u8() - 1;
        let first_row = (d / 3) * 3 + 1;
        let first_col = (d % 3) * 3 + 1;
        let r = Square { first_row, first_col, cur: 0 };
        assert(r.remaining() =~= box_positions(num.val()));
        r
    }

    /// The next cell of the walk, or `None` once all nine were given.
    pub fn next(&mut self) -> (r: Option<Idx>)
        requires
            old(self).wf(),
        ensures
            final(self).wf(),
            old(self).remaining().len() == 0 ==> r is None && *final(self) == *old(self),
            old(self).remaining().len() > 0 ==> r == Some(old(self).remaining()[0])
                && final(self).remaining() == old(self).remaining().drop_first(),
    {
        if self.cur < 9 {
            let row = self.first_row + self.cur / 3;
            let col = self.first_col + self.cur % 3;
            self.cur += 1;
            assert(self.remaining() =~= old(self).remaining().drop_first());
            Some((digit_from_coord(row), digit_from_coord(col)))
        } else {
            None
        }
    }

    /// The cells that the walk has still to give, in order.
    pub fn collect(self) -> (r: Vec<Idx>)
        requires
            self.wf(),
        ensures
            r@ == self.remaining(),
    {
        let mut walk = self;
        let mut v: Vec<Idx> = Vec::with_capacity(9);
        loop
            invariant
                walk.wf(),
                v@ + walk.remaining() =~= self.remaining(),
            decreases walk.remaining().len(),
        {
            let ghost before = walk.remaining();
            match walk.next() {
                Some(p) => {
                    v.push(p);
                    assert(v@ + walk.remaining() =~= self.remaining()) by {
                        assert(before =~= seq![p] + walk.remaining());
                    }
                },
                None => {
                    assert(v@ =~= self.remaining());
                    return v;
                },
            }
        }
    }
}

/// The digit for a row or column number in 1..=9.
pub(crate) fn digit_from_coord(v: u8) -> (r: Digit)
    requires
        1 <= v <= 9,
    ensures
        r == digit_of(v as int),
{
    match v {
        1 => Digit::D1,
        2 => Digit::D2,
        3 => Digit::D3,
        4 => Digit::D4,
        5 => Digit::D5,
        6 => Digit::D6,
        7 => Digit::D7,
        8 => Digit::D8,
        _ => Digit::D9,
    }
}

} // verus!
