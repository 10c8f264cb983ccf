use vstd::prelude::*;

use crate::board::{at, Cells, Sudoku};
use crate::digit::{digit_of, Digit};

verus! {

/// The character that shows digit `d`.
pub open spec fn digit_char(d: Digit) -> char {
    match d {
        Digit::D1 => '1',
        Digit::D2 => '2',
        Digit::D3 => '3',
        Digit::D4 => '4',
        Digit::D5 => '5',
        Digit::D6 => '6',
        Digit::D7 => '7',
        Digit::D8 => '8',
        Digit::D9 => '9',
    }
}

/// The character that shows a cell: its digit, or a blank.
pub open spec fn cell_char(o: Option<Digit>) -> char {
    match o {
        Some(d) => digit_char(d),
        None => ' ',
    }
}

/// The line between bands of three rows: `+-----+-----+-----+` and a newline.
pub open spec fn border() -> Seq<char> {
    Seq::new(20, |i: int| if i == 19 { '\n' } else if i % 6 == 0 { '+' } else { '-' })
}

/// What follows the cell in column `c`: a bar after every third column, else a blank.
pub open spec fn separator(c: int) -> char {
    if c % 3 == 0 {
        '|'
    } else {
        ' '
    }
}

/// The first `n` cells of row `r`, each with what follows it.
pub open spec fn cells_text(b: Cells, r: int, n: int) -> Seq<char>
    decreases n,
{
    if n <= 0 {
        Seq::empty()
    } else {
        cells_text(b, r, n - 1) + seq![cell_char(at(b, (digit_of(r), digit_of(n)))), separator(n)]
    }
}

/// The text of row `r`, with the border that opens its band when it is the
/// first row of the second or third band.
pub open spec fn row_text(b: Cells, r: int) -> Seq<char> {
    let head = if r == 4 || r == 7 {
        border()
    } else {
        Seq::empty()
    };
    head + seq!['|'] + cells_text(b, r, 9) + seq!['\n']
}

/// The text of the first `n` rows.
pub open spec fn rows_text(b: Cells, n: int) -> Seq<char>
    decreases n,
{
    if n <= 0 {
        Seq::empty()
    } else {
        rows_text(b, n - 1) + row_text(b, n)
    }
}

/// The grid as text: nine rows framed by borders, with a border between bands.
pub open spec fn grid_text(b: Cells) -> Seq<char> {
    border() + rows_text(b, 9) + border()
}

/// Relies on `String::from_iter` over chars: the string holds the chars in order.
#[verifier::external_body]
fn string_of(chars: &Vec<char>) -> (r: String)
    ensures
        r@ == chars@,
{
    String::from_iter(chars.iter())
}

/// Appends the border line to `out`.
fn push_border(out: &mut Vec<char>)
    ensures
        final(out)@ == old(out)@ + border(),
{
    let mut i: usize = 0;
    while i < 20
        invariant
            i <= 20,
            out@ == old(out)@ + border().take(i as int),
        decreases 20 - i,
    {
        let ch = if i == 19 {
            '\n'
        } else if i % 6 == 0 {
            '+'
        } else {
            '-'
        };
        out.push(ch);
        assert(border().take(i + 1) =~= border().take(i as int).push(ch));
        i += 1;
    }
    assert(border().take(20) =~= border());
}

impl Digit {
    /// The character that shows this digit.
    pub fn to_char(self) -> (r: char)
        ensures
            r == digit_char(self),
    {
        match self {
            Digit::D1 => '1',
            Digit::D2 => '2',
            Digit::D3 => '3',
            Digit::D4 => '4',
            Digit::D5 => '5',
            Digit::D6 => '6',
            Digit::D7 => '7',
            Digit::D8 => '8',
            Digit::D9 => '9',
        }
    }
}

impl Sudoku {
    /// The grid as text: nine rows framed by borders, with a border between
    /// bands of three rows, a bar after every third column, a blank for an
    /// empty cell.
    pub fn to_string(&self) -> (r: String)
        ensures
            r@ == grid_text(self@),
    {
        let digits = Digit::all();
        let mut out: Vec<char> = Vec::new();
        push_border(&mut out);
        let mut i: usize = 0;
        while i < 9
            invariant
                i <= 9,
                digits@ == crate::digit::all_digits(),
                out@ == border() + rows_text(self@, i as int),
            decreases 9 - i,
        {
            let row = digits[i];
            if i == 3 || i == 6 {
                push_border(&mut out);
            }
            out.push('|');
            let ghost opened = out@;
            let mut j: usize = 0;
            while j < 9
                invariant
                    i < 9,
                    j <= 9,
                    row == digit_of(i + 1),
                    digits@ == crate::digit::all_digits(),
                    out@ == opened + cells_text(self@, i + 1, j as int),
                decreases 9 - j,
            {
                let ch = match self.get((row, digits[j])) {
                    Some(d) => d.to_char(),
                    None => ' ',
                };
                let sep = if (j + 1) % 3 == 0 {
                    '|'
                } else {
                    ' '
                };
                out.push(ch);
                out.push(sep);
                assert(out@ =~= opened + cells_text(self@, i + 1, j + 1));
                j += 1;
            }
            out.push('\n');
            assert(out@ =~= border() + rows_text(self@, i + 1));
            i += 1;
        }
        push_border(&mut out);
        string_of(&out)
    }
}

} // verus!
