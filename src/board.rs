use vstd::prelude::*;

use crate::digit::{
    all_digits, box_members, box_of, box_positions, col_positions, digit_from_coord, digit_of,
    lemma_box_partition, lemma_box_walk, lemma_digit_of, lemma_digit_val, pos_of, row_positions,
    Digit, Idx, U8ToDigitConversionError,
};

verus! {

/// The cells of a board, row by row.
pub type Cells = Seq<Option<Digit>>;

/// The cell that the value `v` stands for: 0 for empty, else its digit.
pub open spec fn value_cell(v: u8) -> Option<Digit> {
    if v == 0 {
        None
    } else {
        Some(digit_of(v as int))
    }
}

/// The place of position `p` among the 81 cells, row by row.
pub open spec fn cell_index(p: Idx) -> int {
    (p.0.val() - 1) * 9 + (p.1.val() - 1)
}

/// What the board `b` holds at position `p`.
pub open spec fn at(b: Cells, p: Idx) -> Option<Digit> {
    b[cell_index(p)]
}

/// The digits among `s`, in order, the empty cells left out.
pub open spec fn present(s: Cells) -> Seq<Digit>
    decreases s.len(),
{
    if s.len() == 0 {
        Seq::empty()
    } else {
        let rest = present(s.drop_last());
        match s.last() {
            Some(d) => rest.push(d),
            None => rest,
        }
    }
}

/// What the board `b` holds at each of the positions `ps`.
pub open spec fn cells_at(b: Cells, ps: Seq<Idx>) -> Cells {
    Seq::new(ps.len(), |i: int| at(b, ps[i]))
}

/// The digits in row `r`, from column 1 to 9.
pub open spec fn row_digits(b: Cells, r: Digit) -> Seq<Digit> {
    present(cells_at(b, row_positions(r)))
}

/// The digits in column `c`, from row 1 to 9.
pub open spec fn col_digits(b: Cells, c: Digit) -> Seq<Digit> {
    present(cells_at(b, col_positions(c)))
}

/// The digits in box `n`, row by row inside the box.
pub open spec fn box_digits(b: Cells, n: Digit) -> Seq<Digit> {
    present(cells_at(b, box_positions(n.val())))
}

/// Position `q` shares a row, a column or a box with position `p`.
pub open spec fn sees(q: Idx, p: Idx) -> bool {
    q.0 == p.0 || q.1 == p.1 || box_of(q.0.val(), q.1.val()) == box_of(p.0.val(), p.1.val())
}

/// Digit `d` already stands in the row, the column or the box of `p`.
pub open spec fn blocked(b: Cells, p: Idx, d: Digit) -> bool {
    exists|q: Idx| sees(q, p) && at(b, q) == Some(d)
}

/// The digits of value at most `n` that `b` allows at `p`, in increasing order.
pub open spec fn candidates_upto(b: Cells, p: Idx, n: nat) -> Seq<Digit>
    decreases n,
{
    if n == 0 {
        Seq::empty()
    } else {
        let prev = candidates_upto(b, p, (n - 1) as nat);
        if blocked(b, p, digit_of(n as int)) {
            prev
        } else {
            prev.push(digit_of(n as int))
        }
    }
}

/// The digits that `b` allows at `p`, in increasing order.
pub open spec fn candidates(b: Cells, p: Idx) -> Seq<Digit> {
    candidates_upto(b, p, 9)
}

/// A digit is among the digits of `s` exactly when some cell of `s` holds it.
pub proof fn lemma_present_contains(s: Cells, d: Digit)
    ensures
        present(s).contains(d) <==> exists|i: int| 0 <= i < s.len() && s[i] == Some(d),
    decreases s.len(),
{
    if s.len() > 0 {
        let t = s.drop_last();
        lemma_present_contains(t, d);
        if present(s).contains(d) {
            if present(t).contains(d) {
                let i = choose|i: int| 0 <= i < t.len() && t[i] == Some(d);
                assert(s[i] == Some(d));
            } else {
                assert(s[s.len() - 1] == Some(d));
            }
        }
        if exists|i: int| 0 <= i < s.len() && s[i] == Some(d) {
            let i = choose|i: int| 0 <= i < s.len() && s[i] == Some(d);
            if i < s.len() - 1 {
                assert(t[i] == Some(d));
                assert(present(t).contains(d));
                let j = choose|j: int| 0 <= j < present(t).len() && present(t)[j] == d;
                match s.last() {
                    Some(e) => assert(present(s)[j] == d),
                    None => {},
                }
            } else {
                assert(present(s).last() == d);
            }
        }
    }
}

/// A digit is in the row, the column or the box of `p` exactly when it is
/// among the digits that the row, column and box walks of `p` find.
pub proof fn lemma_blocked_by_lines(b: Cells, p: Idx, d: Digit)
    ensures
        blocked(b, p, d) <==> row_digits(b, p.0).contains(d) || col_digits(b, p.1).contains(d)
            || box_digits(b, digit_of(box_of(p.0.val(), p.1.val()))).contains(d),
{
    let bx = box_of(p.0.val(), p.1.val());
    lemma_digit_val(p.0);
    lemma_digit_val(p.1);
    lemma_box_partition(p, bx);
    lemma_box_walk(bx);
    lemma_digit_of(bx);
    let rc = cells_at(b, row_positions(p.0));
    let cc = cells_at(b, col_positions(p.1));
    let bc = cells_at(b, box_positions(bx));
    lemma_present_contains(rc, d);
    lemma_present_contains(cc, d);
    lemma_present_contains(bc, d);
    if blocked(b, p, d) {
        let q = choose|q: Idx| sees(q, p) && at(b, q) == Some(d);
        lemma_digit_val(q.0);
        lemma_digit_val(q.1);
        if q.0 == p.0 {
            assert(rc[q.1.val() - 1] == Some(d));
        } else if q.1 == p.1 {
            assert(cc[q.0.val() - 1] == Some(d));
        } else {
            assert(box_members(bx).contains(q));
            assert(box_positions(bx).to_set().contains(q));
            let i = choose|i: int| 0 <= i < 9 && box_positions(bx)[i] == q;
            assert(bc[i] == Some(d));
        }
    }
    if row_digits(b, p.0).contains(d) {
        let i = choose|i: int| 0 <= i < rc.len() && rc[i] == Some(d);
        let q = row_positions(p.0)[i];
        assert(sees(q, p) && at(b, q) == Some(d));
    }
    if col_digits(b, p.1).contains(d) {
        let i = choose|i: int| 0 <= i < cc.len() && cc[i] == Some(d);
        let q = col_positions(p.1)[i];
        assert(sees(q, p) && at(b, q) == Some(d));
    }
    if box_digits(b, digit_of(bx)).contains(d) {
        let i = choose|i: int| 0 <= i < bc.len() && bc[i] == Some(d);
        let q = box_positions(bx)[i];
        assert(box_positions(bx).to_set().contains(q));
        assert(box_members(bx).contains(q));
        assert(sees(q, p) && at(b, q) == Some(d));
    }
}

/// The candidates up to `n` are at most `n`, and a digit is among them exactly
/// when its value is at most `n` and nothing blocks it at `p`.
pub proof fn lemma_candidates_upto(b: Cells, p: Idx, n: nat, d: Digit)
    requires
        n <= 9,
    ensures
        candidates_upto(b, p, n).len() <= n,
        candidates_upto(b, p, n).contains(d) <==> d.val() <= n && !blocked(b, p, d),
    decreases n,
{
    lemma_digit_val(d);
    if n > 0 {
        lemma_candidates_upto(b, p, (n - 1) as nat, d);
        lemma_digit_of(n as int);
        let prev = candidates_upto(b, p, (n - 1) as nat);
        if !blocked(b, p, digit_of(n as int)) {
            if prev.contains(d) {
                let j = choose|j: int| 0 <= j < prev.len() && prev[j] == d;
                assert(candidates_upto(b, p, n)[j] == d);
            }
            if d.val() == n && !blocked(b, p, d) {
                assert(candidates_upto(b, p, n)[prev.len() as int] == d);
            }
        }
    }
}

/// The position of the cell at place `k` (0..81), row by row.
pub open spec fn index_pos(k: int) -> Idx {
    pos_of(k / 9 + 1, k % 9 + 1)
}

/// The empty positions among the cells from place `k` on, row by row.
pub open spec fn empties_from(b: Cells, k: int) -> Seq<Idx>
    decreases 81 - k,
{
    if k < 0 || k >= 81 {
        Seq::empty()
    } else {
        let rest = empties_from(b, k + 1);
        if b[k] is None {
            seq![index_pos(k)] + rest
        } else {
            rest
        }
    }
}

/// The empty positions of `b`, row by row.
pub open spec fn empty_positions(b: Cells) -> Seq<Idx> {
    empties_from(b, 0)
}

/// Places and positions correspond one to one.
pub proof fn lemma_index_pos(k: int, p: Idx)
    ensures
        0 <= k < 81 ==> cell_index(index_pos(k)) == k,
        0 <= cell_index(p) < 81,
        index_pos(cell_index(p)) == p,
{
    lemma_digit_val(p.0);
    lemma_digit_val(p.1);
    if 0 <= k < 81 {
        lemma_digit_of(k / 9 + 1);
        lemma_digit_of(k % 9 + 1);
    }
    let c = cell_index(p);
    assert(c / 9 == p.0.val() - 1 && c % 9 == p.1.val() - 1);
}

/// The empty positions from place `k` on are exactly the empty cells there,
/// in increasing order of place.
pub proof fn lemma_empties_from(b: Cells, k: int)
    requires
        b.len() == 81,
        0 <= k <= 81,
    ensures
        forall|i: int|
            #![trigger empties_from(b, k)[i]]
            0 <= i < empties_from(b, k).len() ==> k <= cell_index(empties_from(b, k)[i]) < 81
                && at(b, empties_from(b, k)[i]) is None,
        forall|i: int, j: int|
            #![trigger empties_from(b, k)[i], empties_from(b, k)[j]]
            0 <= i < j < empties_from(b, k).len() ==> cell_index(empties_from(b, k)[i])
                < cell_index(empties_from(b, k)[j]),
        forall|p: Idx|
            at(b, p) is None && k <= cell_index(p) ==> #[trigger] empties_from(b, k).contains(p),
    decreases 81 - k,
{
    if k < 81 {
        lemma_empties_from(b, k + 1);
        lemma_index_pos(k, index_pos(k));
        let e = empties_from(b, k);
        let rest = empties_from(b, k + 1);
        assert forall|p: Idx| at(b, p) is None && k <= cell_index(p) implies e.contains(p) by {
            lemma_index_pos(k, p);
            if cell_index(p) == k {
                assert(e[0] == p);
            } else {
                assert(rest.contains(p));
                let i = choose|i: int| 0 <= i < rest.len() && rest[i] == p;
                if b[k] is None {
                    assert(e[i + 1] == p);
                } else {
                    assert(e[i] == p);
                }
            }
        }
    }
}

/// The candidates of `p` depend on the cells of its row, column and box
/// alone: two boards that agree there give the same candidates, in the same
/// order. In particular the same board always gives the same candidates.
pub proof fn lemma_candidates_local(b1: Cells, b2: Cells, p: Idx)
    requires
        forall|q: Idx| #[trigger] sees(q, p) ==> at(b1, q) == at(b2, q),
    ensures
        candidates(b1, p) == candidates(b2, p),
{
    assert forall|d: Digit| blocked(b1, p, d) == blocked(b2, p, d) by {
        if blocked(b1, p, d) {
            let q = choose|q: Idx| sees(q, p) && at(b1, q) == Some(d);
            assert(sees(q, p) && at(b2, q) == Some(d));
        }
        if blocked(b2, p, d) {
            let q = choose|q: Idx| sees(q, p) && at(b2, q) == Some(d);
            assert(sees(q, p) && at(b1, q) == Some(d));
        }
    }
    lemma_candidates_upto_local(b1, b2, p, 9);
}

proof fn lemma_candidates_upto_local(b1: Cells, b2: Cells, p: Idx, n: nat)
    requires
        forall|d: Digit| blocked(b1, p, d) == blocked(b2, p, d),
    ensures
        candidates_upto(b1, p, n) == candidates_upto(b2, p, n),
    decreases n,
{
    if n > 0 {
        lemma_candidates_upto_local(b1, b2, p, (n - 1) as nat);
    }
}

/// Committing a digit into an empty cell and then emptying that cell again
/// gives back the board as it was, cell for cell.
pub proof fn lemma_commit_undo(b: Cells, p: Idx, d: Digit)
    requires
        b.len() == 81,
        at(b, p) is None,
    ensures
        b.update(cell_index(p), Some(d)).update(cell_index(p), None) == b,
{
    lemma_index_pos(0, p);
    assert(b.update(cell_index(p), Some(d)).update(cell_index(p), None) =~= b);
}

/// An assignment of a digit to a position.
#[derive(Clone, Copy, Debug, PartialEq, Eq)]
pub struct Move(pub Idx, pub Digit);

/// Why a move was refused.
#[derive(Clone, Copy, Debug, PartialEq, Eq, Structural)]
pub enum MoveError {
    /// The digit already stands in the row, the column or the box.
    Invalid,
    /// The cell already holds a digit.
    NonEmpty,
}

/// A 9x9 grid of cells, each empty or holding a digit, row by row.
pub struct Sudoku(pub [Option<Digit>; 81]);

impl View for Sudoku {
    type V = Cells;

    open spec fn view(&self) -> Cells {
        self.0@
    }
}

impl From<(Idx, Digit)> for Move {
    fn from(m: (Idx, Digit)) -> (r: Move)
        ensures
            r == Move(m.0, m.1),
    {
        Move(m.0, m.1)
    }
}

impl vstd::std_specs::convert::FromSpecImpl<(Idx, Digit)> for Move {
    open spec fn obeys_from_spec() -> bool {
        true
    }

    open spec fn from_spec(m: (Idx, Digit)) -> Move {
        Move(m.0, m.1)
    }
}

impl Move {
    pub fn pos(&self) -> (r: Idx)
        ensures
            r == self.0,
    {
        self.0
    }

    pub fn digit(&self) -> (r: Digit)
        ensures
            r == self.1,
    {
        self.1
    }
}

impl Default for Sudoku {
    fn default() -> (r: Sudoku)
        ensures
            r@ == Seq::new(81, |k: int| None::<Digit>),
    {
        let cells: [Option<Digit>; 81] = vstd::array::array_fill_for_copy_types(None);
        let r = Sudoku(cells);
        assert(r@ =~= Seq::new(81, |k: int| None::<Digit>)) by {
            broadcast use vstd::array::group_array_axioms;

        }
        r
    }
}

/// The place of `p` among the 81 cells.
fn index_of(p: Idx) -> (r: usize)
    ensures
        r == cell_index(p),
        r < 81,
{
    let row = (p.0.to_u8() - 1) as usize;
    let col = (p.1.to_u8() - 1) as usize;
    row * 9 + col
}

impl Sudoku {
    pub fn new(array: [Option<Digit>; 81]) -> (r: Sudoku)
        ensures
            r@ == array@,
    {
        Sudoku(array)
    }

    /// The board whose cells hold `values`, row by row: 0 for an empty cell,
    /// 1 to 9 for a digit. A value above 9 is refused, the first one met.
    pub fn from_values(values: &[u8; 81]) -> (r: Result<Sudoku, U8ToDigitConversionError>)
        ensures
            r is Ok <==> forall|k: int| 0 <= k < 81 ==> values@[k] <= 9,
            r is Ok ==> forall|k: int| 0 <= k < 81 ==> r->Ok_0@[k] == value_cell(values@[k]),
            r is Err ==> exists|k: int|
                0 <= k < 81 && values@[k] > 9 && (forall|j: int| 0 <= j < k ==> values@[j] <= 9)
                    && r->Err_0 == U8ToDigitConversionError(values@[k]),
    {
        broadcast use vstd::array::group_array_axioms;

        let mut cells: [Option<Digit>; 81] = vstd::array::array_fill_for_copy_types(None);
        let mut k: usize = 0;
        while k < 81
            invariant
                k <= 81,
                cells@.len() == 81,
                values@.len() == 81,
                forall|j: int| 0 <= j < k ==> values@[j] <= 9,
                forall|j: int| 0 <= j < k ==> cells@[j] == value_cell(values@[j]),
            decreases 81 - k,
        {
            let v = values[k];
            if v == 0 {
                cells[k] = None;
            } else {
                match Digit::from_u8(v) {
                    Ok(d) => {
                        cells[k] = Some(d);
                    },
                    Err(e) => {
                        return Err(e);
                    },
                }
            }
            k += 1;
        }
        Ok(Sudoku(cells))
    }

    /// What the cell at `idx` holds.
    pub fn get(&self, idx: Idx) -> (r: Option<Digit>)
        ensures
            r == at(self@, idx),
    {
        self.0[index_of(idx)]
    }

    /// Writes `v` into the cell at `idx`, whatever it held.
    pub fn set(&mut self, idx: Idx, v: Option<Digit>)
        ensures
            final(self)@ == old(self)@.update(cell_index(idx), v),
    {
        let k = index_of(idx);
        self.0[k] = v;
    }

    /// Empties the cell at `idx` and returns what it held.
    pub fn take(&mut self, idx: Idx) -> (r: Option<Digit>)
        ensures
            r == at(old(self)@, idx),
            final(self)@ == old(self)@.update(cell_index(idx), None),
    {
        let r = self.get(idx);
        self.set(idx, None);
        r
    }

    /// The digits of the cells at `ps`, in order, the empty cells left out.
    fn digits_at(&self, ps: &Vec<Idx>) -> (r: Vec<Digit>)
        ensures
            r@ == present(cells_at(self@, ps@)),
    {
        let mut v: Vec<Digit> = Vec::with_capacity(9);
        let mut i: usize = 0;
        while i < ps.len()
            invariant
                i <= ps@.len(),
                v@ == present(cells_at(self@, ps@).take(i as int)),
            decreases ps@.len() - i,
        {
            assert(cells_at(self@, ps@).take(i + 1).drop_last() =~= cells_at(self@, ps@).take(
                i as int,
            ));
            if let Some(d) = self.get(ps[i]) {
                v.push(d);
            }
            i += 1;
        }
        assert(cells_at(self@, ps@).take(ps@.len() as int) =~= cells_at(self@, ps@));
        v
    }

    /// The digits in row `num`, from column 1 to 9.
    pub fn row(&self, num: Digit) -> (r: Vec<Digit>)
        ensures
            r@ == row_digits(self@, num),
    {
        self.digits_at(&num.row())
    }

    /// The digits in column `num`, from row 1 to 9.
    pub fn col(&self, num: Digit) -> (r: Vec<Digit>)
        ensures
            r@ == col_digits(self@, num),
    {
        self.digits_at(&num.col())
    }

    /// The digits in box `num`, row by row inside the box.
    pub fn square(&self, num: Digit) -> (r: Vec<Digit>)
        ensures
            r@ == box_digits(self@, num),
    {
        self.digits_at(&num.square().collect())
    }
}


/// Whether `d` is among `v`.
fn contains_digit(v: &Vec<Digit>, d: Digit) -> (r: bool)
    ensures
        r == v@.contains(d),
{
    let mut i: usize = 0;
    while i < v.len()
        invariant
            i <= v@.len(),
            forall|j: int| 0 <= j < i ==> v@[j] != d,
        decreases v@.len() - i,
    {
        if v[i] == d {
            return true;
        }
        i += 1;
    }
    false
}

/// Appends to `a` each digit of `src` that `a` does not hold yet.
fn add_distinct(a: &mut Vec<Digit>, src: &Vec<Digit>)
    ensures
        forall|d: Digit|
            #![trigger final(a)@.contains(d)]
            final(a)@.contains(d) <==> old(a)@.contains(d) || src@.contains(d),
{
    let mut i: usize = 0;
    while i < src.len()
        invariant
            i <= src@.len(),
            forall|d: Digit|
                a@.contains(d) <==> old(a)@.contains(d) || src@.take(i as int).contains(d),
        decreases src@.len() - i,
    {
        let d = src[i];
        let ghost before = a@;
        if !contains_digit(a, d) {
            a.push(d);
        }
        proof {
            assert(src@.take(i + 1) =~= src@.take(i as int).push(d));
            assert forall|e: Digit|
                a@.contains(e) <==> old(a)@.contains(e) || src@.take(i + 1).contains(e) by {
                if a@.contains(e) && !before.contains(e) {
                    assert(e == d);
                    assert(src@.take(i + 1)[i as int] == d);
                }
                if before.contains(e) {
                    let j = choose|j: int| 0 <= j < before.len() && before[j] == e;
                    assert(a@[j] == e);
                }
                if src@.take(i + 1).contains(e) && !src@.take(i as int).contains(e) {
                    let t = src@.take(i + 1);
                    let j = choose|j: int| 0 <= j < t.len() && t[j] == e;
                    if j < i {
                        assert(src@.take(i as int)[j] == e);
                    }
                    assert(e == d);
                    if !before.contains(d) {
                        assert(a@[a@.len() - 1] == d);
                    }
                }
            }
        }
        i += 1;
    }
    assert(src@.take(src@.len() as int) =~= src@);
}

/// The digits still to be offered at one position, given from the largest down.
pub struct PossibleMoves {
    idx: Idx,
    f: Vec<Digit>,
}

impl PossibleMoves {
    /// The position the moves are for.
    pub closed spec fn target(&self) -> Idx {
        self.idx
    }

    /// The digits still to be offered, in increasing order; they are given from the end.
    pub closed spec fn pending(&self) -> Seq<Digit> {
        self.f@
    }

    fn new(sudoku: &Sudoku, idx: Idx) -> (r: PossibleMoves)
        ensures
            r.target() == idx,
            r.pending() == candidates(sudoku@, idx),
    {
        let (row, col) = idx;
        let mut a: Vec<Digit> = Vec::with_capacity(9);
        let ghost a0 = a@;
        let rd = sudoku.row(row);
        add_distinct(&mut a, &rd);
        let ghost a1 = a@;
        let cd = sudoku.col(col);
        add_distinct(&mut a, &cd);
        let ghost a2 = a@;
        let sq = Digit::square_of(row, col);
        let sd = sudoku.square(sq);
        add_distinct(&mut a, &sd);
        proof {
            lemma_digit_val(sq);
            assert forall|d: Digit| a@.contains(d) <==> blocked(sudoku@, idx, d) by {
                lemma_blocked_by_lines(sudoku@, idx, d);
                assert(!a0.contains(d));
                assert(a1.contains(d) <==> rd@.contains(d));
                assert(a2.contains(d) <==> a1.contains(d) || cd@.contains(d));
            }
        }
        let all = Digit::all();
        let mut f: Vec<Digit> = Vec::with_capacity(9);
        let mut i: usize = 0;
        while i < 9
            invariant
                i <= 9,
                all@ == all_digits(),
                forall|d: Digit| a@.contains(d) <==> blocked(sudoku@, idx, d),
                f@ == candidates_upto(sudoku@, idx, i as nat),
            decreases 9 - i,
        {
            proof {
                lemma_blocked_by_lines(sudoku@, idx, all@[i as int]);
            }
            if !contains_digit(&a, all[i]) {
                f.push(all[i]);
            }
            i += 1;
        }
        PossibleMoves { idx, f }
    }

    /// The next move, with the largest digit not yet offered, or `None` when all were offered.
    pub fn next(&mut self) -> (r: Option<Move>)
        ensures
            final(self).target() == old(self).target(),
            old(self).pending().len() == 0 ==> r is None && final(self).pending() == old(
                self,
            ).pending(),
            old(self).pending().len() > 0 ==> r == Some(
                Move(old(self).target(), old(self).pending().last()),
            ) && final(self).pending() == old(self).pending().drop_last(),
    {
        match self.f.pop() {
            Some(d) => Some(Move(self.idx, d)),
            None => None,
        }
    }

    /// The move that `n` calls of `next` would pass over before giving it.
    pub fn nth(self, n: usize) -> (r: Option<Move>)
        ensures
            n < self.pending().len() ==> r == Some(
                Move(self.target(), self.pending()[self.pending().len() - 1 - n]),
            ),
            n >= self.pending().len() ==> r is None,
    {
        if n < self.f.len() {
            Some(Move(self.idx, self.f[self.f.len() - 1 - n]))
        } else {
            None
        }
    }

    /// Whether `d` is still to be offered.
    pub fn contains(&self, d: Digit) -> (r: bool)
        ensures
            r == self.pending().contains(d),
    {
        contains_digit(&self.f, d)
    }
}

impl Sudoku {
    /// The moves allowed at `idx`: the digits that stand neither in its row,
    /// nor in its column, nor in its box.
    pub fn possible_moves(&self, idx: Idx) -> (r: PossibleMoves)
        ensures
            r.target() == idx,
            r.pending() == candidates(self@, idx),
    {
        PossibleMoves::new(self, idx)
    }

    /// Writes the move's digit into its cell, where the cell is empty and the
    /// digit stands neither in its row, nor in its column, nor in its box.
    pub fn play(&mut self, m: Move) -> (r: Result<(), MoveError>)
        ensures
            at(old(self)@, m.0) is Some ==> r == Err::<(), MoveError>(MoveError::NonEmpty)
                && final(self)@ == old(self)@,
            at(old(self)@, m.0) is None && blocked(old(self)@, m.0, m.1) ==> r == Err::<
                (),
                MoveError,
            >(MoveError::Invalid) && final(self)@ == old(self)@,
            at(old(self)@, m.0) is None && !blocked(old(self)@, m.0, m.1) ==> r == Ok::<
                (),
                MoveError,
            >(()) && final(self)@ == old(self)@.update(cell_index(m.0), Some(m.1)),
    {
        let Move(idx, digit) = m;
        if self.get(idx).is_some() {
            Err(MoveError::NonEmpty)
        } else {
            let moves = self.possible_moves(idx);
            proof {
                lemma_candidates_upto(self@, idx, 9, digit);
                lemma_digit_val(digit);
            }
            if !moves.contains(digit) {
                Err(MoveError::Invalid)
            } else {
                self.set(idx, Some(digit));
                Ok(())
            }
        }
    }
}

/// A walk over the empty positions of a board, row by row.
pub struct EmptyIndices<'s> {
    sudoku: &'s Sudoku,
    row: u8,
    col: u8,
}

impl<'s> EmptyIndices<'s> {
    /// The place of the cursor among the 81 cells; 81 once past the last one.
    closed spec fn place(&self) -> int {
        (self.row - 1) * 9 + (self.col - 1)
    }

    /// The cursor stands on a cell, or just past the last one.
    pub closed spec fn wf(&self) -> bool {
        &&& 1 <= self.row <= 10
        &&& 1 <= self.col <= 9
        &&& self.row == 10 ==> self.col == 1
    }

    /// The empty positions that the walk has still to give, in order.
    pub closed spec fn remaining(&self) -> Seq<Idx> {
        empties_from(self.sudoku@, self.place())
    }

    fn new(sudoku: &'s Sudoku) -> (r: EmptyIndices<'s>)
        ensures
            r.wf(),
            r.remaining() == empty_positions(sudoku@),
    {
        EmptyIndices { sudoku, row: 1, col: 1 }
    }

    /// The position under the cursor, which then moves one cell on.
    fn next_idx(&mut self) -> (r: Option<Idx>)
        requires
            old(self).wf(),
        ensures
            final(self).wf(),
            final(self).sudoku == old(self).sudoku,
            old(self).place() < 81 ==> r == Some(index_pos(old(self).place()))
                && final(self).place() == old(self).place() + 1,
            old(self).place() == 81 ==> r is None && final(self).place() == 81,
    {
        if self.row > 9 {
            return None;
        }
        let next = (digit_from_coord(self.row), digit_from_coord(self.col));
        proof {
            lemma_digit_of(self.row as int);
            lemma_digit_of(self.col as int);
            lemma_index_pos(self.place(), next);
        }
        if self.col < 9 {
            self.col += 1;
        } else {
            self.col = 1;
            self.row += 1;
        }
        Some(next)
    }

    /// The next empty position, or `None` once all were given.
    pub fn next(&mut self) -> (r: Option<Idx>)
        requires
            old(self).wf(),
        ensures
            final(self).wf(),
            old(self).remaining().len() == 0 ==> r is None && final(self).remaining().len() == 0,
            old(self).remaining().len() > 0 ==> r == Some(old(self).remaining()[0])
                && final(self).remaining() == old(self).remaining().drop_first(),
    {
        loop
            invariant
                self.wf(),
                self.sudoku == old(self).sudoku,
                self.remaining() == old(self).remaining(),
            decreases 81 - self.place(),
        {
            let ghost k = self.place();
            match self.next_idx() {
                None => {
                    return None;
                },
                Some(idx) => {
                    proof {
                        lemma_index_pos(k, idx);
                    }
                    if self.sudoku.get(idx).is_none() {
                        assert(self.remaining() =~= old(self).remaining().drop_first());
                        return Some(idx);
                    }
                },
            }
        }
    }

    /// How many empty positions the walk has still to give.
    pub fn count(self) -> (r: usize)
        requires
            self.wf(),
        ensures
            r == self.remaining().len(),
    {
        let mut walk = self;
        let mut n: usize = 0;
        proof {
            lemma_empties_len(self.sudoku@, self.place());
        }
        loop
            invariant
                walk.wf(),
                n + walk.remaining().len() == self.remaining().len(),
                self.remaining().len() <= 81,
            decreases walk.remaining().len(),
        {
            match walk.next() {
                None => {
                    return n;
                },
                Some(_) => {
                    n += 1;
                },
            }
        }
    }

    /// The empty positions that the walk has still to give, in order.
    pub fn collect(self) -> (r: Vec<Idx>)
        requires
            self.wf(),
        ensures
            r@ == self.remaining(),
    {
        let mut walk = self;
        let mut v: Vec<Idx> = Vec::new();
        loop
            invariant
                walk.wf(),
                v@ + walk.remaining() =~= self.remaining(),
            decreases walk.remaining().len(),
        {
            let ghost before = walk.remaining();
            match walk.next() {
                None => {
                    assert(v@ =~= self.remaining());
                    return v;
                },
                Some(p) => {
                    v.push(p);
                    assert(v@ + walk.remaining() =~= self.remaining()) by {
                        assert(before =~= seq![p] + walk.remaining());
                    }
                },
            }
        }
    }
}

/// There are at most as many empty positions from place `k` on as there are cells.
pub proof fn lemma_empties_len(b: Cells, k: int)
    requires
        0 <= k <= 81,
    ensures
        empties_from(b, k).len() <= 81 - k,
    decreases 81 - k,
{
    if k < 81 {
        lemma_empties_len(b, k + 1);
    }
}

impl Sudoku {
    /// A walk over the empty positions of the board, row by row.
    pub fn empty_indices(&self) -> (r: EmptyIndices<'_>)
        ensures
            r.wf(),
            r.remaining() == empty_positions(self@),
    {
        EmptyIndices::new(self)
    }
}

} // verus!
