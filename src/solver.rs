use vstd::prelude::*;
use vstd::relations::injective_on;
use vstd::set_lib::{
    lemma_int_range, lemma_len_subset, lemma_map_size, lemma_subset_equality, set_int_range,
};

use crate::board::{
    at, blocked, candidates, cell_index, empty_positions, lemma_candidates_upto, lemma_empties_from,
    lemma_index_pos, sees, Cells, Move, MoveError, Sudoku,
};
use crate::digit::{lemma_digit_of, lemma_digit_val, pos_of, Digit, Idx};

verus! {

/// Cell `p` of `b` holds a digit that no other cell of its row, column or box holds.
pub open spec fn consistent_at(b: Cells, p: Idx) -> bool {
    match at(b, p) {
        Some(d) => forall|q: Idx| q != p && #[trigger] sees(q, p) ==> at(b, q) != Some(d),
        None => false,
    }
}

/// Every cell of `b` holds a digit.
pub open spec fn complete(b: Cells) -> bool {
    forall|p: Idx| #[trigger] at(b, p) is Some
}

/// No two cells of one row, column or box of `b` hold the same digit.
pub open spec fn no_conflict(b: Cells) -> bool {
    forall|p: Idx, q: Idx|
        p != q && #[trigger] sees(q, p) && at(b, p) is Some ==> at(b, q) != #[trigger] at(b, p)
}

/// `t` fills every cell, keeps each digit of `b`, and each digit that it adds
/// clashes with no other cell of its row, column or box.
pub open spec fn completes(t: Cells, b: Cells) -> bool {
    &&& t.len() == 81
    &&& complete(t)
    &&& forall|p: Idx| #[trigger] at(b, p) is Some ==> at(t, p) == at(b, p)
    &&& forall|p: Idx| #[trigger] at(b, p) is None ==> consistent_at(t, p)
}

/// The search state: the board, the empty positions of the puzzle in the
/// order they are filled, the positions filled so far, for each of them the
/// offset of the candidate it holds, and the offset to try next.
struct Solution {
    sudoku: Sudoku,
    empty_indices: Vec<Idx>,
    moves: Vec<Idx>,
    path: Vec<usize>,
    next_move: usize,
    start: Ghost<Cells>,
}

impl Solution {
    spec fn depth(&self) -> int {
        self.moves@.len() as int
    }

    spec fn wf(&self) -> bool {
        let b = self.sudoku@;
        let e = self.empty_indices@;
        &&& self.start@.len() == 81
        &&& b.len() == 81
        &&& e == empty_positions(self.start@)
        &&& self.moves@.len() <= e.len()
        &&& self.path@.len() == self.moves@.len()
        &&& forall|i: int| 0 <= i < self.moves@.len() ==> #[trigger] self.moves@[i] == e[i]
        &&& forall|i: int| 0 <= i < self.path@.len() ==> #[trigger] self.path@[i] < 9
        &&& self.next_move <= 9
        &&& forall|p: Idx| #[trigger] at(self.start@, p) is Some ==> at(b, p) == at(self.start@, p)
        &&& forall|i: int|
            0 <= i < e.len() ==> (at(b, #[trigger] e[i]) is Some <==> i < self.moves@.len())
        &&& forall|i: int| 0 <= i < self.moves@.len() ==> consistent_at(b, #[trigger] e[i])
    }

    /// Commits `m` at the next empty position, where its digit is allowed there.
    fn push_move(&mut self, m: Move) -> (r: Result<(), MoveError>)
        requires
            old(self).wf(),
            old(self).depth() < old(self).empty_indices@.len(),
            m.0 == old(self).empty_indices@[old(self).depth()],
            old(self).next_move < 9,
        ensures
            final(self).start == old(self).start,
            final(self).empty_indices@ == old(self).empty_indices@,
            blocked(old(self).sudoku@, m.0, m.1) ==> r == Err::<(), MoveError>(MoveError::Invalid)
                && final(self).sudoku@ == old(self).sudoku@ && final(self).moves@ == old(
                self,
            ).moves@ && final(self).path@ == old(self).path@ && final(self).next_move == old(
                self,
            ).next_move,
            !blocked(old(self).sudoku@, m.0, m.1) ==> r == Ok::<(), MoveError>(())
                && final(self).sudoku@ == old(self).sudoku@.update(cell_index(m.0), Some(m.1))
                && final(self).moves@ == old(self).moves@.push(m.0) && final(self).path@ == old(
                self,
            ).path@.push(old(self).next_move) && final(self).next_move == 0,
            final(self).wf(),
    {
        let ghost e = self.empty_indices@;
        let ghost n = self.depth();
        let ghost b = self.sudoku@;
        proof {
            lemma_empties_from(self.start@, 0);
        }
        match self.sudoku.play(m) {
            Ok(()) => {},
            Err(err) => {
                return Err(err);
            },
        }
        self.moves.push(m.pos());
        self.path.push(self.next_move);
        self.next_move = 0;
        proof {
            let b2 = self.sudoku@;
            assert forall|i: int| 0 <= i < e.len() implies (at(b2, #[trigger] e[i]) is Some <==> i
                < self.moves@.len()) by {
                lemma_index_pos(0, e[i]);
                lemma_index_pos(0, e[n]);
                if i != n {
                    assert(cell_index(e[i]) != cell_index(e[n]));
                }
            }
            assert forall|i: int| 0 <= i < self.moves@.len() implies consistent_at(
                b2,
                #[trigger] e[i],
            ) by {
                lemma_index_pos(0, e[i]);
                if i == n {
                    assert forall|q: Idx| q != e[n] && #[trigger] sees(q, e[n]) implies at(b2, q)
                        != Some(m.1) by {
                        lemma_index_pos(0, q);
                        lemma_index_pos(0, e[n]);
                        assert(at(b2, q) == at(b, q));
                    }
                } else {
                    assert(cell_index(e[i]) != cell_index(e[n]));
                    let d = at(b, e[i])->Some_0;
                    assert(at(b2, e[i]) == Some(d));
                    assert forall|q: Idx| q != e[i] && #[trigger] sees(q, e[i]) implies at(b2, q)
                        != Some(d) by {
                        lemma_index_pos(0, q);
                        lemma_index_pos(0, e[n]);
                        if q == e[n] {
                            assert(sees(e[i], e[n]));
                        } else {
                            assert(at(b2, q) == at(b, q));
                        }
                    }
                }
            }
            assert forall|p: Idx| #[trigger] at(self.start@, p) is Some implies at(b2, p) == at(
                self.start@,
                p,
            ) by {
                lemma_index_pos(0, p);
                lemma_index_pos(0, e[n]);
                if p == e[n] {
                    assert(empty_positions(self.start@)[n] == p);
                }
            }
        }
        Ok(())
    }

    /// Undoes the last commit: its cell is emptied again, and the next offset
    /// to try is the one after the offset that the commit used.
    fn pop_move(&mut self) -> (r: Option<Move>)
        requires
            old(self).wf(),
        ensures
            final(self).wf(),
            final(self).start == old(self).start,
            final(self).empty_indices@ == old(self).empty_indices@,
            old(self).depth() == 0 ==> r is None && final(self).sudoku@ == old(self).sudoku@
                && final(self).moves@ == old(self).moves@ && final(self).path@ == old(
                self,
            ).path@,
            old(self).depth() > 0 ==> r == Some(
                Move(
                    old(self).moves@.last(),
                    at(old(self).sudoku@, old(self).moves@.last())->Some_0,
                ),
            ) && final(self).sudoku@ == old(self).sudoku@.update(
                cell_index(old(self).moves@.last()),
                None,
            ) && final(self).moves@ == old(self).moves@.drop_last() && final(self).path@ == old(
                self,
            ).path@.drop_last() && final(self).next_move == old(self).path@.last() + 1,
    {
        let ghost e = self.empty_indices@;
        let ghost n = self.depth();
        let ghost b = self.sudoku@;
        if let Some(i) = self.moves.pop() {
            proof {
                lemma_empties_from(self.start@, 0);
                assert(i == e[n - 1]);
            }
            let d = match self.sudoku.take(i) {
                Some(d) => d,
                None => {
                    proof {
                        assert(at(b, e[n - 1]) is Some);
                    }
                    return None;
                },
            };
            let m = Move(i, d);
            let last = match self.path.pop() {
                Some(k) => k,
                None => {
                    return None;
                },
            };
            self.next_move = last + 1;
            proof {
                let b2 = self.sudoku@;
                assert forall|j: int| 0 <= j < e.len() implies (at(b2, #[trigger] e[j]) is Some
                    <==> j < self.moves@.len()) by {
                    lemma_index_pos(0, e[j]);
                    lemma_index_pos(0, e[n - 1]);
                    if j != n - 1 {
                        assert(cell_index(e[j]) != cell_index(e[n - 1]));
                    }
                }
                assert forall|j: int| 0 <= j < self.moves@.len() implies consistent_at(
                    b2,
                    #[trigger] e[j],
                ) by {
                    lemma_index_pos(0, e[j]);
                    lemma_index_pos(0, e[n - 1]);
                    assert(cell_index(e[j]) != cell_index(e[n - 1]));
                    assert(consistent_at(b, e[j]));
                    let dj = at(b, e[j])->Some_0;
                    assert forall|q: Idx| q != e[j] && #[trigger] sees(q, e[j]) implies at(b2, q)
                        != Some(dj) by {
                        lemma_index_pos(0, q);
                        if q != e[n - 1] {
                            assert(at(b2, q) == at(b, q));
                        }
                    }
                }
                assert forall|p: Idx| #[trigger] at(self.start@, p) is Some implies at(b2, p)
                    == at(self.start@, p) by {
                    lemma_index_pos(0, p);
                    lemma_index_pos(0, e[n - 1]);
                    if p == e[n - 1] {
                        assert(empty_positions(self.start@)[n - 1] == p);
                    }
                }
            }
            Some(m)
        } else {
            None
        }
    }

    /// The position to fill next, if any is left.
    fn next_empty_index(&self) -> (r: Option<Idx>)
        requires
            self.wf(),
        ensures
            self.depth() < self.empty_indices@.len() ==> r == Some(
                self.empty_indices@[self.depth()],
            ),
            self.depth() == self.empty_indices@.len() ==> r is None,
    {
        let n = self.moves.len();
        if n < self.empty_indices.len() {
            Some(self.empty_indices[n])
        } else {
            None
        }
    }

    /// The candidate at `idx` at the offset to try next, counted from the
    /// largest digit down.
    fn next_possible_move(&self, idx: Idx) -> (r: Option<Move>)
        ensures
            ({
                let c = candidates(self.sudoku@, idx);
                &&& self.next_move < c.len() ==> r == Some(
                    Move(idx, c[c.len() - 1 - self.next_move]),
                )
                &&& self.next_move >= c.len() ==> r is None
            }),
    {
        self.sudoku.possible_moves(idx).nth(self.next_move)
    }
}

/// Watches the board while the search runs; told of the board before each attempt.
pub trait Observer {
    fn observe(&mut self, board: &Sudoku);
}

/// An observer that ignores what it is shown.
pub struct Quiet;

impl Observer for Quiet {
    fn observe(&mut self, _board: &Sudoku) {
    }
}

/// A digit that a completion of `b` writes into an empty cell `p` is allowed
/// there by `b`, so it is among the candidates of `p`.
proof fn lemma_completion_candidate(t: Cells, b: Cells, p: Idx)
    requires
        b.len() == 81,
        completes(t, b),
        at(b, p) is None,
    ensures
        at(t, p) is Some,
        candidates(b, p).contains(at(t, p)->Some_0),
{
    let d = at(t, p)->Some_0;
    assert(at(t, p) is Some);
    assert(consistent_at(t, p));
    if blocked(b, p, d) {
        let q = choose|q: Idx| sees(q, p) && at(b, q) == Some(d);
        assert(at(t, q) == Some(d));
        assert(q != p);
    }
    lemma_digit_val(d);
    lemma_candidates_upto(b, p, 9, d);
}

/// A completion of `b` that writes `d` into the empty cell `p` is a
/// completion of `b` with `d` at `p`.
proof fn lemma_completion_step(t: Cells, b: Cells, p: Idx, d: Digit)
    requires
        b.len() == 81,
        completes(t, b),
        at(b, p) is None,
        at(t, p) == Some(d),
    ensures
        completes(t, b.update(cell_index(p), Some(d))),
{
    let b1 = b.update(cell_index(p), Some(d));
    lemma_index_pos(0, p);
    assert forall|q: Idx| #[trigger] at(b1, q) is Some implies at(t, q) == at(b1, q) by {
        lemma_index_pos(0, q);
        if q != p {
            assert(cell_index(q) != cell_index(p));
            assert(at(b1, q) == at(b, q));
        }
    }
    assert forall|q: Idx| #[trigger] at(b1, q) is None implies consistent_at(t, q) by {
        lemma_index_pos(0, q);
        if q != p {
            assert(cell_index(q) != cell_index(p));
            assert(at(b1, q) == at(b, q));
        }
    }
}

/// No board completes `b`.
#[verifier::opaque]
spec fn no_completion(b: Cells) -> bool {
    forall|t: Cells| !completes(t, b)
}

/// Where every candidate of the empty cell `p` is ruled out for every
/// completion of `b`, `b` has no completion.
proof fn lemma_no_completion(b: Cells, p: Idx)
    requires
        b.len() == 81,
        at(b, p) is None,
        forall|t: Cells|
            completes(t, b) ==> !candidates(b, p).contains(#[trigger] at(t, p)->Some_0),
    ensures
        no_completion(b),
{
    reveal(no_completion);
    assert forall|t: Cells| !completes(t, b) by {
        if completes(t, b) {
            lemma_completion_candidate(t, b, p);
        }
    }
}

/// Fills the positions from the current depth on, trying at the current
/// depth the candidates from the current offset on. On success every empty
/// position of the puzzle is filled; on failure the board and the stacks are
/// as they were, and no completion of the board exists.
fn solve_r<O: Observer>(sol: &mut Solution, obs: &mut O) -> (r: bool)
    requires
        old(sol).wf(),
        old(sol).depth() < old(sol).empty_indices@.len(),
        old(sol).next_move == 0,
    ensures
        final(sol).wf(),
        final(sol).start@ == old(sol).start@,
        final(sol).empty_indices@ == old(sol).empty_indices@,
        r ==> final(sol).depth() == final(sol).empty_indices@.len(),
        !r ==> final(sol).sudoku@ == old(sol).sudoku@ && final(sol).moves@ == old(sol).moves@
            && final(sol).path@ == old(sol).path@,
        !r ==> no_completion(old(sol).sudoku@),
    decreases old(sol).empty_indices@.len() - old(sol).depth(),
{
    let ghost b0 = sol.sudoku@;
    let ghost m0 = sol.moves@;
    let ghost p0 = sol.path@;
    let ghost st = sol.start@;
    let ghost e = sol.empty_indices@;
    let ghost n = sol.depth();
    let ghost target = e[n];
    let ghost c = candidates(b0, target);
    proof {
        lemma_candidates_upto(b0, target, 9, Digit::D1);
        assert(at(b0, target) is None);
        assert(c.subrange(c.len() as int, c.len() as int).len() == 0);
    }
    loop
        invariant
            sol.wf(),
            sol.start@ == st,
            sol.empty_indices@ == e,
            st == old(sol).start@,
            e == old(sol).empty_indices@,
            b0 == old(sol).sudoku@,
            m0 == old(sol).moves@,
            p0 == old(sol).path@,
            sol.sudoku@ == b0,
            sol.moves@ == m0,
            sol.path@ == p0,
            n == m0.len(),
            n < e.len(),
            target == e[n],
            c == candidates(b0, target),
            c.len() <= 9,
            at(b0, target) is None,
            sol.next_move <= c.len(),
            forall|t: Cells|
                completes(t, b0) ==> !c.subrange(
                    c.len() - sol.next_move,
                    c.len() as int,
                ).contains(#[trigger] at(t, target)->Some_0),
        decreases 9 - sol.next_move,
    {
        obs.observe(&sol.sudoku);
        let idx = match sol.next_empty_index() {
            Some(idx) => idx,
            None => {
                return false;
            },
        };
        let m = match sol.next_possible_move(idx) {
            Some(m) => m,
            None => {
                proof {
                    assert(c.subrange(0, c.len() as int) =~= c);
                    lemma_no_completion(b0, target);
                }
                return false;
            },
        };
        let ghost k = sol.next_move;
        let ghost d = m.1;
        proof {
            assert(c.contains(d));
            lemma_candidates_upto(b0, target, 9, d);
        }
        let pushed = sol.push_move(m);
        assert(pushed is Ok);
        if sol.moves.len() < sol.empty_indices.len() {
            if solve_r(sol, obs) {
                return true;
            }
            let _ = sol.pop_move();
            proof {
                let b1 = b0.update(cell_index(target), Some(d));
                assert(sol.sudoku@ =~= b0) by {
                    lemma_index_pos(0, target);
                }
                assert(sol.moves@ =~= m0);
                assert(sol.path@ =~= p0);
                let tried = c.subrange(c.len() - (k + 1), c.len() as int);
                let before = c.subrange(c.len() - k, c.len() as int);
                assert(tried =~= seq![d] + before);
                assert forall|t: Cells| completes(t, b0) implies !tried.contains(
                    #[trigger] at(t, target)->Some_0,
                ) by {
                    lemma_completion_candidate(t, b0, target);
                    if at(t, target)->Some_0 == d {
                        lemma_completion_step(t, b0, target, d);
                        reveal(no_completion);
                        assert(!completes(t, b1));
                    }
                    if tried.contains(at(t, target)->Some_0) && at(t, target)->Some_0 != d {
                        let j = choose|j: int|
                            0 <= j < tried.len() && tried[j] == at(t, target)->Some_0;
                        assert(before[j - 1] == at(t, target)->Some_0);
                    }
                }
            }
        } else {
            return true;
        }
    }
}

/// Solves `sudoku`, telling `obs` of the board before each attempt.
///
/// The result is a completion of the puzzle when one exists: every cell
/// filled, the given digits kept, and no digit that the search wrote shared
/// with another cell of its row, column or box; `None` when none exists. A
/// puzzle with no empty cell is returned as it is, with no search.
pub fn solve_observed<O: Observer>(sudoku: Sudoku, obs: &mut O) -> (r: Option<Sudoku>)
    ensures
        r is Some <==> exists|t: Cells| completes(t, sudoku@),
        r is Some ==> completes(r->Some_0@, sudoku@),
        empty_positions(sudoku@).len() == 0 ==> r is Some && r->Some_0@ == sudoku@,
        r is Some && no_conflict(sudoku@) ==> no_conflict(r->Some_0@),
{
    proof {
        broadcast use vstd::array::group_array_axioms;

        assert(sudoku@.len() == 81);
        lemma_empties_from(sudoku@, 0);
    }
    let empty_indices = sudoku.empty_indices().collect();
    if empty_indices.len() == 0 {
        proof {
            assert forall|p: Idx| #[trigger] at(sudoku@, p) is Some by {
                lemma_index_pos(0, p);
                if at(sudoku@, p) is None {
                    assert(empty_positions(sudoku@).contains(p));
                }
            }
            assert(completes(sudoku@, sudoku@));
            lemma_completion_is_valid(sudoku@, sudoku@);
        }
        return Some(sudoku);
    }
    let ghost start = sudoku@;
    let mut solution = Solution {
        sudoku,
        empty_indices,
        moves: Vec::new(),
        path: Vec::new(),
        next_move: 0,
        start: Ghost(start),
    };
    let solved = solve_r(&mut solution, obs);
    proof {
        reveal(no_completion);
    }
    if solved {
        proof {
            let b = solution.sudoku@;
            let e = solution.empty_indices@;
            assert forall|p: Idx| #[trigger] at(start, p) is None implies at(b, p) is Some
                && consistent_at(b, p) by {
                lemma_index_pos(0, p);
                assert(e.contains(p));
                let i = choose|i: int| 0 <= i < e.len() && e[i] == p;
                assert(at(b, e[i]) is Some);
                assert(consistent_at(b, e[i]));
            }
            assert forall|p: Idx| #[trigger] at(b, p) is Some by {
                if at(start, p) is Some {
                    assert(at(b, p) == at(start, p));
                }
            }
            assert(completes(b, start));
            lemma_completion_is_valid(b, start);
        }
        Some(solution.sudoku)
    } else {
        None
    }
}

/// Solves `sudoku`; see `solve_observed`.
pub fn solve(sudoku: Sudoku) -> (r: Option<Sudoku>)
    ensures
        r is Some <==> exists|t: Cells| completes(t, sudoku@),
        r is Some ==> completes(r->Some_0@, sudoku@),
        empty_positions(sudoku@).len() == 0 ==> r is Some && r->Some_0@ == sudoku@,
        r is Some && no_conflict(sudoku@) ==> no_conflict(r->Some_0@),
{
    let mut quiet = Quiet;
    solve_observed(sudoku, &mut quiet)
}

/// A completion of a puzzle whose given digits do not clash is a solved
/// grid: every cell filled, the given digits kept, and no digit twice in any
/// row, column or box.
pub proof fn lemma_completion_is_valid(t: Cells, b: Cells)
    requires
        completes(t, b),
    ensures
        no_conflict(b) ==> no_conflict(t),
{
    if no_conflict(b) {
        assert forall|p: Idx, q: Idx|
            p != q && #[trigger] sees(q, p) && at(t, p) is Some implies at(t, q) != #[trigger] at(
            t,
            p,
        ) by {
            if at(b, p) is None {
                assert(consistent_at(t, p));
            } else if at(b, q) is None {
                assert(consistent_at(t, q));
                assert(sees(p, q));
            } else {
                assert(at(b, q) != at(b, p));
            }
        }
    }
}

/// Some cell of row `r` of `t` holds `d`.
spec fn row_holds(t: Cells, r: int, d: Digit) -> bool {
    exists|c: int| 1 <= c <= 9 && at(t, pos_of(r, c)) == Some(d)
}

/// A map from `0..n` into `lo..hi` that sends distinct points to distinct
/// values needs `n <= hi - lo`, and when `n == hi - lo` it reaches every value.
proof fn lemma_pigeonhole(f: spec_fn(int) -> int, n: int, lo: int, hi: int)
    requires
        0 <= n,
        lo <= hi,
        forall|i: int| 0 <= i < n ==> lo <= #[trigger] f(i) < hi,
        forall|i: int, j: int| 0 <= i < n && 0 <= j < n && i != j ==> #[trigger] f(i) != #[trigger] f(j),
    ensures
        n <= hi - lo,
        n == hi - lo ==> set_int_range(0, n).map(f) == set_int_range(lo, hi),
{
    let x = set_int_range(0, n);
    let range = set_int_range(lo, hi);
    lemma_int_range(0, n);
    lemma_int_range(lo, hi);
    let y = x.map(f);
    assert(injective_on(f, x));
    lemma_map_size(x, y, f);
    assert(y.subset_of(range));
    lemma_len_subset(y, range);
    if n == hi - lo {
        lemma_subset_equality(y, range);
    }
}

/// In a completion of `b`, two cells of one column hold different digits
/// where the given digits of that column differ, and likewise for a row.
proof fn lemma_completion_line(t: Cells, b: Cells, p: Idx, q: Idx)
    requires
        completes(t, b),
        p != q,
        p.0 == q.0 || p.1 == q.1,
        at(b, p) is Some && at(b, q) is Some ==> at(b, p) != at(b, q),
    ensures
        at(t, p) != at(t, q),
{
    if at(b, p) is None {
        assert(consistent_at(t, p));
        assert(sees(q, p));
    } else if at(b, q) is None {
        assert(consistent_at(t, q));
        assert(sees(p, q));
    }
}

/// A row whose completed cells hold pairwise different digits holds every digit.
proof fn lemma_full_row_has_digit(t: Cells, r: int, d: Digit)
    requires
        1 <= r <= 9,
        forall|p: Idx| #[trigger] at(t, p) is Some,
        forall|i: int, j: int|
            1 <= i <= 9 && 1 <= j <= 9 && i != j ==> at(t, pos_of(r, i)) != at(t, pos_of(r, j)),
    ensures
        exists|c: int| 1 <= c <= 9 && at(t, pos_of(r, c)) == Some(d),
{
    let f = |i: int| at(t, pos_of(r, i + 1))->Some_0.val();
    assert forall|i: int| 0 <= i < 9 implies 1 <= #[trigger] f(i) <= 9 by {
        lemma_digit_val(at(t, pos_of(r, i + 1))->Some_0);
    }
    assert forall|i: int, j: int| 0 <= i < 9 && 0 <= j < 9 && i != j implies #[trigger] f(i)
        != #[trigger] f(j) by {
        let a = at(t, pos_of(r, i + 1))->Some_0;
        let c = at(t, pos_of(r, j + 1))->Some_0;
        assert(at(t, pos_of(r, i + 1)) != at(t, pos_of(r, j + 1)));
        lemma_digit_val(a);
        lemma_digit_val(c);
    }
    lemma_pigeonhole(f, 9, 1, 10);
    lemma_digit_val(d);
    assert(set_int_range(1, 10).contains(d.val()));
    assert(set_int_range(0, 9).map(f).contains(d.val()));
    let i = choose|i: int| set_int_range(0, 9).contains(i) && f(i) == d.val();
    lemma_digit_val(at(t, pos_of(r, i + 1))->Some_0);
    assert(at(t, pos_of(r, i + 1)) == Some(d));
}

/// A puzzle with the same digit given twice in one row has no completion,
/// when no column and no other row is given the same digit twice.
pub proof fn lemma_row_clash_unsolvable(b: Cells, p1: Idx, p2: Idx)
    requires
        b.len() == 81,
        p1 != p2,
        p1.0 == p2.0,
        at(b, p1) is Some,
        at(b, p1) == at(b, p2),
        forall|p: Idx, q: Idx|
            p != q && p.1 == q.1 && #[trigger] at(b, p) is Some && #[trigger] at(b, q) is Some
                ==> at(b, p) != at(b, q),
        forall|p: Idx, q: Idx|
            p != q && p.0 == q.0 && p.0 != p1.0 && #[trigger] at(b, p) is Some
                && #[trigger] at(b, q) is Some ==> at(b, p) != at(b, q),
    ensures
        forall|t: Cells| !completes(t, b),
{
    assert forall|t: Cells| !completes(t, b) by {
        lemma_row_clash_no_completion(t, b, p1, p2);
    }
}

proof fn lemma_row_clash_no_completion(t: Cells, b: Cells, p1: Idx, p2: Idx)
    requires
        b.len() == 81,
        p1 != p2,
        p1.0 == p2.0,
        at(b, p1) is Some,
        at(b, p1) == at(b, p2),
        forall|p: Idx, q: Idx|
            p != q && p.1 == q.1 && #[trigger] at(b, p) is Some && #[trigger] at(b, q) is Some
                ==> at(b, p) != at(b, q),
        forall|p: Idx, q: Idx|
            p != q && p.0 == q.0 && p.0 != p1.0 && #[trigger] at(b, p) is Some
                && #[trigger] at(b, q) is Some ==> at(b, p) != at(b, q),
    ensures
        !completes(t, b),
{
    if completes(t, b) {
        let d = at(b, p1)->Some_0;
        let rr = p1.0.val();
        lemma_digit_val(p1.0);
        lemma_digit_val(p1.1);
        lemma_digit_val(p2.1);
        assert(at(t, p1) == Some(d) && at(t, p2) == Some(d));
        // each other row holds `d` somewhere
        assert forall|r: int| 1 <= r <= 9 && r != rr implies #[trigger] row_holds(t, r, d) by {
            assert forall|i: int, j: int| 1 <= i <= 9 && 1 <= j <= 9 && i != j implies at(
                t,
                pos_of(r, i),
            ) != at(t, pos_of(r, j)) by {
                lemma_digit_of(r);
                lemma_digit_of(i);
                lemma_digit_of(j);
                lemma_completion_line(t, b, pos_of(r, i), pos_of(r, j));
            }
            lemma_full_row_has_digit(t, r, d);
        }
        let col_of = |r: int| choose|c: int| 1 <= c <= 9 && at(t, pos_of(r, c)) == Some(d);
        // a cell holding `d` for each of the ten: the other eight rows, and both clashing cells
        let row_at = |i: int| if i == 9 { rr } else { i + 1 };
        let g = |i: int|
            if i == 9 {
                p2.1.val()
            } else if i + 1 == rr {
                p1.1.val()
            } else {
                col_of(i + 1)
            };
        assert forall|i: int| 0 <= i < 10 implies 1 <= #[trigger] g(i) < 10 && at(
            t,
            pos_of(row_at(i), g(i)),
        ) == Some(d) by {
            if i == 9 {
                assert(pos_of(rr, p2.1.val()) == p2);
            } else if i + 1 == rr {
                assert(pos_of(rr, p1.1.val()) == p1);
            } else {
                assert(row_holds(t, i + 1, d));
            }
        }
        assert forall|i: int, j: int| 0 <= i < 10 && 0 <= j < 10 && i != j implies #[trigger] g(i)
            != #[trigger] g(j) by {
            if g(i) == g(j) {
                let p = pos_of(row_at(i), g(i));
                let q = pos_of(row_at(j), g(j));
                lemma_digit_of(row_at(i));
                lemma_digit_of(row_at(j));
                lemma_digit_of(g(i));
                if row_at(i) == row_at(j) {
                    // one is the row of the clash at `p2`, the other at `p1`
                    assert(p1.1 != p2.1) by {
                        assert(p1.0 == p2.0);
                    }
                } else {
                    assert(p != q);
                    assert(at(t, p) == Some(d) && at(t, q) == Some(d));
                    lemma_completion_line(t, b, p, q);
                }
            }
        }
        lemma_pigeonhole(g, 10, 1, 10);
    }
}

} // verus!
