//! The backtracking search for a numbered path.
//!
//! The path grows one cell at a time. Standing on a cell numbered `v`, it may
//! step onto an empty neighbour, which then carries `v + 1`, as long as
//! `v + 1` stays below the next clue; or onto the neighbour that holds the
//! next clue, if that clue is `v + 1`. It is complete when it stands on the
//! end cell.
use vstd::prelude::*;
use crate::board::{cell_at, lemma_put_back, put, Board, Puzzle};
use crate::cell::{Cell, Point};
use crate::path::{
    lemma_search_exhausted, lemma_search_sound, lemma_solution_is_numbered_path, numbered_path,
    strictly_ascending,
};

verus! {

/// What stands against a search from the start cell.
#[derive(Clone, Copy, PartialEq, Eq, Debug, Structural)]
pub enum PreconditionViolation {
    /// The board is not as it was read: a cell carries a tentative number,
    /// or the cursor does not stand on the second clue.
    Inconsistent,
    /// No cell holds a clue.
    NoClues,
    /// The smallest clue is not 1.
    NoStart,
}

impl Puzzle {
    /// What stands against a search from the start cell, if anything does.
    pub open spec fn violation(self) -> Option<PreconditionViolation> {
        if !self.fresh() {
            Some(PreconditionViolation::Inconsistent)
        } else if self.consts.len() == 0 {
            Some(PreconditionViolation::NoClues)
        } else if self.consts[0] != 1 {
            Some(PreconditionViolation::NoStart)
        } else {
            None
        }
    }

    /// Whether a path that stands on a cell numbered `v` may step onto `n`:
    /// `n` is empty and `v + 1` is below the next clue, or `n` holds the next
    /// clue and that clue is `v + 1`.
    pub open spec fn admits(self, v: int, n: Point) -> bool {
        &&& self.contains(n)
        &&& 0 <= self.index < self.consts.len()
        &&& match self.cell(n) {
            Cell::Empty => v + 1 < self.consts[self.index],
            Cell::Const(w) => v + 1 == w && w == self.consts[self.index],
            _ => false,
        }
    }

    /// The puzzle after a path that stood on a cell numbered `v` has stepped
    /// onto `n`: an empty `n` now carries `v + 1`; a clue is consumed.
    pub open spec fn advance(self, v: int, n: Point) -> Puzzle {
        match self.cell(n) {
            Cell::Empty => Puzzle { grid: put(self.grid, n, Cell::Candidate((v + 1) as u8)), ..self },
            _ => Puzzle { index: self.index + 1, ..self },
        }
    }
}

/// The first walk that the search finds from `cur` to the end cell: the cells
/// stepped onto after `cur`, in order. `None` if the search is exhausted.
///
/// On the end cell the walk is empty. Elsewhere the neighbours of `cur` are
/// tried in their order, and the first that leads to the end cell wins.
pub open spec fn search_from(s: Puzzle, cur: Point) -> Option<Seq<Point>>
    decreases 256 - s.cell(cur).number(), 1int, 0int,
{
    if cur == s.end {
        Some(Seq::empty())
    } else if !s.contains(cur) || !s.cell(cur).is_numbered() {
        None
    } else {
        search_among(s, cur, 0)
    }
}

/// The first walk that the search finds from `cur` to the end cell when only
/// the neighbours of `cur` from the `i`-th on are tried.
pub open spec fn search_among(s: Puzzle, cur: Point, i: int) -> Option<Seq<Point>>
    decreases 256 - s.cell(cur).number(), 0int, s.neighbours(cur).len() - i,
{
    let v = s.cell(cur).number();
    let ns = s.neighbours(cur);
    if i < 0 || i >= ns.len() {
        None
    } else if s.admits(v, ns[i]) {
        match search_from(s.advance(v, ns[i]), ns[i]) {
            Some(w) => Some(seq![ns[i]] + w),
            None => search_among(s, cur, i + 1),
        }
    } else {
        search_among(s, cur, i + 1)
    }
}

/// `grid` after a path that stood on a cell numbered `v` has walked over
/// `walk`: each empty cell of the walk carries its number, `v + 1` for the
/// first, and so on; clues stay as they are.
pub open spec fn mark(grid: Seq<Seq<Cell>>, v: int, walk: Seq<Point>) -> Seq<Seq<Cell>>
    decreases walk.len(),
{
    if walk.len() == 0 {
        grid
    } else {
        let n = walk[0];
        let stamped = if cell_at(grid, n) is Empty {
            put(grid, n, Cell::Candidate((v + 1) as u8))
        } else {
            grid
        };
        mark(stamped, v + 1, walk.drop_first())
    }
}

/// Where the `i`-th neighbour of `cur` is admitted and the search from it
/// succeeds, the search among the neighbours from the `i`-th on finds that
/// neighbour followed by the walk found from it, and marking that walk marks
/// the neighbour and then the rest.
proof fn lemma_step_found(s: Puzzle, cur: Point, i: int)
    requires
        0 <= i < s.neighbours(cur).len(),
        s.admits(s.cell(cur).number(), s.neighbours(cur)[i]),
        search_from(s.advance(s.cell(cur).number(), s.neighbours(cur)[i]), s.neighbours(cur)[i]) is Some,
    ensures
        ({
            let v = s.cell(cur).number();
            let n = s.neighbours(cur)[i];
            let t = s.advance(v, n);
            let w = search_from(t, n)->0;
            &&& search_among(s, cur, i) == Some(seq![n] + w)
            &&& t.cell(n).number() == v + 1
            &&& mark(s.grid, v, seq![n] + w) == mark(t.grid, v + 1, w)
        }),
{
    let v = s.cell(cur).number();
    let n = s.neighbours(cur)[i];
    let t = s.advance(v, n);
    let w = search_from(t, n)->0;
    assert((seq![n] + w).drop_first() =~= w);
}

impl Board {
    /// Searches for a path from `current` to the end cell and reports
    /// whether there is one.
    ///
    /// If there is, the board is left with the first path found written into
    /// it. If there is none, the board is left exactly as it was. The cursor
    /// into the clues is the same after the call as before it, either way.
    pub fn solve(&mut self, current: Point) -> (found: bool)
        ensures
            found == (search_from(old(self)@, current) is Some),
            found ==> old(self)@.leads(current, search_from(old(self)@, current)->0),
            !found ==> forall|walk: Seq<Point>| !old(self)@.leads(current, walk),
            found ==> final(self)@ == (Puzzle {
                grid: mark(
                    old(self)@.grid,
                    old(self)@.cell(current).number(),
                    search_from(old(self)@, current)->0,
                ),
                ..old(self)@
            }),
            !found ==> final(self)@ == old(self)@,
        decreases 256 - old(self)@.cell(current).number(),
    {
        if current == self.end {
            return true;
        }
        let cur_value: u8 = match self.cell(current) {
            Some(Cell::Const(v)) => v,
            Some(Cell::Candidate(v)) => v,
            _ => {
                proof {
                    lemma_search_exhausted(self@, current);
                }
                return false;
            },
        };
        let neighbours = self.find_neighbours(current);
        let ghost s0 = self@;
        let ghost v = cur_value as int;
        let mut i: usize = 0;
        while i < neighbours.len()
            invariant
                i <= neighbours.len(),
                self@ == s0,
                s0 == old(self)@,
                neighbours@ == s0.neighbours(current),
                forall|k: int| 0 <= k < neighbours.len() ==> s0.contains(#[trigger] neighbours[k]),
                s0.contains(current),
                v == cur_value,
                v == s0.cell(current).number(),
                search_from(s0, current) == search_among(s0, current, i as int),
            decreases neighbours.len() - i,
        {
            let n = neighbours[i];
            if self.current_const_index < self.consts.len() {
                let next: u8 = self.consts[self.current_const_index];
                match self.board[n.line].line[n.col] {
                    Cell::Empty => {
                        if cur_value < next && cur_value + 1 < next {
                            self.set_cell(n, Cell::Candidate(cur_value + 1));
                            if self.solve(n) {
                                proof {
                                    lemma_step_found(s0, current, i as int);
                                    lemma_search_sound(s0, current);
                                }
                                return true;
                            }
                            self.set_cell(n, Cell::Empty);
                            proof {
                                lemma_put_back(s0.grid, n, Cell::Candidate((v + 1) as u8));
                            }
                        }
                    },
                    Cell::Const(w) => {
                        if cur_value < w && cur_value + 1 == w && w == next {
                            self.current_const_index += 1;
                            let found = self.solve(n);
                            self.current_const_index -= 1;
                            if found {
                                proof {
                                    lemma_step_found(s0, current, i as int);
                                    lemma_search_sound(s0, current);
                                }
                                return true;
                            }
                        }
                    },
                    _ => {},
                }
            }
            i += 1;
        }
        proof {
            lemma_search_exhausted(s0, current);
        }
        false
    }

    /// Derives the clues, the start cell and the end cell from the cells as
    /// [`Board::find_constants`] does, and searches for a path from the start
    /// cell to the end cell unless something stands against it.
    ///
    /// Fails, and leaves the cells as they were, where a cell carries a
    /// tentative number or the cursor does not stand on the second clue,
    /// where no cell holds a clue, or where the smallest clue is not 1.
    /// Otherwise reports what [`Board::solve`] reports of the start cell and
    /// leaves the board as it does. Where it reports a path and no two cells
    /// hold the same clue, the board then shows a numbered path from the
    /// start cell to the end cell.
    pub fn search_from_start(&mut self) -> (r: Result<bool, PreconditionViolation>)
        ensures
            ({
                let d = Puzzle { grid: old(self)@.grid, ..final(self)@ };
                &&& d.derived()
                &&& d.index == old(self)@.index
                &&& d.shape == old(self)@.shape
                &&& match r {
                    Err(v) => final(self)@ == d && d.violation() == Some(v),
                    Ok(found) => {
                        &&& d.violation() is None
                        &&& found == (search_from(d, d.start) is Some)
                        &&& final(self)@.grid == if found {
                            mark(d.grid, d.cell(d.start).number(), search_from(d, d.start)->0)
                        } else {
                            d.grid
                        }
                        &&& !found ==> forall|walk: Seq<Point>| !d.leads(d.start, walk)
                        &&& found && strictly_ascending(d.consts) ==> numbered_path(
                            d,
                            final(self)@.grid,
                            seq![d.start] + search_from(d, d.start)->0,
                        )
                    },
                }
            }),
    {
        self.find_constants();
        if !self.is_fresh() {
            return Err(PreconditionViolation::Inconsistent);
        }
        if self.consts.len() == 0 {
            return Err(PreconditionViolation::NoClues);
        }
        if self.consts[0] != 1 {
            return Err(PreconditionViolation::NoStart);
        }
        let start = self.start;
        let ghost d = self@;
        let found = self.solve(start);
        proof {
            if found && strictly_ascending(d.consts) {
                old(self).lemma_fits();
                lemma_solution_is_numbered_path(d);
            }
        }
        Ok(found)
    }
}

} // verus!
