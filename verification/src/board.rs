//! The board and its mathematical model.
use vstd::prelude::*;
use crate::cell::{Cell, Line, Point};

verus! {

/// The rule by which cells of neighbouring rows touch.
#[derive(Clone, Copy, PartialEq, Eq, Debug, Structural)]
pub enum Shape {
    /// Rows are shifted against each other by the difference of their widths.
    Monotonic,
    /// Rows widen down to the row `middle` and narrow below it, or the other
    /// way round.
    Diamond { middle: usize },
}

/// A puzzle: the rows of cells, what was derived from them, and the cursor of
/// the search.
#[derive(Clone, PartialEq, Eq, Debug)]
pub struct Board {
    /// The rows, top to bottom.
    pub board: Vec<Line>,
    /// The values of all clues, in ascending order.
    pub consts: Vec<u8>,
    /// Where the path begins: the clue 1.
    pub start: Point,
    /// Where the path ends: the largest clue.
    pub end: Point,
    /// The index in `consts` of the clue that the path has to meet next.
    pub current_const_index: usize,
    /// The adjacency rule of this board.
    pub shape: Shape,
}

/// The mathematical model of a [`Board`].
pub struct Puzzle {
    /// The rows of cells, top to bottom.
    pub grid: Seq<Seq<Cell>>,
    /// The list of clues.
    pub consts: Seq<u8>,
    /// Where the path begins.
    pub start: Point,
    /// Where the path ends.
    pub end: Point,
    /// The index in `consts` of the clue that the path has to meet next.
    pub index: int,
    /// The adjacency rule.
    pub shape: Shape,
}

/// Whether `p` names a cell of `grid`.
pub open spec fn in_grid(grid: Seq<Seq<Cell>>, p: Point) -> bool {
    p.line < grid.len() && p.col < grid[p.line as int].len()
}

/// The cell of `grid` at `p`.
pub open spec fn cell_at(grid: Seq<Seq<Cell>>, p: Point) -> Cell {
    grid[p.line as int][p.col as int]
}

/// `grid` with the cell at `p` replaced by `c`.
pub open spec fn put(grid: Seq<Seq<Cell>>, p: Point, c: Cell) -> Seq<Seq<Cell>> {
    grid.update(p.line as int, grid[p.line as int].update(p.col as int, c))
}

/// Whether the rows of `grid` and the cells of each row can be counted in a
/// `usize`, as those of every [`Board`] can.
pub open spec fn fits(grid: Seq<Seq<Cell>>) -> bool {
    &&& grid.len() <= usize::MAX
    &&& forall|r: int| 0 <= r < grid.len() ==> (#[trigger] grid[r]).len() <= usize::MAX
}

/// The width of each row of `grid`.
pub open spec fn row_widths(grid: Seq<Seq<Cell>>) -> Seq<usize> {
    Seq::new(grid.len(), |i: int| grid[i].len() as usize)
}

/// Replacing a cell changes neither the widths of the rows nor which points
/// are cells, and no cell but the one replaced.
pub proof fn lemma_put(grid: Seq<Seq<Cell>>, n: Point, c: Cell)
    requires
        in_grid(grid, n),
    ensures
        row_widths(put(grid, n, c)) == row_widths(grid),
        forall|p: Point| in_grid(put(grid, n, c), p) == in_grid(grid, p),
        cell_at(put(grid, n, c), n) == c,
        forall|p: Point|
            in_grid(grid, p) && p != n ==> #[trigger] cell_at(put(grid, n, c), p) == cell_at(
                grid,
                p,
            ),
{
}

/// Writing a cell and then writing back what it held leaves the grid as it was.
pub proof fn lemma_put_back(grid: Seq<Seq<Cell>>, p: Point, c: Cell)
    requires
        in_grid(grid, p),
    ensures
        put(put(grid, p, c), p, cell_at(grid, p)) == grid,
{
    assert(put(put(grid, p, c), p, cell_at(grid, p)) =~~= grid);
}

impl Puzzle {
    /// Whether `p` names a cell of the board.
    pub open spec fn contains(self, p: Point) -> bool {
        in_grid(self.grid, p)
    }

    /// The cell at `p`.
    pub open spec fn cell(self, p: Point) -> Cell {
        cell_at(self.grid, p)
    }

    /// The width of each row.
    pub open spec fn widths(self) -> Seq<usize> {
        row_widths(self.grid)
    }

    /// Whether the board is as it was read: no cell carries a tentative
    /// number, and the cursor stands on the second clue.
    pub open spec fn fresh(self) -> bool {
        &&& self.index == 1
        &&& forall|p: Point| self.contains(p) ==> !((#[trigger] self.cell(p)) is Candidate)
    }
}

impl View for Board {
    type V = Puzzle;

    open spec fn view(&self) -> Puzzle {
        Puzzle {
            grid: Seq::new(self.board.len() as nat, |i: int| self.board[i]@),
            consts: self.consts@,
            start: self.start,
            end: self.end,
            index: self.current_const_index as int,
            shape: self.shape,
        }
    }
}

impl Board {
    /// The rows of a board and the cells of each can be counted in a `usize`.
    pub proof fn lemma_fits(&self)
        ensures
            fits(self@.grid),
    {
        assert forall|r: int| 0 <= r < self@.grid.len() implies (#[trigger] self@.grid[r]).len()
            <= usize::MAX by {
            assert(self.board[r].line.len() <= usize::MAX);
        }
    }

    /// Whether `p` names a cell of the board.
    pub fn contains(&self, p: Point) -> (r: bool)
        ensures
            r == self@.contains(p),
    {
        p.line < self.board.len() && p.col < self.board[p.line].line.len()
    }

    /// Replaces the cell at `p` by `c`.
    pub fn set_cell(&mut self, p: Point, c: Cell)
        requires
            old(self)@.contains(p),
        ensures
            final(self)@ == (Puzzle { grid: put(old(self)@.grid, p, c), ..old(self)@ }),
    {
        self.board[p.line].line[p.col] = c;
        assert(self@.grid =~~= put(old(self)@.grid, p, c));
    }

    /// Whether the board is as it was read: no cell carries a tentative
    /// number, and the cursor stands on the second clue.
    pub fn is_fresh(&self) -> (r: bool)
        ensures
            r == self@.fresh(),
    {
        if self.current_const_index != 1 {
            return false;
        }
        let mut l: usize = 0;
        while l < self.board.len()
            invariant
                l <= self.board.len(),
                forall|p: Point|
                    self@.contains(p) && p.line < l ==> !((#[trigger] self@.cell(p)) is Candidate),
            decreases self.board.len() - l,
        {
            let mut c: usize = 0;
            while c < self.board[l].line.len()
                invariant
                    l < self.board.len(),
                    c <= self.board[l as int].line.len(),
                    forall|p: Point|
                        self@.contains(p) && (p.line < l || (p.line == l && p.col < c)) ==> !((
                        #[trigger] self@.cell(p)) is Candidate),
                decreases self.board[l as int].line.len() - c,
            {
                if let Cell::Candidate(_) = self.board[l].line[c] {
                    assert(self@.cell(Point { line: l, col: c }) is Candidate);
                    return false;
                }
                c += 1;
            }
            l += 1;
        }
        true
    }

    /// The cell at `p`, if the board has one there.
    pub fn cell(&self, p: Point) -> (r: Option<Cell>)
        ensures
            r == (if self@.contains(p) { Some(self@.cell(p)) } else { None }),
    {
        if self.contains(p) {
            Some(self.board[p.line].line[p.col])
        } else {
            None
        }
    }
}

} // verus!
