//! The cells of a board, their positions and the rows that hold them.
use vstd::prelude::*;

verus! {

/// What one place of the board currently holds.
#[derive(Clone, Copy, PartialEq, Eq, Debug, Structural)]
pub enum Cell {
    /// Not visited and not numbered.
    Empty,
    /// Never part of a path.
    Hole,
    /// A fixed clue: the path must carry exactly this number here.
    Const(u8),
    /// A number placed tentatively while searching.
    Candidate(u8),
}

/// A place on a board: the index of its row and its index within that row.
#[derive(Clone, Copy, PartialEq, Eq, Debug, Structural)]
pub struct Point {
    pub line: usize,
    pub col: usize,
}

/// One row of a board.
#[derive(Clone, PartialEq, Eq, Debug)]
pub struct Line {
    pub line: Vec<Cell>,
}

impl View for Line {
    type V = Seq<Cell>;

    open spec fn view(&self) -> Seq<Cell> {
        self.line@
    }
}

impl Cell {
    /// Whether the cell carries a number, fixed or tentative.
    pub open spec fn is_numbered(self) -> bool {
        self is Const || self is Candidate
    }

    /// The number a cell carries; 0 for a cell that carries none.
    pub open spec fn number(self) -> int {
        match self {
            Cell::Const(v) => v as int,
            Cell::Candidate(v) => v as int,
            _ => 0,
        }
    }

    /// The number a cell carries, if it carries one.
    pub fn value(&self) -> (r: Option<u8>)
        ensures
            r is Some <==> self.is_numbered(),
            r is Some ==> r->0 as int == self.number(),
    {
        match self {
            Cell::Const(v) => Some(*v),
            Cell::Candidate(v) => Some(*v),
            _ => None,
        }
    }
}

} // verus!
