//! Writing a board as text.
//!
//! Each cell takes a field of its own: an empty cell is ` __ `, a hole is
//! ` xx `, and a numbered cell is its number in at least two decimal digits
//! between two spaces. Each row ends its line.
use vstd::prelude::*;
use vstd::string::*;
use crate::board::Board;
use crate::cell::{Cell, Line};

verus! {

/// The character that writes the decimal digit `d`.
pub open spec fn digit(d: int) -> char {
    if d == 0 {
        '0'
    } else if d == 1 {
        '1'
    } else if d == 2 {
        '2'
    } else if d == 3 {
        '3'
    } else if d == 4 {
        '4'
    } else if d == 5 {
        '5'
    } else if d == 6 {
        '6'
    } else if d == 7 {
        '7'
    } else if d == 8 {
        '8'
    } else {
        '9'
    }
}

/// The number `v` in decimal, with a 0 before a single digit.
pub open spec fn rendered_number(v: u8) -> Seq<char> {
    if v < 100 {
        seq![digit(v as int / 10), digit(v as int % 10)]
    } else {
        seq![digit(v as int / 100), digit(v as int / 10 % 10), digit(v as int % 10)]
    }
}

/// The text of one cell.
pub open spec fn rendered_cell(c: Cell) -> Seq<char> {
    match c {
        Cell::Empty => seq![' ', '_', '_', ' '],
        Cell::Hole => seq![' ', 'x', 'x', ' '],
        Cell::Const(v) => seq![' '] + rendered_number(v) + seq![' '],
        Cell::Candidate(v) => seq![' '] + rendered_number(v) + seq![' '],
    }
}

/// The text of the cells of a row, one after the other.
pub open spec fn rendered_cells(row: Seq<Cell>) -> Seq<char>
    decreases row.len(),
{
    if row.len() == 0 {
        Seq::empty()
    } else {
        rendered_cells(row.drop_last()) + rendered_cell(row.last())
    }
}

/// The spaces before a row that is indented by `indent`: one less than
/// `indent`, and none for an `indent` below 2.
pub open spec fn margin(indent: i32) -> Seq<char> {
    Seq::new(
        if indent > 1 {
            (indent - 1) as nat
        } else {
            0
        },
        |i: int| ' ',
    )
}

/// The line of text of a row: its margin, its cells, and the end of the
/// line.
pub open spec fn rendered_line(row: Seq<Cell>, indent: i32) -> Seq<char> {
    margin(indent) + rendered_cells(row) + seq!['\n']
}

/// The text of a board: the lines of its rows, top to bottom, none indented.
pub open spec fn rendered_board(grid: Seq<Seq<Cell>>) -> Seq<char>
    decreases grid.len(),
{
    if grid.len() == 0 {
        Seq::empty()
    } else {
        rendered_board(grid.drop_last()) + rendered_line(grid.last(), 0)
    }
}

/// The text of the decimal digit `d`.
fn digit_str(d: u8) -> (r: &'static str)
    requires
        d < 10,
    ensures
        r@ == seq![digit(d as int)],
{
    proof {
        reveal_strlit("0");
        reveal_strlit("1");
        reveal_strlit("2");
        reveal_strlit("3");
        reveal_strlit("4");
        reveal_strlit("5");
        reveal_strlit("6");
        reveal_strlit("7");
        reveal_strlit("8");
        reveal_strlit("9");
    }
    let r = if d == 0 {
        "0"
    } else if d == 1 {
        "1"
    } else if d == 2 {
        "2"
    } else if d == 3 {
        "3"
    } else if d == 4 {
        "4"
    } else if d == 5 {
        "5"
    } else if d == 6 {
        "6"
    } else if d == 7 {
        "7"
    } else if d == 8 {
        "8"
    } else {
        "9"
    };
    r
}

impl Cell {
    /// The text of the cell.
    pub fn render(&self) -> (r: String)
        ensures
            r@ == rendered_cell(*self),
    {
        proof {
            reveal_strlit(" __ ");
            reveal_strlit(" xx ");
            reveal_strlit(" ");
        }
        match self {
            Cell::Empty => {
                let r = String::from_str(" __ ");
                r
            },
            Cell::Hole => {
                let r = String::from_str(" xx ");
                r
            },
            Cell::Const(v) | Cell::Candidate(v) => {
                let v: u8 = *v;
                let mut r = String::from_str(" ");
                if v >= 100 {
                    r.append(digit_str(v / 100));
                }
                r.append(digit_str(v / 10 % 10));
                r.append(digit_str(v % 10));
                r.append(" ");
                r
            },
        }
    }
}

impl Line {
    /// The line of text of the row, indented by `indent`.
    pub fn print(&self, indent: i32) -> (r: String)
        ensures
            r@ == rendered_line(self@, indent),
    {
        proof {
            reveal_strlit(" ");
            reveal_strlit("\n");
        }
        let mut r = String::new();
        let mut i: i32 = 1;
        while i < indent
            invariant
                1 <= i,
                i <= indent || i == 1,
                r@ == margin(i),
                " "@ == seq![' '],
            decreases indent - i,
        {
            r.append(" ");
            i += 1;
        }
        let mut k: usize = 0;
        while k < self.line.len()
            invariant
                k <= self.line.len(),
                r@ == margin(indent) + rendered_cells(self@.take(k as int)),
            decreases self.line.len() - k,
        {
            let text = self.line[k].render();
            r.append(text.as_str());
            assert(self@.take(k + 1).drop_last() =~= self@.take(k as int));
            k += 1;
        }
        assert(self@.take(k as int) =~= self@);
        r.append("\n");
        r
    }
}

impl Board {
    /// The text of the board, one line per row.
    pub fn print(&self) -> (r: String)
        ensures
            r@ == rendered_board(self@.grid),
    {
        let indent: i32 = 0;
        let mut r = String::new();
        let mut l: usize = 0;
        while l < self.board.len()
            invariant
                l <= self.board.len(),
                indent == 0,
                r@ == rendered_board(self@.grid.take(l as int)),
            decreases self.board.len() - l,
        {
            let text = self.board[l].print(indent);
            r.append(text.as_str());
            assert(self@.grid.take(l + 1).drop_last() =~= self@.grid.take(l as int));
            l += 1;
        }
        assert(self@.grid.take(l as int) =~= self@.grid);
        r
    }
}

} // verus!
