//! Which cells of a board touch which.
//!
//! Adjacency depends only on the widths of the rows and on the board's
//! [`Shape`], never on what the cells hold. Neighbours are listed in a fixed
//! order: those in the row above, those in the row below, then the cell to the
//! left and the cell to the right.
use vstd::prelude::*;
use crate::board::{Board, Puzzle, Shape};
use crate::cell::Point;

verus! {

/// The columns of a neighbouring row of width `adj_size` that touch column
/// `cur_col` of a row of width `cur_size`: the same column, then the column
/// shifted by the difference of the widths, each if the neighbouring row has
/// it.
pub open spec fn adjacent_columns(cur_size: usize, adj_size: usize, cur_col: usize) -> Seq<usize> {
    let shifted = cur_col - (cur_size - adj_size);
    let same: Seq<usize> = if cur_col < adj_size {
        seq![cur_col]
    } else {
        seq![]
    };
    let other: Seq<usize> = if 0 <= shifted < adj_size {
        seq![shifted as usize]
    } else {
        seq![]
    };
    same + other
}

/// The points of row `line` at the columns `cols`.
pub open spec fn in_line(line: usize, cols: Seq<usize>) -> Seq<Point> {
    Seq::new(cols.len(), |i: int| Point { line, col: cols[i] })
}

/// The cell at (`line`, `col`) if rows of these widths have one, else nothing.
pub open spec fn spot(widths: Seq<usize>, line: int, col: int) -> Seq<Point> {
    if 0 <= line < widths.len() && 0 <= col < widths[line] {
        seq![Point { line: line as usize, col: col as usize }]
    } else {
        seq![]
    }
}

/// The neighbours of `p` under the offset rule.
pub open spec fn monotonic_neighbours(widths: Seq<usize>, p: Point) -> Seq<Point> {
    let above = if 0 < p.line < widths.len() {
        in_line(
            (p.line - 1) as usize,
            adjacent_columns(widths[p.line as int], widths[p.line - 1], p.col),
        )
    } else {
        seq![]
    };
    let below = if p.line + 1 < widths.len() {
        in_line(
            (p.line + 1) as usize,
            adjacent_columns(widths[p.line as int], widths[p.line + 1], p.col),
        )
    } else {
        seq![]
    };
    above + below + spot(widths, p.line as int, p.col - 1) + spot(widths, p.line as int, p.col + 1)
}

/// The neighbours of `p` on a board that widens down to the row `middle` and
/// narrows below it.
pub open spec fn diamond_neighbours(widths: Seq<usize>, middle: usize, p: Point) -> Seq<Point> {
    let r = p.line as int;
    let c = p.col as int;
    let diagonals = if r < middle {
        spot(widths, r - 1, c - 1) + spot(widths, r - 1, c) + spot(widths, r + 1, c) + spot(
            widths,
            r + 1,
            c + 1,
        )
    } else if r > middle {
        spot(widths, r - 1, c) + spot(widths, r - 1, c + 1) + spot(widths, r + 1, c - 1) + spot(
            widths,
            r + 1,
            c,
        )
    } else {
        spot(widths, r - 1, c - 1) + spot(widths, r + 1, c - 1) + spot(widths, r - 1, c) + spot(
            widths,
            r + 1,
            c,
        )
    };
    diagonals + spot(widths, r, c - 1) + spot(widths, r, c + 1)
}

/// The neighbours of `p` on a board whose rows have the widths `widths`, under
/// the rule of `shape`, in the order in which the search tries them.
pub open spec fn neighbours_of(widths: Seq<usize>, shape: Shape, p: Point) -> Seq<Point> {
    match shape {
        Shape::Monotonic => monotonic_neighbours(widths, p),
        Shape::Diamond { middle } => diamond_neighbours(widths, middle, p),
    }
}

impl Puzzle {
    /// The neighbours of `p`, in the order in which the search tries them.
    pub open spec fn neighbours(self, p: Point) -> Seq<Point> {
        neighbours_of(self.widths(), self.shape, p)
    }
}

/// Whether rows of the widths `widths` have a cell at `p`.
pub open spec fn within(widths: Seq<usize>, p: Point) -> bool {
    p.line < widths.len() && p.col < widths[p.line as int]
}

/// Whether rows of the widths `widths` have a cell at each point of `s`.
pub open spec fn all_within(widths: Seq<usize>, s: Seq<Point>) -> bool {
    forall|i: int| 0 <= i < s.len() ==> within(widths, #[trigger] s[i])
}

/// Two lists of cells, put together, are a list of cells.
proof fn lemma_concat_within(widths: Seq<usize>, a: Seq<Point>, b: Seq<Point>)
    requires
        all_within(widths, a),
        all_within(widths, b),
    ensures
        all_within(widths, a + b),
{
    assert forall|i: int| 0 <= i < (a + b).len() implies within(widths, #[trigger] (a + b)[i]) by {
        if i < a.len() {
            assert((a + b)[i] == a[i]);
        } else {
            assert((a + b)[i] == b[i - a.len()]);
        }
    }
}

/// What `spot` yields is a cell.
proof fn lemma_spot_within(widths: Seq<usize>, line: int, col: int)
    requires
        widths.len() <= usize::MAX,
    ensures
        all_within(widths, spot(widths, line, col)),
{
}

/// The columns that touch a row lie within that row.
proof fn lemma_in_line_within(widths: Seq<usize>, line: usize, cur_size: usize, cur_col: usize)
    requires
        line < widths.len(),
    ensures
        all_within(widths, in_line(line, adjacent_columns(cur_size, widths[line as int], cur_col))),
{
}

/// Under the offset rule every neighbour is a cell.
proof fn lemma_monotonic_within(widths: Seq<usize>, p: Point)
    requires
        widths.len() <= usize::MAX,
    ensures
        all_within(widths, monotonic_neighbours(widths, p)),
{
    let above = if 0 < p.line < widths.len() {
        in_line(
            (p.line - 1) as usize,
            adjacent_columns(widths[p.line as int], widths[p.line - 1], p.col),
        )
    } else {
        seq![]
    };
    let below = if p.line + 1 < widths.len() {
        in_line(
            (p.line + 1) as usize,
            adjacent_columns(widths[p.line as int], widths[p.line + 1], p.col),
        )
    } else {
        seq![]
    };
    let left = spot(widths, p.line as int, p.col - 1);
    let right = spot(widths, p.line as int, p.col + 1);
    if 0 < p.line < widths.len() {
        lemma_in_line_within(widths, (p.line - 1) as usize, widths[p.line as int], p.col);
    }
    if p.line + 1 < widths.len() {
        lemma_in_line_within(widths, (p.line + 1) as usize, widths[p.line as int], p.col);
    }
    lemma_spot_within(widths, p.line as int, p.col - 1);
    lemma_spot_within(widths, p.line as int, p.col + 1);
    lemma_concat_within(widths, above, below);
    lemma_concat_within(widths, above + below, left);
    lemma_concat_within(widths, above + below + left, right);
}

/// Four spots, put together, are a list of cells.
proof fn lemma_four_spots_within(
    widths: Seq<usize>,
    a: (int, int),
    b: (int, int),
    c: (int, int),
    d: (int, int),
)
    requires
        widths.len() <= usize::MAX,
    ensures
        all_within(
            widths,
            spot(widths, a.0, a.1) + spot(widths, b.0, b.1) + spot(widths, c.0, c.1) + spot(
                widths,
                d.0,
                d.1,
            ),
        ),
{
    let sa = spot(widths, a.0, a.1);
    let sb = spot(widths, b.0, b.1);
    let sc = spot(widths, c.0, c.1);
    let sd = spot(widths, d.0, d.1);
    lemma_spot_within(widths, a.0, a.1);
    lemma_spot_within(widths, b.0, b.1);
    lemma_spot_within(widths, c.0, c.1);
    lemma_spot_within(widths, d.0, d.1);
    lemma_concat_within(widths, sa, sb);
    lemma_concat_within(widths, sa + sb, sc);
    lemma_concat_within(widths, sa + sb + sc, sd);
}

/// On a diamond every neighbour is a cell.
proof fn lemma_diamond_within(widths: Seq<usize>, middle: usize, p: Point)
    requires
        widths.len() <= usize::MAX,
    ensures
        all_within(widths, diamond_neighbours(widths, middle, p)),
{
    let r = p.line as int;
    let c = p.col as int;
    let diagonals = if r < middle {
        lemma_four_spots_within(widths, (r - 1, c - 1), (r - 1, c), (r + 1, c), (r + 1, c + 1));
        spot(widths, r - 1, c - 1) + spot(widths, r - 1, c) + spot(widths, r + 1, c) + spot(
            widths,
            r + 1,
            c + 1,
        )
    } else if r > middle {
        lemma_four_spots_within(widths, (r - 1, c), (r - 1, c + 1), (r + 1, c - 1), (r + 1, c));
        spot(widths, r - 1, c) + spot(widths, r - 1, c + 1) + spot(widths, r + 1, c - 1) + spot(
            widths,
            r + 1,
            c,
        )
    } else {
        lemma_four_spots_within(widths, (r - 1, c - 1), (r + 1, c - 1), (r - 1, c), (r + 1, c));
        spot(widths, r - 1, c - 1) + spot(widths, r + 1, c - 1) + spot(widths, r - 1, c) + spot(
            widths,
            r + 1,
            c,
        )
    };
    let left = spot(widths, r, c - 1);
    let right = spot(widths, r, c + 1);
    lemma_spot_within(widths, r, c - 1);
    lemma_spot_within(widths, r, c + 1);
    lemma_concat_within(widths, diagonals, left);
    lemma_concat_within(widths, diagonals + left, right);
}

/// Every neighbour is a cell of the board: its row exists and its column lies
/// within that row.
pub proof fn lemma_neighbours_in_bounds(widths: Seq<usize>, shape: Shape, p: Point)
    requires
        widths.len() <= usize::MAX,
    ensures
        all_within(widths, neighbours_of(widths, shape, p)),
{
    match shape {
        Shape::Monotonic => lemma_monotonic_within(widths, p),
        Shape::Diamond { middle } => lemma_diamond_within(widths, middle, p),
    }
}

/// The neighbours of a point depend on the widths of the rows and on the
/// shape alone: two boards that agree on both yield the same neighbours in
/// the same order, whatever their cells hold.
pub proof fn lemma_neighbours_deterministic(a: Puzzle, b: Puzzle, p: Point)
    requires
        a.widths() == b.widths(),
        a.shape == b.shape,
    ensures
        a.neighbours(p) == b.neighbours(p),
{
}

impl Board {
    /// The columns of a neighbouring row of width `adj_size` that touch
    /// column `cur_col` of a row of width `cur_size`.
    ///
    /// Where both rows have the same width the two candidates coincide and
    /// the column is listed twice: equal widths do not tell which row is
    /// indented against the other.
    pub fn find_neighbours_in_adjcent_line(
        &self,
        cur_size: usize,
        adj_size: usize,
        cur_col: usize,
    ) -> (r: Vec<usize>)
        ensures
            r@ == adjacent_columns(cur_size, adj_size, cur_col),
    {
        let mut r: Vec<usize> = Vec::new();
        if cur_col < adj_size {
            r.push(cur_col);
        }
        if cur_col < cur_size {
            let gap: usize = cur_size - cur_col;
            if gap <= adj_size {
                r.push(adj_size - gap);
            }
        }
        r
    }

    /// Appends the cell at (`line`, `col`) to `r` if the board has one.
    fn push_spot(&self, r: &mut Vec<Point>, line: usize, col: usize)
        ensures
            final(r)@ == old(r)@ + spot(self@.widths(), line as int, col as int),
    {
        if line < self.board.len() && col < self.board[line].line.len() {
            r.push(Point { line, col });
        }
    }

    /// Appends the cells of row `line` at the columns `cols` to `r`.
    fn push_line(r: &mut Vec<Point>, line: usize, cols: &Vec<usize>)
        ensures
            final(r)@ == old(r)@ + in_line(line, cols@),
    {
        let mut k: usize = 0;
        while k < cols.len()
            invariant
                k <= cols.len(),
                r@ == old(r)@ + in_line(line, cols@.take(k as int)),
            decreases cols.len() - k,
        {
            r.push(Point { line, col: cols[k] });
            k += 1;
        }
    }

    /// The neighbours of `current_cell`, in the order in which the search
    /// tries them. Each is a cell of the board.
    pub fn find_neighbours(&self, current_cell: Point) -> (r: Vec<Point>)
        requires
            self@.contains(current_cell),
        ensures
            r@ == self@.neighbours(current_cell),
            forall|i: int| 0 <= i < r.len() ==> self@.contains(#[trigger] r[i]),
    {
        let mut r: Vec<Point> = Vec::new();
        let cur_line = current_cell.line;
        let cur_col = current_cell.col;
        let cur_line_size = self.board[cur_line].line.len();
        match self.shape {
            Shape::Monotonic => {
                if cur_line > 0 {
                    let prev_line_size = self.board[cur_line - 1].line.len();
                    let prev_cols = self.find_neighbours_in_adjcent_line(
                        cur_line_size,
                        prev_line_size,
                        cur_col,
                    );
                    Self::push_line(&mut r, cur_line - 1, &prev_cols);
                }
                if cur_line + 1 < self.board.len() {
                    let next_line_size = self.board[cur_line + 1].line.len();
                    let next_cols = self.find_neighbours_in_adjcent_line(
                        cur_line_size,
                        next_line_size,
                        cur_col,
                    );
                    Self::push_line(&mut r, cur_line + 1, &next_cols);
                }
            },
            Shape::Diamond { middle } => {
                if cur_line < middle {
                    if cur_line > 0 {
                        if cur_col > 0 {
                            self.push_spot(&mut r, cur_line - 1, cur_col - 1);
                        }
                        self.push_spot(&mut r, cur_line - 1, cur_col);
                    }
                    self.push_spot(&mut r, cur_line + 1, cur_col);
                    self.push_spot(&mut r, cur_line + 1, cur_col + 1);
                } else if cur_line > middle {
                    if cur_line > 0 {
                        self.push_spot(&mut r, cur_line - 1, cur_col);
                        self.push_spot(&mut r, cur_line - 1, cur_col + 1);
                    }
                    if cur_col > 0 {
                        self.push_spot(&mut r, cur_line + 1, cur_col - 1);
                    }
                    self.push_spot(&mut r, cur_line + 1, cur_col);
                } else {
                    if cur_col > 0 {
                        if cur_line > 0 {
                            self.push_spot(&mut r, cur_line - 1, cur_col - 1);
                        }
                        self.push_spot(&mut r, cur_line + 1, cur_col - 1);
                    }
                    if cur_line > 0 {
                        self.push_spot(&mut r, cur_line - 1, cur_col);
                    }
                    self.push_spot(&mut r, cur_line + 1, cur_col);
                }
            },
        }
        if cur_col > 0 {
            self.push_spot(&mut r, cur_line, cur_col - 1);
        }
        self.push_spot(&mut r, cur_line, cur_col + 1);
        proof {
            lemma_neighbours_in_bounds(self@.widths(), self.shape, current_cell);
            assert forall|i: int| 0 <= i < r.len() implies self@.contains(#[trigger] r[i]) by {
                assert(within(self@.widths(), r[i]));
            }
        }
        r
    }
}

} // verus!
