//! What a board derives from its cells: the clues in ascending order, and the
//! cells where the path starts and ends.
use vstd::prelude::*;
use vstd::relations::{sorted_by, total_ordering};
use vstd::seq_lib::{lemma_sorted_unique, to_multiset_contains, to_multiset_insert};
use crate::board::{cell_at, fits, in_grid, Board, Puzzle};
use crate::cell::{Cell, Point};

verus! {

/// How many cells of `row` hold the clue `u`.
pub open spec fn row_count(row: Seq<Cell>, u: u8) -> nat
    decreases row.len(),
{
    if row.len() == 0 {
        0
    } else {
        row_count(row.drop_last(), u) + if row.last() == Cell::Const(u) {
            1nat
        } else {
            0nat
        }
    }
}

/// How many cells of `grid` hold the clue `u`.
pub open spec fn grid_count(grid: Seq<Seq<Cell>>, u: u8) -> nat
    decreases grid.len(),
{
    if grid.len() == 0 {
        0
    } else {
        grid_count(grid.drop_last(), u) + row_count(grid.last(), u)
    }
}

/// Whether `s` never descends.
pub open spec fn ascending(s: Seq<u8>) -> bool {
    forall|i: int, j: int| 0 <= i <= j < s.len() ==> s[i] <= s[j]
}

/// Whether `p` comes before `q` when the rows are read top to bottom, each
/// from left to right.
pub open spec fn before(p: Point, q: Point) -> bool {
    p.line < q.line || (p.line == q.line && p.col < q.col)
}

/// The first cell of the first row: where the path starts and ends on a board
/// without usable clues.
pub open spec fn origin() -> Point {
    Point { line: 0, col: 0 }
}

/// Whether `p` is a cell of `grid` that comes before column `c` of row `l`.
pub open spec fn seen(grid: Seq<Seq<Cell>>, l: int, c: int, p: Point) -> bool {
    in_grid(grid, p) && (p.line < l || (p.line == l && p.col < c))
}

impl Puzzle {
    /// Whether `consts` lists the clues of the board in ascending order, each
    /// value as often as cells hold it.
    pub open spec fn clues_listed(self) -> bool {
        &&& ascending(self.consts)
        &&& forall|u: u8| #[trigger] self.consts.to_multiset().count(u) == grid_count(self.grid, u)
    }

    /// Whether `start` is the last cell that holds the clue 1, or the origin
    /// where no cell holds it.
    pub open spec fn start_marked(self) -> bool {
        if exists|p: Point| self.contains(p) && #[trigger] self.cell(p) == Cell::Const(1) {
            &&& self.contains(self.start)
            &&& self.cell(self.start) == Cell::Const(1)
            &&& forall|q: Point|
                self.contains(q) && #[trigger] self.cell(q) == Cell::Const(1) ==> !before(
                    self.start,
                    q,
                )
        } else {
            self.start == origin()
        }
    }

    /// Whether `end` is the first cell that holds the largest clue, or the
    /// origin where no cell holds a clue above 0.
    pub open spec fn end_marked(self) -> bool {
        if exists|p: Point|
            self.contains(p) && (#[trigger] self.cell(p)) is Const && self.cell(p).number() > 0 {
            &&& self.contains(self.end)
            &&& self.cell(self.end) is Const
            &&& forall|q: Point|
                self.contains(q) && (#[trigger] self.cell(q)) is Const ==> self.cell(q).number()
                    <= self.cell(self.end).number()
            &&& forall|q: Point|
                self.contains(q) && #[trigger] self.cell(q) == self.cell(self.end) ==> !before(
                    q,
                    self.end,
                )
        } else {
            self.end == origin()
        }
    }

    /// Whether `consts`, `start` and `end` are what the cells determine.
    pub open spec fn derived(self) -> bool {
        self.clues_listed() && self.start_marked() && self.end_marked()
    }
}

/// One more cell of a row adds one to the count if it holds the clue `u`.
proof fn lemma_row_count_step(row: Seq<Cell>, c: int, u: u8)
    requires
        0 <= c < row.len(),
    ensures
        row_count(row.take(c + 1), u) == row_count(row.take(c), u) + if row[c] == Cell::Const(u) {
            1nat
        } else {
            0nat
        },
{
    assert(row.take(c + 1).drop_last() =~= row.take(c));
}

/// One more row of a grid adds what that row holds of the clue `u`.
proof fn lemma_grid_count_step(grid: Seq<Seq<Cell>>, l: int, u: u8)
    requires
        0 <= l < grid.len(),
    ensures
        grid_count(grid.take(l + 1), u) == grid_count(grid.take(l), u) + row_count(grid[l], u),
{
    assert(grid.take(l + 1).drop_last() =~= grid.take(l));
}

/// A row that holds the clue `u` at column `j` holds it at least once.
pub proof fn lemma_row_count_one(row: Seq<Cell>, j: int, u: u8)
    requires
        0 <= j < row.len(),
        row[j] == Cell::Const(u),
    ensures
        row_count(row, u) >= 1,
    decreases row.len(),
{
    if j < row.len() - 1 {
        lemma_row_count_one(row.drop_last(), j, u);
    }
}

/// A row that holds the clue `u` at two columns holds it at least twice.
pub proof fn lemma_row_count_two(row: Seq<Cell>, i: int, j: int, u: u8)
    requires
        0 <= i < j < row.len(),
        row[i] == Cell::Const(u),
        row[j] == Cell::Const(u),
    ensures
        row_count(row, u) >= 2,
    decreases row.len(),
{
    if j < row.len() - 1 {
        lemma_row_count_two(row.drop_last(), i, j, u);
    } else {
        lemma_row_count_one(row.drop_last(), i, u);
    }
}

/// A row that holds the clue `u` at least once holds it at some column.
pub proof fn lemma_row_count_witness(row: Seq<Cell>, u: u8) -> (j: int)
    requires
        row_count(row, u) >= 1,
    ensures
        0 <= j < row.len(),
        row[j] == Cell::Const(u),
    decreases row.len(),
{
    if row.last() == Cell::Const(u) {
        row.len() - 1
    } else {
        lemma_row_count_witness(row.drop_last(), u)
    }
}

/// A grid that holds the clue `u` at `p` holds it at least once.
pub proof fn lemma_grid_count_one(grid: Seq<Seq<Cell>>, p: Point, u: u8)
    requires
        in_grid(grid, p),
        cell_at(grid, p) == Cell::Const(u),
    ensures
        grid_count(grid, u) >= 1,
    decreases grid.len(),
{
    if p.line < grid.len() - 1 {
        lemma_grid_count_one(grid.drop_last(), p, u);
    } else {
        lemma_row_count_one(grid.last(), p.col as int, u);
    }
}

/// A grid that holds the clue `u` at two cells holds it at least twice.
pub proof fn lemma_grid_count_two(grid: Seq<Seq<Cell>>, p: Point, q: Point, u: u8)
    requires
        in_grid(grid, p),
        in_grid(grid, q),
        p != q,
        cell_at(grid, p) == Cell::Const(u),
        cell_at(grid, q) == Cell::Const(u),
    ensures
        grid_count(grid, u) >= 2,
    decreases grid.len(),
{
    let last = grid.len() - 1;
    if p.line < last && q.line < last {
        lemma_grid_count_two(grid.drop_last(), p, q, u);
    } else if p.line == last && q.line == last {
        if p.col < q.col {
            lemma_row_count_two(grid.last(), p.col as int, q.col as int, u);
        } else {
            lemma_row_count_two(grid.last(), q.col as int, p.col as int, u);
        }
    } else if p.line == last {
        lemma_row_count_one(grid.last(), p.col as int, u);
        lemma_grid_count_one(grid.drop_last(), q, u);
    } else {
        lemma_row_count_one(grid.last(), q.col as int, u);
        lemma_grid_count_one(grid.drop_last(), p, u);
    }
}

/// A grid that holds the clue `u` at least once holds it at some cell.
pub proof fn lemma_grid_count_witness(grid: Seq<Seq<Cell>>, u: u8) -> (p: Point)
    requires
        fits(grid),
        grid_count(grid, u) >= 1,
    ensures
        in_grid(grid, p),
        cell_at(grid, p) == Cell::Const(u),
    decreases grid.len(),
{
    if row_count(grid.last(), u) >= 1 {
        let j = lemma_row_count_witness(grid.last(), u);
        Point { line: (grid.len() - 1) as usize, col: j as usize }
    } else {
        lemma_grid_count_witness(grid.drop_last(), u)
    }
}

/// What is derived from the cells depends on the cells alone: two puzzles
/// with the same cells, in both of which `consts`, `start` and `end` are
/// derived, agree on all three. So deriving them a second time changes
/// nothing.
pub proof fn lemma_derived_unique(a: Puzzle, b: Puzzle)
    requires
        a.grid == b.grid,
        a.derived(),
        b.derived(),
    ensures
        a.consts == b.consts,
        a.start == b.start,
        a.end == b.end,
{
    let leq = |x: u8, y: u8| x <= y;
    assert(sorted_by(a.consts, leq));
    assert(sorted_by(b.consts, leq));
    assert(total_ordering(leq));
    assert forall|u: u8|
        a.consts.to_multiset().count(u) == #[trigger] b.consts.to_multiset().count(u) by {
        assert(a.consts.to_multiset().count(u) == grid_count(a.grid, u));
    }
    assert(a.consts.to_multiset() =~= b.consts.to_multiset());
    lemma_sorted_unique(a.consts, b.consts, leq);
    if exists|p: Point| a.contains(p) && #[trigger] a.cell(p) == Cell::Const(1) {
        let p = choose|p: Point| a.contains(p) && #[trigger] a.cell(p) == Cell::Const(1);
        assert(b.contains(p) && b.cell(p) == Cell::Const(1));
        assert(b.cell(a.start) == Cell::Const(1));
        assert(a.cell(b.start) == Cell::Const(1));
    }
    if exists|p: Point|
        a.contains(p) && (#[trigger] a.cell(p)) is Const && a.cell(p).number() > 0 {
        let p = choose|p: Point|
            a.contains(p) && (#[trigger] a.cell(p)) is Const && a.cell(p).number() > 0;
        assert(b.contains(p) && b.cell(p) is Const && b.cell(p).number() > 0);
        assert(b.cell(a.end) is Const);
        assert(a.cell(b.end) is Const);
        assert(a.cell(a.end) == a.cell(b.end));
        assert(b.cell(a.end) == b.cell(b.end));
    }
}

/// Puts `x` into the ascending `v` at its place.
fn insert_sorted(v: &mut Vec<u8>, x: u8)
    requires
        ascending(old(v)@),
    ensures
        ascending(final(v)@),
        final(v)@.to_multiset() == old(v)@.to_multiset().insert(x),
{
    let mut i: usize = 0;
    while i < v.len() && v[i] <= x
        invariant
            i <= v.len(),
            v@ == old(v)@,
            forall|k: int| 0 <= k < i ==> v[k] <= x,
        decreases v.len() - i,
    {
        i += 1;
    }
    proof {
        to_multiset_insert(v@, i as int, x);
    }
    v.insert(i, x);
    assert forall|a: int, b: int| 0 <= a <= b < v.len() implies v[a] <= v[b] by {
        let o = old(v)@;
        if a < i && b > i {
            assert(o[a] <= o[b - 1]);
        } else if a > i {
            assert(o[a - 1] <= o[b - 1]);
        } else if b < i {
            assert(o[a] <= o[b]);
        } else if a == i && b > i {
            assert(o[i as int] <= o[b - 1]);
        }
    }
}

impl Board {
    /// Derives `consts`, `start` and `end` from the cells.
    ///
    /// The outcome depends on the cells alone: what the three fields held
    /// before does not matter, and a second call changes nothing.
    pub fn find_constants(&mut self)
        ensures
            final(self)@.derived(),
            final(self)@.grid == old(self)@.grid,
            final(self)@.index == old(self)@.index,
            final(self)@.shape == old(self)@.shape,
    {
        self.consts = Vec::new();
        self.start = Point { line: 0, col: 0 };
        self.end = Point { line: 0, col: 0 };
        let ghost g = self@.grid;
        let ghost mut has_one = false;
        let mut max_value: u8 = 0;
        let mut l: usize = 0;
        proof {
            assert(g.take(0) =~= Seq::<Seq<Cell>>::empty());
            assert forall|u: u8| #[trigger] self.consts@.to_multiset().count(u) == 0 by {
                to_multiset_contains(self.consts@, u);
            }
        }
        while l < self.board.len()
            invariant
                l <= self.board.len(),
                self.board == old(self).board,
                self.current_const_index == old(self).current_const_index,
                self.shape == old(self).shape,
                g == self@.grid,
                ascending(self.consts@),
                forall|u: u8| #[trigger]
                    self.consts@.to_multiset().count(u) == grid_count(g.take(l as int), u),
                !has_one ==> self.start == origin() && forall|q: Point|
                    seen(g, l as int, 0, q) ==> #[trigger] cell_at(g, q) != Cell::Const(1),
                has_one ==> seen(g, l as int, 0, self.start) && cell_at(g, self.start)
                    == Cell::Const(1) && forall|q: Point|
                    seen(g, l as int, 0, q) && #[trigger] cell_at(g, q) == Cell::Const(1)
                        ==> !before(self.start, q),
                forall|q: Point|
                    seen(g, l as int, 0, q) && (#[trigger] cell_at(g, q)) is Const ==> cell_at(
                        g,
                        q,
                    ).number() <= max_value,
                max_value == 0 ==> self.end == origin(),
                max_value > 0 ==> seen(g, l as int, 0, self.end) && cell_at(g, self.end)
                    == Cell::Const(max_value) && forall|q: Point|
                    seen(g, l as int, 0, q) && #[trigger] cell_at(g, q) == Cell::Const(max_value)
                        ==> !before(q, self.end),
            decreases self.board.len() - l,
        {
            let mut c: usize = 0;
            assert(g[l as int].take(0) =~= Seq::<Cell>::empty());
            while c < self.board[l].line.len()
                invariant
                    l < self.board.len(),
                    c <= self.board[l as int].line.len(),
                    self.board == old(self).board,
                    self.current_const_index == old(self).current_const_index,
                    self.shape == old(self).shape,
                    g == self@.grid,
                    ascending(self.consts@),
                    forall|u: u8| #[trigger]
                        self.consts@.to_multiset().count(u) == grid_count(g.take(l as int), u)
                            + row_count(g[l as int].take(c as int), u),
                    !has_one ==> self.start == origin() && forall|q: Point|
                        seen(g, l as int, c as int, q) ==> #[trigger] cell_at(g, q) != Cell::Const(
                            1,
                        ),
                    has_one ==> seen(g, l as int, c as int, self.start) && cell_at(g, self.start)
                        == Cell::Const(1) && forall|q: Point|
                        seen(g, l as int, c as int, q) && #[trigger] cell_at(g, q) == Cell::Const(1)
                            ==> !before(self.start, q),
                    forall|q: Point|
                        seen(g, l as int, c as int, q) && (#[trigger] cell_at(g, q)) is Const
                            ==> cell_at(g, q).number() <= max_value,
                    max_value == 0 ==> self.end == origin(),
                    max_value > 0 ==> seen(g, l as int, c as int, self.end) && cell_at(g, self.end)
                        == Cell::Const(max_value) && forall|q: Point|
                        seen(g, l as int, c as int, q) && #[trigger] cell_at(g, q) == Cell::Const(
                            max_value,
                        ) ==> !before(q, self.end),
                decreases self.board[l as int].line.len() - c,
            {
                let here = Point { line: l, col: c };
                let cell = self.board[l].line[c];
                assert(cell == cell_at(g, here));
                assert(seen(g, l as int, c + 1, here));
                assert(forall|q: Point|
                    seen(g, l as int, c + 1, q) ==> q == here || seen(g, l as int, c as int, q));
                proof {
                    assert forall|u: u8|
                        row_count(g[l as int].take(c + 1), u) == row_count(
                            g[l as int].take(c as int),
                            u,
                        ) + if cell == Cell::Const(u) {
                            1nat
                        } else {
                            0nat
                        } by {
                        lemma_row_count_step(g[l as int], c as int, u);
                    }
                }
                if let Cell::Const(v) = cell {
                    insert_sorted(&mut self.consts, v);
                    if v == 1 {
                        self.start = here;
                        proof {
                            has_one = true;
                        }
                    }
                    if v > max_value {
                        self.end = here;
                        max_value = v;
                    }
                }
                c += 1;
            }
            proof {
                assert(g[l as int].take(c as int) =~= g[l as int]);
                assert forall|u: u8|
                    grid_count(g.take(l + 1), u) == grid_count(g.take(l as int), u) + row_count(
                        g[l as int],
                        u,
                    ) by {
                    lemma_grid_count_step(g, l as int, u);
                }
                assert(forall|q: Point|
                    seen(g, l + 1, 0, q) ==> seen(g, l as int, c as int, q));
                assert(forall|q: Point|
                    seen(g, l as int, c as int, q) ==> seen(g, l + 1, 0, q));
            }
            l += 1;
        }
        proof {
            assert(g.take(l as int) =~= g);
            assert(forall|q: Point| in_grid(g, q) ==> seen(g, l as int, 0, q));
            assert(self@.clues_listed());
            assert(self@.start_marked());
            assert(self@.end_marked());
        }
    }
}

} // verus!
