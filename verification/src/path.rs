//! What the search finds, said without the search: walks that lead to the end
//! cell, and the numbered path that a solved board shows.
use vstd::prelude::*;
use vstd::seq_lib::to_multiset_contains;
use crate::board::{cell_at, fits, in_grid, lemma_put, row_widths, Puzzle};
use crate::cell::{Cell, Point};
use crate::clues::{
    grid_count, lemma_grid_count_one, lemma_grid_count_two, lemma_grid_count_witness,
};
use crate::solver::{mark, search_among, search_from};

verus! {

impl Puzzle {
    /// Whether `walk` leads a path that stands on `cur` to the end cell:
    /// each of its cells is a neighbour of the one before, each step is
    /// admitted in the puzzle as the steps before it left it, and the walk
    /// stops on the end cell, the first time that it stands there.
    pub open spec fn leads(self, cur: Point, walk: Seq<Point>) -> bool
        decreases walk.len(),
    {
        if cur == self.end {
            walk.len() == 0
        } else if walk.len() == 0 {
            false
        } else {
            let v = self.cell(cur).number();
            let n = walk[0];
            &&& self.contains(cur)
            &&& self.cell(cur).is_numbered()
            &&& self.neighbours(cur).contains(n)
            &&& self.admits(v, n)
            &&& self.advance(v, n).leads(n, walk.drop_first())
        }
    }
}

/// What the search finds is a walk that leads to the end cell.
pub proof fn lemma_search_sound(s: Puzzle, cur: Point)
    requires
        search_from(s, cur) is Some,
    ensures
        s.leads(cur, search_from(s, cur)->0),
    decreases 256 - s.cell(cur).number(), 1int, 0int,
{
    if cur != s.end {
        lemma_among_sound(s, cur, 0);
    }
}

/// What the search among the neighbours from the `i`-th on finds is a walk
/// that leads to the end cell.
proof fn lemma_among_sound(s: Puzzle, cur: Point, i: int)
    requires
        cur != s.end,
        s.contains(cur),
        s.cell(cur).is_numbered(),
        search_among(s, cur, i) is Some,
    ensures
        s.leads(cur, search_among(s, cur, i)->0),
    decreases 256 - s.cell(cur).number(), 0int, s.neighbours(cur).len() - i,
{
    let v = s.cell(cur).number();
    let ns = s.neighbours(cur);
    if 0 <= i < ns.len() {
        let n = ns[i];
        if s.admits(v, n) && search_from(s.advance(v, n), n) is Some {
            let w = search_from(s.advance(v, n), n)->0;
            lemma_search_sound(s.advance(v, n), n);
            assert((seq![n] + w).drop_first() =~= w);
        } else {
            lemma_among_sound(s, cur, i + 1);
        }
    }
}

/// Where any walk leads to the end cell, the search finds one.
pub proof fn lemma_search_complete(s: Puzzle, cur: Point, walk: Seq<Point>)
    requires
        s.leads(cur, walk),
    ensures
        search_from(s, cur) is Some,
    decreases walk.len(),
{
    if cur != s.end {
        let v = s.cell(cur).number();
        let ns = s.neighbours(cur);
        let n = walk[0];
        lemma_search_complete(s.advance(v, n), n, walk.drop_first());
        let k = choose|k: int| 0 <= k < ns.len() && ns[k] == n;
        lemma_among_complete(s, cur, 0, k);
    }
}

/// Where the search is exhausted, no walk leads to the end cell.
pub proof fn lemma_search_exhausted(s: Puzzle, cur: Point)
    requires
        search_from(s, cur) is None,
    ensures
        forall|walk: Seq<Point>| !s.leads(cur, walk),
{
    assert forall|walk: Seq<Point>| !s.leads(cur, walk) by {
        if s.leads(cur, walk) {
            lemma_search_complete(s, cur, walk);
        }
    }
}

/// Where the search from the `k`-th neighbour succeeds, so does the search
/// among the neighbours from any earlier one on.
proof fn lemma_among_complete(s: Puzzle, cur: Point, i: int, k: int)
    requires
        0 <= i <= k < s.neighbours(cur).len(),
        s.admits(s.cell(cur).number(), s.neighbours(cur)[k]),
        search_from(s.advance(s.cell(cur).number(), s.neighbours(cur)[k]), s.neighbours(cur)[k]) is Some,
    ensures
        search_among(s, cur, i) is Some,
    decreases k - i,
{
    if i < k {
        lemma_among_complete(s, cur, i + 1, k);
    }
}

/// What writing a walk into the board does, for a walk from `cur` that leads
/// to the end cell: the rows keep their widths; the cells of the walk carry
/// the numbers that follow the number of `cur`; a cell that was not empty
/// keeps what it held; an empty cell off the walk stays empty; each cell of
/// the walk is a neighbour of the one before; and the walk stops on the end
/// cell.
pub open spec fn marked_along(s: Puzzle, cur: Point, walk: Seq<Point>) -> bool {
    let v = s.cell(cur).number();
    let t = mark(s.grid, v, walk);
    &&& row_widths(t) == row_widths(s.grid)
    &&& forall|p: Point| in_grid(t, p) == in_grid(s.grid, p)
    &&& forall|k: int|
        0 <= k < walk.len() ==> in_grid(s.grid, #[trigger] walk[k]) && cell_at(
            t,
            walk[k],
        ).is_numbered() && cell_at(t, walk[k]).number() == v + 1 + k
    &&& forall|p: Point|
        in_grid(s.grid, p) && !(cell_at(s.grid, p) is Empty) ==> #[trigger] cell_at(t, p)
            == cell_at(s.grid, p)
    &&& forall|p: Point|
        in_grid(s.grid, p) && cell_at(s.grid, p) is Empty && !walk.contains(p) ==> (
        #[trigger] cell_at(t, p)) is Empty
    &&& walk.len() > 0 ==> s.neighbours(cur).contains(walk[0])
    &&& forall|k: int|
        0 <= k < walk.len() - 1 ==> s.neighbours(#[trigger] walk[k]).contains(walk[k + 1])
    &&& if walk.len() == 0 {
        cur == s.end
    } else {
        walk.last() == s.end
    }
}

/// A walk that leads to the end cell is written into the board as
/// [`marked_along`] says.
pub proof fn lemma_marked_along(s: Puzzle, cur: Point, walk: Seq<Point>)
    requires
        s.leads(cur, walk),
    ensures
        marked_along(s, cur, walk),
    decreases walk.len(),
{
    if walk.len() > 0 {
        let v = s.cell(cur).number();
        let n = walk[0];
        let rest = walk.drop_first();
        let s1 = s.advance(v, n);
        let t = mark(s.grid, v, walk);
        lemma_marked_along(s1, n, rest);
        if s.cell(n) is Empty {
            lemma_put(s.grid, n, Cell::Candidate((v + 1) as u8));
        }
        assert(s1.cell(n).number() == v + 1);
        assert(t == mark(s1.grid, v + 1, rest));
        assert(s1.neighbours(n) == s.neighbours(n));
        assert forall|k: int| 0 <= k < walk.len() implies in_grid(s.grid, #[trigger] walk[k])
            && cell_at(t, walk[k]).is_numbered() && cell_at(t, walk[k]).number() == v + 1 + k by {
            if k > 0 {
                assert(walk[k] == rest[k - 1]);
            }
        }
        assert forall|p: Point|
            in_grid(s.grid, p) && cell_at(s.grid, p) is Empty && !walk.contains(p) implies (
        #[trigger] cell_at(t, p)) is Empty by {
            assert(p != walk[0]);
            if rest.contains(p) {
                let k = choose|k: int| 0 <= k < rest.len() && rest[k] == p;
                assert(walk[k + 1] == p);
            }
        }
        assert forall|k: int| 0 <= k < walk.len() - 1 implies s.neighbours(
            #[trigger] walk[k],
        ).contains(walk[k + 1]) by {
            assert(walk[k + 1] == rest[k]);
            if k > 0 {
                assert(walk[k] == rest[k - 1]);
                assert(s1.neighbours(rest[k - 1]) == s.neighbours(rest[k - 1]));
            }
        }
        if rest.len() > 0 {
            assert(walk.last() == rest.last());
        }
    }
}

/// Whether each element of `s` is above the one before.
pub open spec fn strictly_ascending(s: Seq<u8>) -> bool {
    forall|i: int, j: int| 0 <= i < j < s.len() ==> s[i] < s[j]
}

/// Whether `walk` passes over a cell that holds the clue `u`.
pub open spec fn meets(grid: Seq<Seq<Cell>>, walk: Seq<Point>, u: u8) -> bool {
    exists|k: int| 0 <= k < walk.len() && cell_at(grid, #[trigger] walk[k]) == Cell::Const(u)
}

impl Puzzle {
    /// Whether the board is a puzzle that the search is meant for: what is
    /// derived from the cells is in place, nothing stands against a search
    /// from the start cell, and no two cells hold the same clue.
    pub open spec fn well_posed(self) -> bool {
        &&& fits(self.grid)
        &&& self.derived()
        &&& self.violation() is None
        &&& strictly_ascending(self.consts)
    }

    /// Whether the cursor parts the clues that a path standing on `cur` has
    /// met from those ahead of it: the clue before the cursor is at most the
    /// number of `cur`, the clue under the cursor is above it.
    pub open spec fn on_track(self, cur: Point) -> bool {
        let v = self.cell(cur).number();
        &&& 1 <= self.index <= self.consts.len()
        &&& self.consts[self.index - 1] <= v
        &&& self.index < self.consts.len() ==> v < self.consts[self.index]
    }
}

/// On a well-posed board the start cell holds the clue 1, the end cell holds
/// the largest clue, no two cells hold the same clue, and every clue on the
/// board is listed.
pub proof fn lemma_well_posed(s: Puzzle)
    requires
        s.well_posed(),
    ensures
        s.contains(s.start),
        s.cell(s.start) == Cell::Const(1),
        s.contains(s.end),
        s.cell(s.end) == Cell::Const(s.consts.last()),
        forall|p: Point, q: Point|
            s.contains(p) && s.contains(q) && (#[trigger] s.cell(p)) is Const && s.cell(p)
                == #[trigger] s.cell(q) ==> p == q,
        forall|p: Point, u: u8|
            s.contains(p) && #[trigger] s.cell(p) == Cell::Const(u) ==> #[trigger] s.consts.contains(u),
{
    let last = s.consts.last();
    assert forall|p: Point, u: u8|
        s.contains(p) && #[trigger] s.cell(p) == Cell::Const(
            u,
        ) implies #[trigger] s.consts.contains(u) by {
        lemma_grid_count_one(s.grid, p, u);
        assert(s.consts.to_multiset().count(u) == grid_count(s.grid, u));
        to_multiset_contains(s.consts, u);
    }
    assert(s.consts[0] == 1u8);
    assert(s.consts.contains(1u8));
    to_multiset_contains(s.consts, 1u8);
    assert(s.consts.to_multiset().count(1u8) == grid_count(s.grid, 1u8));
    let one = lemma_grid_count_witness(s.grid, 1u8);
    assert(s.contains(one) && s.cell(one) == Cell::Const(1));
    assert(s.cell(one) is Const && s.cell(one).number() > 0);
    assert(s.consts[s.consts.len() - 1] == last);
    assert(s.consts.contains(last));
    to_multiset_contains(s.consts, last);
    assert(s.consts.to_multiset().count(last) == grid_count(s.grid, last));
    let top = lemma_grid_count_witness(s.grid, last);
    assert(s.cell(top) is Const);
    let e = s.cell(s.end)->Const_0;
    assert(s.cell(s.end) == Cell::Const(e));
    assert(s.consts.contains(e));
    assert(e <= last);
    assert(s.cell(top).number() <= s.cell(s.end).number());
    assert forall|p: Point, q: Point|
        s.contains(p) && s.contains(q) && (#[trigger] s.cell(p)) is Const && s.cell(p)
            == #[trigger] s.cell(q) implies p == q by {
        if p != q {
            let u = s.cell(p)->Const_0;
            lemma_grid_count_two(s.grid, p, q, u);
            assert(s.consts.to_multiset().count(u) == grid_count(s.grid, u));
            assert(s.consts.no_duplicates());
            s.consts.lemma_multiset_has_no_duplicates();
            assert(s.consts.to_multiset().contains(u));
        }
    }
}

/// A walk that leads to the end cell passes over every clue from the cursor
/// on, where the clues are distinct, the cursor parts those met from those
/// ahead, and the end cell holds the largest clue.
pub proof fn lemma_walk_meets_clues(s: Puzzle, cur: Point, walk: Seq<Point>)
    requires
        s.leads(cur, walk),
        strictly_ascending(s.consts),
        s.on_track(cur),
        s.contains(s.end),
        s.cell(s.end) == Cell::Const(s.consts.last()),
    ensures
        forall|q: int| s.index <= q < s.consts.len() ==> meets(s.grid, walk, #[trigger] s.consts[q]),
    decreases walk.len(),
{
    if cur != s.end {
        let v = s.cell(cur).number();
        let n = walk[0];
        let rest = walk.drop_first();
        let s1 = s.advance(v, n);
        if s.cell(n) is Empty {
            lemma_put(s.grid, n, Cell::Candidate((v + 1) as u8));
        }
        assert(s1.cell(n).number() == v + 1);
        lemma_walk_meets_clues(s1, n, rest);
        lemma_marked_along(s1, n, rest);
        assert forall|q: int| s.index <= q < s.consts.len() implies meets(
            s.grid,
            walk,
            #[trigger] s.consts[q],
        ) by {
            if q == s.index && s.cell(n) is Const {
                assert(cell_at(s.grid, walk[0]) == Cell::Const(s.consts[q]));
            } else {
                assert(meets(s1.grid, rest, s1.consts[q]));
                let k = choose|k: int|
                    0 <= k < rest.len() && cell_at(s1.grid, #[trigger] rest[k]) == Cell::Const(
                        s.consts[q],
                    );
                assert(walk[k + 1] == rest[k]);
                assert(cell_at(s.grid, walk[k + 1]) == Cell::Const(s.consts[q]));
            }
        }
    } else {
        assert(s.consts[s.consts.len() - 1] == s.consts.last());
    }
}

/// Whether `solved` shows `path` as a numbered path through the puzzle `s`:
/// the path runs from the start cell to the end cell and is as long as the
/// largest clue is high; its cells carry 1, 2, 3 and so on; each is a
/// neighbour of the one before; no cell off the path carries a number, so
/// each number from 1 to the largest clue stands on exactly one cell; and
/// every clue, every hole and the widths of the rows are those of `s`.
pub open spec fn numbered_path(s: Puzzle, solved: Seq<Seq<Cell>>, path: Seq<Point>) -> bool {
    &&& path.len() == s.consts.last()
    &&& path.first() == s.start
    &&& path.last() == s.end
    &&& row_widths(solved) == row_widths(s.grid)
    &&& forall|p: Point| in_grid(solved, p) == in_grid(s.grid, p)
    &&& forall|k: int|
        0 <= k < path.len() ==> in_grid(solved, #[trigger] path[k]) && cell_at(
            solved,
            path[k],
        ).is_numbered() && cell_at(solved, path[k]).number() == k + 1
    &&& forall|k: int|
        0 <= k < path.len() - 1 ==> s.neighbours(#[trigger] path[k]).contains(path[k + 1])
    &&& forall|p: Point|
        in_grid(solved, p) && (#[trigger] cell_at(solved, p)).is_numbered() ==> 1 <= cell_at(
            solved,
            p,
        ).number() <= path.len() && path[cell_at(solved, p).number() - 1] == p
    &&& forall|p: Point|
        in_grid(s.grid, p) && !(cell_at(s.grid, p) is Empty) ==> #[trigger] cell_at(solved, p)
            == cell_at(s.grid, p)
}

/// On a well-posed board on which the search from the start cell succeeds,
/// the walk found, written into the board, shows a numbered path from the
/// start cell to the end cell.
pub proof fn lemma_solution_is_numbered_path(s: Puzzle)
    requires
        s.well_posed(),
        search_from(s, s.start) is Some,
    ensures
        s.cell(s.start).number() == 1,
        numbered_path(
            s,
            mark(s.grid, 1, search_from(s, s.start)->0),
            seq![s.start] + search_from(s, s.start)->0,
        ),
{
    let walk = search_from(s, s.start)->0;
    let path = seq![s.start] + walk;
    let solved = mark(s.grid, 1, walk);
    lemma_well_posed(s);
    lemma_search_sound(s, s.start);
    lemma_marked_along(s, s.start, walk);
    assert(s.on_track(s.start));
    lemma_walk_meets_clues(s, s.start, walk);
    assert forall|k: int| 0 <= k < path.len() implies in_grid(solved, #[trigger] path[k])
        && cell_at(solved, path[k]).is_numbered() && cell_at(solved, path[k]).number() == k
        + 1 by {
        if k > 0 {
            assert(path[k] == walk[k - 1]);
        }
    }
    assert forall|k: int| 0 <= k < path.len() - 1 implies s.neighbours(
        #[trigger] path[k],
    ).contains(path[k + 1]) by {
        assert(path[k + 1] == walk[k]);
        if k > 0 {
            assert(path[k] == walk[k - 1]);
        }
    }
    if walk.len() > 0 {
        assert(path.last() == walk.last());
        assert(path[path.len() - 1] == s.end);
    }
    assert(cell_at(solved, s.end) == Cell::Const(s.consts.last()));
    assert(path.len() == s.consts.last());
    assert forall|p: Point|
        in_grid(solved, p) && (#[trigger] cell_at(solved, p)).is_numbered() implies 1 <= cell_at(
        solved,
        p,
    ).number() <= path.len() && path[cell_at(solved, p).number() - 1] == p by {
        let on_walk = if s.cell(p) is Empty {
            walk.contains(p)
        } else {
            let u = s.cell(p)->Const_0;
            assert(s.cell(p) == Cell::Const(u));
            assert(s.consts.contains(u));
            let q = choose|q: int| 0 <= q < s.consts.len() && s.consts[q] == u;
            if q == 0 {
                assert(s.cell(p) == s.cell(s.start));
                false
            } else {
                assert(meets(s.grid, walk, s.consts[q]));
                let k = choose|k: int|
                    0 <= k < walk.len() && cell_at(s.grid, #[trigger] walk[k]) == Cell::Const(u);
                assert(s.cell(walk[k]) == s.cell(p));
                true
            }
        };
        if on_walk {
            let k = choose|k: int| 0 <= k < walk.len() && walk[k] == p;
            assert(path[k + 1] == p);
        } else {
            assert(path[0] == p);
        }
    }
}

} // verus!
