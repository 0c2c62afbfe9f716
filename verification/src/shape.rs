//! Telling the shape of a board from the widths of its rows.
//!
//! A board whose rows widen strictly down to a middle row and narrow below it
//! in the same steps, or narrow down to it and widen below it in the same
//! steps, is a diamond. Every other board is handled by the offset rule.
use vstd::prelude::*;
use crate::board::{Board, Shape};

verus! {

/// Whether row `i + 1` is wider than row `i`, for `up`, or narrower, for
/// `!up`.
pub open spec fn goes(widths: Seq<usize>, up: bool, i: int) -> bool {
    if up {
        widths[i] < widths[i + 1]
    } else {
        widths[i] > widths[i + 1]
    }
}

/// Whether each row after `from`, up to `to`, is wider than the row before
/// it, for `up`; or narrower, for `!up`.
pub open spec fn runs(widths: Seq<usize>, up: bool, from: int, to: int) -> bool {
    forall|i: int| from <= i < to ==> #[trigger] goes(widths, up, i)
}

/// Whether the rows `k` above and `k` below row `m` are equally wide.
pub open spec fn mirrored(widths: Seq<usize>, m: int, k: int) -> bool {
    widths[m - k] == widths[m + k]
}

/// Whether the rows turn at row `m`: as many rows lie above `m` as below it,
/// at least one; the rows widen strictly down to `m`, or narrow strictly
/// down to it; and each row below `m` is as wide as the row equally far
/// above it.
pub open spec fn turns_at(widths: Seq<usize>, m: int) -> bool {
    &&& 0 < m
    &&& widths.len() == 2 * m + 1
    &&& runs(widths, true, 0, m) || runs(widths, false, 0, m)
    &&& forall|k: int| 0 < k <= m ==> #[trigger] mirrored(widths, m, k)
}

/// Whether `shape` is the shape of a board whose rows have the widths
/// `widths`: a diamond whose middle is the row at which the rows turn, or
/// the offset rule where they turn nowhere.
pub open spec fn shape_matches(widths: Seq<usize>, shape: Shape) -> bool {
    match shape {
        Shape::Diamond { middle } => turns_at(widths, middle as int),
        Shape::Monotonic => forall|m: int| !turns_at(widths, m),
    }
}

/// The rows turn at one row at most, so the widths decide the shape.
pub proof fn lemma_shape_unique(widths: Seq<usize>, a: Shape, b: Shape)
    requires
        shape_matches(widths, a),
        shape_matches(widths, b),
    ensures
        a == b,
{
}

impl Board {
    /// Whether row `i + 1` is wider than row `i`, for `up`, or narrower, for
    /// `!up`.
    fn goes_at(&self, up: bool, i: usize) -> (r: bool)
        requires
            i + 1 < self.board.len(),
        ensures
            r == goes(self@.widths(), up, i as int),
    {
        let here = self.board[i].line.len();
        let next = self.board[i + 1].line.len();
        if up {
            here < next
        } else {
            here > next
        }
    }

    /// The shape of the board, told from the widths of its rows.
    pub fn detect_shape(&self) -> (shape: Shape)
        ensures
            shape_matches(self@.widths(), shape),
    {
        let ghost w = self@.widths();
        let n = self.board.len();
        if n < 3 || n % 2 == 0 {
            return Shape::Monotonic;
        }
        let m: usize = n / 2;
        let up = self.goes_at(true, 0);
        let mut i: usize = 0;
        while i < m
            invariant
                i <= m,
                n == 2 * m + 1,
                n == self.board.len(),
                w == self@.widths(),
                runs(w, up, 0, i as int),
                up == goes(w, true, 0),
            decreases m - i,
        {
            if !self.goes_at(up, i) {
                proof {
                    if runs(w, true, 0, m as int) {
                        assert(goes(w, true, 0) && goes(w, true, i as int));
                    }
                    if runs(w, false, 0, m as int) {
                        assert(goes(w, false, 0) && goes(w, false, i as int));
                    }
                }
                return Shape::Monotonic;
            }
            i += 1;
        }
        let mut k: usize = 1;
        while k <= m
            invariant
                1 <= k <= m + 1,
                n == 2 * m + 1,
                n == self.board.len(),
                w == self@.widths(),
                forall|j: int| 0 < j < k ==> #[trigger] mirrored(w, m as int, j),
            decreases m + 1 - k,
        {
            if self.board[m - k].line.len() != self.board[m + k].line.len() {
                proof {
                    assert(!mirrored(w, m as int, k as int));
                }
                return Shape::Monotonic;
            }
            k += 1;
        }
        Shape::Diamond { middle: m }
    }
}

} // verus!
