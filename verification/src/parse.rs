//! Reading a board from text.
//!
//! A line of text is one row. Its words, the runs of characters between
//! white space, are its cells: `_` or `e` is an empty cell, `x` is a hole, and
//! a number from 0 to 255, written in decimal digits with an optional `+`
//! before them, is a clue.
use vstd::prelude::*;
use crate::board::{Board, Puzzle, Shape};
use crate::cell::{Cell, Line, Point};
use crate::shape::shape_matches;

verus! {

/// Why a text is not a board: the word `token` of the line `line`, both
/// counted from 0, is not a cell.
#[derive(Clone, Copy, PartialEq, Eq, Debug, Structural)]
pub struct ParseError {
    /// The index of the line.
    pub line: usize,
    /// The index of the word within the line.
    pub token: usize,
}

/// Whether `c` is white space.
pub open spec fn is_blank(c: char) -> bool {
    let u = c as u32;
    ||| 0x09 <= u <= 0x0d
    ||| u == 0x20
    ||| u == 0x85
    ||| u == 0xa0
    ||| u == 0x1680
    ||| 0x2000 <= u <= 0x200a
    ||| u == 0x2028
    ||| u == 0x2029
    ||| u == 0x202f
    ||| u == 0x205f
    ||| u == 0x3000
}

/// How many characters stand at the front of `s` before its first white
/// space, or its end.
pub open spec fn word_len(s: Seq<char>) -> nat
    decreases s.len(),
{
    if s.len() == 0 || is_blank(s[0]) {
        0
    } else {
        1 + word_len(s.drop_first())
    }
}

/// The first word of a text reaches no further than the text.
pub proof fn lemma_word_len_bound(s: Seq<char>)
    ensures
        word_len(s) <= s.len(),
    decreases s.len(),
{
    if s.len() > 0 && !is_blank(s[0]) {
        lemma_word_len_bound(s.drop_first());
    }
}

/// The words of `s`: its longest runs of characters that are not white
/// space, from left to right.
pub open spec fn words(s: Seq<char>) -> Seq<Seq<char>>
    decreases s.len(),
{
    if s.len() == 0 {
        Seq::empty()
    } else if is_blank(s[0]) {
        words(s.drop_first())
    } else {
        proof {
            lemma_word_len_bound(s);
        }
        let n = word_len(s) as int;
        seq![s.take(n)] + words(s.skip(n))
    }
}

/// Whether `c` is a decimal digit.
pub open spec fn is_digit(c: char) -> bool {
    0x30 <= c as u32 <= 0x39
}

/// The number that the decimal digits `ds` write.
pub open spec fn decimal(ds: Seq<char>) -> int
    decreases ds.len(),
{
    if ds.len() == 0 {
        0
    } else {
        decimal(ds.drop_last()) * 10 + (ds.last() as u32 - 0x30)
    }
}

/// Whether `ds` holds decimal digits only.
pub open spec fn all_digits(ds: Seq<char>) -> bool {
    forall|i: int| 0 <= i < ds.len() ==> is_digit(#[trigger] ds[i])
}

/// The clue that the digits `ds` write: they are decimal digits, at least
/// one, and write a number up to 255.
pub open spec fn digits_number(ds: Seq<char>) -> Option<u8> {
    if ds.len() > 0 && all_digits(ds) && decimal(ds) <= 255 {
        Some(decimal(ds) as u8)
    } else {
        None
    }
}

/// The clue that the word `w` writes: decimal digits, at least one, with an
/// optional `+` before them, that write a number up to 255.
pub open spec fn word_number(w: Seq<char>) -> Option<u8> {
    if w.len() > 0 && w[0] == '+' {
        digits_number(w.drop_first())
    } else {
        digits_number(w)
    }
}

/// The cell that the word `w` writes, if it writes one.
pub open spec fn word_cell(w: Seq<char>) -> Option<Cell> {
    if w =~= seq!['_'] || w =~= seq!['e'] {
        Some(Cell::Empty)
    } else if w =~= seq!['x'] {
        Some(Cell::Hole)
    } else {
        match word_number(w) {
            Some(v) => Some(Cell::Const(v)),
            None => None,
        }
    }
}

/// Whether the word `k` of `text` is the first that writes no cell.
pub open spec fn first_bad_word(text: Seq<char>, k: int) -> bool {
    &&& 0 <= k < words(text).len()
    &&& word_cell(words(text)[k]) is None
    &&& forall|j: int| 0 <= j < k ==> word_cell(#[trigger] words(text)[j]) is Some
}

/// The row that `text` writes: the cells of its words, if each word writes
/// one.
pub open spec fn parsed(text: Seq<char>) -> Option<Seq<Cell>> {
    if forall|k: int| 0 <= k < words(text).len() ==> word_cell(#[trigger] words(text)[k]) is Some {
        Some(Seq::new(words(text).len(), |k: int| word_cell(words(text)[k])->0))
    } else {
        None
    }
}

/// The characters of `text`.
fn chars_of(text: &str) -> (r: Vec<char>)
    ensures
        r@ == text@,
{
    let mut r: Vec<char> = Vec::new();
    for c in it: text.chars()
        invariant
            it.seq() == text@,
            r@ == it.seq().take(it.index()),
    {
        r.push(c);
    }
    r
}

/// Whether `c` is white space.
fn is_blank_char(c: char) -> (r: bool)
    ensures
        r == is_blank(c),
{
    let u = c as u32;
    (0x09 <= u && u <= 0x0d) || u == 0x20 || u == 0x85 || u == 0xa0 || u == 0x1680 || (0x2000 <= u
        && u <= 0x200a) || u == 0x2028 || u == 0x2029 || u == 0x202f || u == 0x205f || u == 0x3000
}

/// The first word of `s` is `n` long where the first `n` characters are not
/// white space and the text ends, or white space follows, after them.
proof fn lemma_word_len(s: Seq<char>, n: int)
    requires
        0 <= n <= s.len(),
        forall|j: int| 0 <= j < n ==> !is_blank(#[trigger] s[j]),
        n == s.len() || is_blank(s[n]),
    ensures
        word_len(s) == n,
    decreases n,
{
    if n > 0 {
        lemma_word_len(s.drop_first(), n - 1);
    }
}

/// The first digits of a number write no more than all of them.
proof fn lemma_decimal_grows(ds: Seq<char>, k: int)
    requires
        0 <= k <= ds.len(),
        all_digits(ds),
    ensures
        0 <= decimal(ds.take(k)) <= decimal(ds),
    decreases ds.len() - k,
{
    if k == ds.len() {
        assert(ds.take(k) =~= ds);
        lemma_decimal_nonnegative(ds);
    } else {
        lemma_decimal_grows(ds, k + 1);
        assert(ds.take(k + 1).drop_last() =~= ds.take(k));
        lemma_decimal_nonnegative(ds.take(k));
    }
}

/// Digits write no number below 0.
proof fn lemma_decimal_nonnegative(ds: Seq<char>)
    requires
        all_digits(ds),
    ensures
        0 <= decimal(ds),
    decreases ds.len(),
{
    if ds.len() > 0 {
        lemma_decimal_nonnegative(ds.drop_last());
    }
}

/// The clue that the characters of `text` from `from` up to `to` write.
fn parse_number(text: &Vec<char>, from: usize, to: usize) -> (r: Option<u8>)
    requires
        from < to <= text@.len(),
    ensures
        r == word_number(text@.subrange(from as int, to as int)),
{
    let ghost w = text@.subrange(from as int, to as int);
    let start = if text[from] == '+' {
        from + 1
    } else {
        from
    };
    let ghost ds = text@.subrange(start as int, to as int);
    assert(ds =~= if w.len() > 0 && w[0] == '+' {
        w.drop_first()
    } else {
        w
    });
    if start == to {
        return None;
    }
    let mut acc: u32 = 0;
    let mut i = start;
    while i < to
        invariant
            start <= i <= to <= text@.len(),
            ds == text@.subrange(start as int, to as int),
            w == text@.subrange(from as int, to as int),
            word_number(w) == digits_number(ds),
            forall|j: int| 0 <= j < i - start ==> is_digit(#[trigger] ds[j]),
            acc == decimal(ds.take(i - start)),
            acc <= 255,
        decreases to - i,
    {
        let c = text[i];
        let u = c as u32;
        assert(c == ds[i - start]);
        if u < 0x30 || u > 0x39 {
            return None;
        }
        acc = acc * 10 + (u - 0x30);
        assert(ds.take(i - start + 1).drop_last() =~= ds.take(i - start));
        if acc > 255 {
            proof {
                if all_digits(ds) {
                    lemma_decimal_grows(ds, i - start + 1);
                }
            }
            return None;
        }
        i += 1;
    }
    assert(ds.take(i - start) =~= ds);
    Some(acc as u8)
}

/// The cell that the characters of `text` from `from` up to `to` write.
fn parse_word(text: &Vec<char>, from: usize, to: usize) -> (r: Option<Cell>)
    requires
        from < to <= text@.len(),
    ensures
        r == word_cell(text@.subrange(from as int, to as int)),
{
    let first = text[from];
    if to - from == 1 {
        if first == '_' || first == 'e' {
            return Some(Cell::Empty);
        }
        if first == 'x' {
            return Some(Cell::Hole);
        }
    }
    match parse_number(text, from, to) {
        Some(v) => Some(Cell::Const(v)),
        None => None,
    }
}

impl Line {
    /// Reads one row from a line of text.
    ///
    /// Succeeds if every word of the line writes a cell, and then yields the
    /// cells in the order of the words. Fails at the first word that writes
    /// none, and names it by its index; the line is given as 0.
    pub fn new(text_line: &String) -> (r: Result<Line, ParseError>)
        ensures
            match r {
                Ok(l) => parsed(text_line@) == Some(l@),
                Err(e) => parsed(text_line@) is None && e.line == 0 && first_bad_word(
                    text_line@,
                    e.token as int,
                ),
            },
    {
        let chars = chars_of(text_line.as_str());
        let text = &chars;
        let n = text.len();
        let ghost ws = words(text@);
        let mut cells: Vec<Cell> = Vec::new();
        let mut i: usize = 0;
        assert(text@.skip(0) =~= text@);
        while i < n
            invariant
                i <= n,
                n == text@.len(),
                text@ == text_line@,
                ws == words(text@),
                cells.len() <= ws.len(),
                ws =~= ws.take(cells.len() as int) + words(text@.skip(i as int)),
                forall|k: int| 0 <= k < cells.len() ==> word_cell(#[trigger] ws[k]) == Some(cells[k]),
            decreases n - i,
        {
            let ghost tail = text@.skip(i as int);
            if is_blank_char(text[i]) {
                assert(tail.drop_first() =~= text@.skip(i + 1));
                i += 1;
            } else {
                let mut e: usize = i + 1;
                while e < n && !is_blank_char(text[e])
                    invariant
                        i < e <= n,
                        n == text@.len(),
                        forall|j: int| i <= j < e ==> !is_blank(#[trigger] text@[j]),
                    decreases n - e,
                {
                    e += 1;
                }
                proof {
                    assert forall|j: int| 0 <= j < e - i implies !is_blank(#[trigger] tail[j]) by {
                        assert(tail[j] == text@[i + j]);
                    }
                    lemma_word_len(tail, e - i);
                    assert(tail.take(e - i) =~= text@.subrange(i as int, e as int));
                    assert(tail.skip(e - i) =~= text@.skip(e as int));
                    assert(ws[cells.len() as int] == words(tail)[0]);
                }
                match parse_word(text, i, e) {
                    Some(cell) => {
                        cells.push(cell);
                    },
                    None => {
                        return Err(ParseError { line: 0, token: cells.len() });
                    },
                }
                assert(ws.take(cells.len() as int) =~= ws.take(cells.len() - 1).push(
                    ws[cells.len() - 1],
                ));
                i = e;
            }
        }
        Ok(Line { line: cells })
    }
}

/// A row read from text holds no tentative number.
pub proof fn lemma_parsed_is_fresh(text: Seq<char>, j: int)
    requires
        parsed(text) is Some,
        0 <= j < parsed(text)->0.len(),
    ensures
        !(parsed(text)->0[j] is Candidate),
{
}

impl Board {
    /// Reads a board from the lines of a text, one row per line, top to
    /// bottom, and derives from the cells the shape of the board, the list
    /// of its clues and the cells where the path starts and ends.
    ///
    /// Succeeds if every word of every line writes a cell. Fails at the
    /// first line that holds a word that writes none, and names the line and
    /// the first such word in it.
    pub fn new(lines: &Vec<String>) -> (r: Result<Board, ParseError>)
        ensures
            match r {
                Ok(b) => {
                    &&& b@.grid.len() == lines.len()
                    &&& forall|i: int|
                        0 <= i < lines.len() ==> parsed(#[trigger] lines[i]@) == Some(b@.grid[i])
                    &&& shape_matches(b@.widths(), b@.shape)
                    &&& b@.derived()
                    &&& b@.fresh()
                },
                Err(e) => {
                    &&& e.line < lines.len()
                    &&& forall|i: int| 0 <= i < e.line ==> parsed(#[trigger] lines[i]@) is Some
                    &&& first_bad_word(lines[e.line as int]@, e.token as int)
                },
            },
    {
        let mut rows: Vec<Line> = Vec::new();
        let mut i: usize = 0;
        while i < lines.len()
            invariant
                i <= lines.len(),
                rows.len() == i,
                forall|k: int| 0 <= k < i ==> parsed(#[trigger] lines[k]@) == Some(rows[k]@),
            decreases lines.len() - i,
        {
            match Line::new(&lines[i]) {
                Ok(l) => {
                    rows.push(l);
                },
                Err(e) => {
                    return Err(ParseError { line: i, token: e.token });
                },
            }
            i += 1;
        }
        let mut b = Board {
            board: rows,
            consts: Vec::new(),
            start: Point { line: 0, col: 0 },
            end: Point { line: 0, col: 0 },
            current_const_index: 1,
            shape: Shape::Monotonic,
        };
        b.shape = b.detect_shape();
        b.find_constants();
        proof {
            assert forall|p: Point| b@.contains(p) implies !((#[trigger] b@.cell(p)) is Candidate) by {
                lemma_parsed_is_fresh(lines[p.line as int]@, p.col as int);
            }
        }
        Ok(b)
    }
}

} // verus!
