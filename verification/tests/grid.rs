use numberlink::board::{Board, Shape};
use numberlink::cell::{Cell, Line, Point};
use numberlink::parse::ParseError;

fn lines(text: &[&str]) -> Vec<String> {
    text.iter().map(|l| l.to_string()).collect()
}

fn at(line: usize, col: usize) -> Point {
    Point { line, col }
}

fn row(text: &str) -> Result<Line, ParseError> {
    Line::new(&text.to_string())
}

#[test]
fn words_become_cells() {
    let l = row("1 _ e x 12").unwrap();
    assert_eq!(
        l.line,
        vec![Cell::Const(1), Cell::Empty, Cell::Empty, Cell::Hole, Cell::Const(12)]
    );
}

#[test]
fn white_space_of_any_length_parts_words() {
    let l = row("  1 \t _\u{a0}x  \r\n").unwrap();
    assert_eq!(l.line, vec![Cell::Const(1), Cell::Empty, Cell::Hole]);
    assert_eq!(row("").unwrap().line, Vec::<Cell>::new());
    assert_eq!(row("   ").unwrap().line, Vec::<Cell>::new());
}

#[test]
fn numbers_up_to_255_are_clues() {
    assert_eq!(row("0").unwrap().line, vec![Cell::Const(0)]);
    assert_eq!(row("255").unwrap().line, vec![Cell::Const(255)]);
    assert_eq!(row("007").unwrap().line, vec![Cell::Const(7)]);
    assert_eq!(row("+5").unwrap().line, vec![Cell::Const(5)]);
    assert_eq!(row("0000000000000000000000255").unwrap().line, vec![Cell::Const(255)]);
}

#[test]
fn other_words_are_refused() {
    assert_eq!(row("256"), Err(ParseError { line: 0, token: 0 }));
    assert_eq!(row("1 q 3"), Err(ParseError { line: 0, token: 1 }));
    assert_eq!(row("1 2 -3 q"), Err(ParseError { line: 0, token: 2 }));
    assert_eq!(row("+"), Err(ParseError { line: 0, token: 0 }));
    assert_eq!(row("++1"), Err(ParseError { line: 0, token: 0 }));
    assert_eq!(row("1+"), Err(ParseError { line: 0, token: 0 }));
    assert_eq!(row("_ __"), Err(ParseError { line: 0, token: 1 }));
    assert_eq!(row("x xx"), Err(ParseError { line: 0, token: 1 }));
    assert_eq!(row("E"), Err(ParseError { line: 0, token: 0 }));
    assert_eq!(row("1_000"), Err(ParseError { line: 0, token: 0 }));
    assert_eq!(row("99999999999999999999999999"), Err(ParseError { line: 0, token: 0 }));
    assert_eq!(row("2560"), Err(ParseError { line: 0, token: 0 }));
    assert_eq!(row("\u{664}"), Err(ParseError { line: 0, token: 0 }));
}

#[test]
fn board_names_the_first_bad_word() {
    let r = Board::new(&lines(&["1 _", "_ ? !", "?"]));
    assert_eq!(r, Err(ParseError { line: 1, token: 1 }));
}

#[test]
fn board_is_read_row_by_row() {
    let b = Board::new(&lines(&["1 _", "x 5 _", "3"])).unwrap();
    assert_eq!(b.board.len(), 3);
    assert_eq!(b.board[0].line, vec![Cell::Const(1), Cell::Empty]);
    assert_eq!(b.board[1].line, vec![Cell::Hole, Cell::Const(5), Cell::Empty]);
    assert_eq!(b.board[2].line, vec![Cell::Const(3)]);
    assert_eq!(b.consts, vec![1, 3, 5]);
    assert_eq!(b.start, at(0, 0));
    assert_eq!(b.end, at(1, 1));
    assert_eq!(b.current_const_index, 1);
    assert_eq!(b.shape, Shape::Monotonic);
}

#[test]
fn clues_are_listed_in_ascending_order_with_repeats() {
    let b = Board::new(&lines(&["9 1 4", "4 0 200 1"])).unwrap();
    assert_eq!(b.consts, vec![0, 1, 1, 4, 4, 9, 200]);
}

#[test]
fn start_is_the_last_one_and_end_the_first_largest() {
    let b = Board::new(&lines(&["1 7 1", "7 1 7"])).unwrap();
    assert_eq!(b.start, at(1, 1));
    assert_eq!(b.end, at(0, 1));
}

#[test]
fn board_without_clues_starts_and_ends_at_the_origin() {
    let b = Board::new(&lines(&["_ x", "_ _"])).unwrap();
    assert_eq!(b.consts, Vec::<u8>::new());
    assert_eq!(b.start, at(0, 0));
    assert_eq!(b.end, at(0, 0));
}

#[test]
fn clue_zero_is_never_the_end() {
    let b = Board::new(&lines(&["_ 0", "0 _"])).unwrap();
    assert_eq!(b.consts, vec![0, 0]);
    assert_eq!(b.start, at(0, 0));
    assert_eq!(b.end, at(0, 0));
    let b = Board::new(&lines(&["_ 0", "2 _"])).unwrap();
    assert_eq!(b.start, at(0, 0));
    assert_eq!(b.end, at(1, 0));
}

#[test]
fn deriving_twice_changes_nothing() {
    let mut b = Board::new(&lines(&["3 _ 1", "_ 8 x", "2"])).unwrap();
    let once = b.clone();
    b.find_constants();
    assert_eq!(b, once);
    b.find_constants();
    assert_eq!(b.consts, once.consts);
    assert_eq!(b.start, once.start);
    assert_eq!(b.end, once.end);
}

#[test]
fn deriving_forgets_what_the_fields_held() {
    let mut b = Board::new(&lines(&["3 _ 1", "_ 8 x"])).unwrap();
    b.consts = vec![9, 9, 9];
    b.start = at(5, 5);
    b.end = at(6, 6);
    b.current_const_index = 4;
    b.find_constants();
    assert_eq!(b.consts, vec![1, 3, 8]);
    assert_eq!(b.start, at(0, 2));
    assert_eq!(b.end, at(1, 1));
    assert_eq!(b.current_const_index, 4);
    b.set_cell(at(0, 1), Cell::Const(1));
    b.set_cell(at(1, 1), Cell::Candidate(8));
    b.find_constants();
    assert_eq!(b.consts, vec![1, 1, 3]);
    assert_eq!(b.start, at(0, 2));
    assert_eq!(b.end, at(0, 0));
}

#[test]
fn shape_is_told_from_the_widths() {
    let shape = |text: &[&str]| Board::new(&lines(text)).unwrap().shape;
    assert_eq!(shape(&[]), Shape::Monotonic);
    assert_eq!(shape(&["_"]), Shape::Monotonic);
    assert_eq!(shape(&["_", "_ _"]), Shape::Monotonic);
    assert_eq!(shape(&["_", "_ _", "_ _ _"]), Shape::Monotonic);
    assert_eq!(shape(&["_ _ _", "_ _", "_"]), Shape::Monotonic);
    assert_eq!(shape(&["_ _", "_ _", "_ _"]), Shape::Monotonic);
    assert_eq!(shape(&["_", "_ _ _", "_"]), Shape::Diamond { middle: 1 });
    assert_eq!(shape(&["_ _ _", "_", "_ _ _"]), Shape::Diamond { middle: 1 });
    assert_eq!(shape(&["_", "_ _", "_ _ _", "_ _", "_"]), Shape::Diamond { middle: 2 });
    assert_eq!(shape(&["_ _ _", "_ _", "", "_ _", "_ _ _"]), Shape::Diamond { middle: 2 });
    assert_eq!(shape(&["_ _", "_", "_ _ _"]), Shape::Monotonic);
    assert_eq!(shape(&["_", "_ _", "_ _ _", "_"]), Shape::Monotonic);
    assert_eq!(shape(&["_", "_ _", "_ _ _", "_ _", "_ _"]), Shape::Monotonic);
    assert_eq!(shape(&["_", "_ _", "_ _", "_ _", "_"]), Shape::Monotonic);
    assert_eq!(shape(&["_", "_ _ _", "_ _", "_ _ _", "_"]), Shape::Monotonic);
    assert_eq!(shape(&["_", "_ _", "_ _", "_"]), Shape::Monotonic);
    assert_eq!(shape(&["_", "_ _", "_", "_ _"]), Shape::Monotonic);
    assert_eq!(shape(&["_ _", "_ _", "_"]), Shape::Monotonic);
    assert_eq!(shape(&["_", "_ _", "_ _ _", "_ _ _"]), Shape::Monotonic);
}

#[test]
fn cell_value_is_its_number() {
    assert_eq!(Cell::Empty.value(), None);
    assert_eq!(Cell::Hole.value(), None);
    assert_eq!(Cell::Const(7).value(), Some(7));
    assert_eq!(Cell::Candidate(9).value(), Some(9));
}

#[test]
fn set_cell_replaces_one_cell() {
    let mut b = Board::new(&lines(&["1 _", "_ 3"])).unwrap();
    let before = b.clone();
    b.set_cell(at(1, 0), Cell::Hole);
    assert_eq!(b.board[1].line, vec![Cell::Hole, Cell::Const(3)]);
    assert_eq!(b.board[0], before.board[0]);
    assert_eq!(b.consts, before.consts);
    b.set_cell(at(1, 0), Cell::Empty);
    assert_eq!(b, before);
}
