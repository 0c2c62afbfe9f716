use numberlink::board::Board;
use numberlink::cell::{Cell, Line};

#[test]
fn cells_are_written_in_fields() {
    assert_eq!(Cell::Empty.render(), " __ ");
    assert_eq!(Cell::Hole.render(), " xx ");
    assert_eq!(Cell::Const(0).render(), " 00 ");
    assert_eq!(Cell::Const(7).render(), " 07 ");
    assert_eq!(Cell::Candidate(9).render(), " 09 ");
    assert_eq!(Cell::Candidate(10).render(), " 10 ");
    assert_eq!(Cell::Const(42).render(), " 42 ");
    assert_eq!(Cell::Const(99).render(), " 99 ");
    assert_eq!(Cell::Const(100).render(), " 100 ");
    assert_eq!(Cell::Candidate(205).render(), " 205 ");
    assert_eq!(Cell::Const(255).render(), " 255 ");
}

#[test]
fn every_number_is_written_as_the_formatter_writes_it() {
    for v in 0..=255u8 {
        assert_eq!(Cell::Const(v).render(), format!(" {:02} ", v));
        assert_eq!(Cell::Candidate(v).render(), format!(" {:02} ", v));
    }
}

#[test]
fn row_is_written_on_one_line() {
    let l = Line { line: vec![Cell::Const(1), Cell::Empty, Cell::Hole, Cell::Candidate(12)] };
    assert_eq!(l.print(0), " 01  __  xx  12 \n");
    assert_eq!(Line { line: vec![] }.print(0), "\n");
}

#[test]
fn margin_is_one_less_than_the_indent() {
    let l = Line { line: vec![Cell::Hole] };
    assert_eq!(l.print(-3), " xx \n");
    assert_eq!(l.print(0), " xx \n");
    assert_eq!(l.print(1), " xx \n");
    assert_eq!(l.print(2), "  xx \n");
    assert_eq!(l.print(5), "     xx \n");
    assert_eq!(l.print(i32::MIN), " xx \n");
}

#[test]
fn board_is_written_row_by_row() {
    let lines: Vec<String> = vec!["1 _".to_string(), "x 5 _".to_string(), "".to_string()];
    let b = Board::new(&lines).unwrap();
    assert_eq!(b.print(), " 01  __ \n xx  05  __ \n\n");
    assert_eq!(Board::new(&Vec::new()).unwrap().print(), "");
}

#[test]
fn solved_board_is_written_with_its_path() {
    let lines: Vec<String> = vec!["1 _ 3".to_string()];
    let mut b = Board::new(&lines).unwrap();
    let start = b.start;
    assert!(b.solve(start));
    assert_eq!(b.print(), " 01  02  03 \n");
}
