use numberlink::board::{Board, Shape};
use numberlink::cell::{Cell, Point};

fn board(lines: &[&str]) -> Board {
    let lines: Vec<String> = lines.iter().map(|l| l.to_string()).collect();
    Board::new(&lines).unwrap()
}

fn at(line: usize, col: usize) -> Point {
    Point { line, col }
}

#[test]
fn trivial_line_is_solved_left_to_right() {
    let mut b = board(&["1 _ 3"]);
    assert_eq!(b.start, at(0, 0));
    assert_eq!(b.end, at(0, 2));
    assert_eq!(b.consts, vec![1, 3]);
    let start = b.start;
    assert!(b.solve(start));
    assert_eq!(b.board[0].line, vec![Cell::Const(1), Cell::Candidate(2), Cell::Const(3)]);
    assert_eq!(b.current_const_index, 1);
}

#[test]
fn hole_blocks_the_only_path() {
    let mut b = board(&["1 x 3"]);
    let before = b.clone();
    let start = b.start;
    assert!(!b.solve(start));
    assert_eq!(b, before);
    assert_eq!(b.board[0].line, vec![Cell::Const(1), Cell::Hole, Cell::Const(3)]);
}

#[test]
fn two_rows_of_equal_width_are_solved_downwards_first() {
    let mut b = board(&["1 _", "_ 3"]);
    assert_eq!(b.shape, Shape::Monotonic);
    assert_eq!(b.start, at(0, 0));
    assert_eq!(b.end, at(1, 1));
    let start = b.start;
    assert!(b.solve(start));
    assert_eq!(b.board[0].line, vec![Cell::Const(1), Cell::Empty]);
    assert_eq!(b.board[1].line, vec![Cell::Candidate(2), Cell::Const(3)]);
    assert_eq!(b.current_const_index, 1);
}

#[test]
fn diamond_middle_cell_has_four_neighbours() {
    let b = board(&["1", "_ _ _", "3"]);
    assert_eq!(b.shape, Shape::Diamond { middle: 1 });
    assert_eq!(b.find_neighbours(at(1, 1)), vec![at(0, 0), at(2, 0), at(1, 0), at(1, 2)]);
    assert_eq!(b.find_neighbours(at(1, 1)).len(), 4);
}

#[test]
fn diamond_is_solved_through_the_middle_row() {
    let mut b = board(&["1", "_ _ _", "3"]);
    let start = b.start;
    assert!(b.solve(start));
    assert_eq!(b.board[0].line, vec![Cell::Const(1)]);
    assert_eq!(b.board[1].line, vec![Cell::Candidate(2), Cell::Empty, Cell::Empty]);
    assert_eq!(b.board[2].line, vec![Cell::Const(3)]);
}

#[test]
fn failed_search_restores_every_cell_and_the_cursor() {
    let mut b = board(&["1 _ _", "_ x _", "_ _ 9"]);
    let before = b.clone();
    let start = b.start;
    assert!(!b.solve(start));
    assert_eq!(b.board, before.board);
    assert_eq!(b.current_const_index, before.current_const_index);
    assert_eq!(b.consts, before.consts);
    assert_eq!(b, before);
}

#[test]
fn solved_board_shows_a_numbered_path() {
    let mut b = board(&["1 _ _", "_ _ _", "_ _ 9"]);
    let start = b.start;
    assert!(b.solve(start));
    let mut path: Vec<Option<Point>> = vec![None; 9];
    for (l, row) in b.board.iter().enumerate() {
        for (c, cell) in row.line.iter().enumerate() {
            let v = cell.value().expect("every cell of this board is on the path");
            assert!(1 <= v && v <= 9);
            assert!(path[v as usize - 1].is_none(), "the number {} stands twice", v);
            path[v as usize - 1] = Some(at(l, c));
        }
    }
    let path: Vec<Point> = path.into_iter().map(|p| p.unwrap()).collect();
    assert_eq!(path[0], b.start);
    assert_eq!(path[8], b.end);
    for k in 0..8 {
        assert!(b.find_neighbours(path[k]).contains(&path[k + 1]));
    }
    assert_eq!(b.board[0].line[0], Cell::Const(1));
    assert_eq!(b.board[2].line[2], Cell::Const(9));
    assert_eq!(b.current_const_index, 1);
}

#[test]
fn first_path_in_neighbour_order_is_found() {
    let mut b = board(&["1 _ _", "_ _ _", "_ _ 9"]);
    let start = b.start;
    assert!(b.solve(start));
    assert_eq!(b.board[0].line, vec![Cell::Const(1), Cell::Candidate(6), Cell::Candidate(7)]);
    assert_eq!(b.board[1].line, vec![Cell::Candidate(2), Cell::Candidate(5), Cell::Candidate(8)]);
    assert_eq!(b.board[2].line, vec![Cell::Candidate(3), Cell::Candidate(4), Cell::Const(9)]);
}

#[test]
fn clues_are_met_in_order() {
    let mut b = board(&["1 _ 3 _ 5"]);
    assert_eq!(b.consts, vec![1, 3, 5]);
    let start = b.start;
    assert!(b.solve(start));
    assert_eq!(
        b.board[0].line,
        vec![
            Cell::Const(1),
            Cell::Candidate(2),
            Cell::Const(3),
            Cell::Candidate(4),
            Cell::Const(5)
        ]
    );
    assert_eq!(b.current_const_index, 1);
}

#[test]
fn clue_reached_too_early_is_no_solution() {
    let mut b = board(&["1 4"]);
    let before = b.clone();
    let start = b.start;
    assert!(!b.solve(start));
    assert_eq!(b, before);
}

#[test]
fn clue_reached_too_late_is_no_solution() {
    let mut b = board(&["1 _ _ 3"]);
    let before = b.clone();
    let start = b.start;
    assert!(!b.solve(start));
    assert_eq!(b, before);
}

#[test]
fn search_from_the_end_cell_succeeds_at_once() {
    let mut b = board(&["1 _ 3"]);
    let before = b.clone();
    let end = b.end;
    assert!(b.solve(end));
    assert_eq!(b, before);
}

#[test]
fn search_from_an_empty_cell_fails() {
    let mut b = board(&["1 _ 3"]);
    let before = b.clone();
    assert!(!b.solve(at(0, 1)));
    assert_eq!(b, before);
}

#[test]
fn search_from_a_hole_fails() {
    let mut b = board(&["1 x 3"]);
    let before = b.clone();
    assert!(!b.solve(at(0, 1)));
    assert_eq!(b, before);
}

#[test]
fn search_from_outside_the_board_fails() {
    let mut b = board(&["1 _ 3"]);
    let before = b.clone();
    assert!(!b.solve(at(4, 0)));
    assert!(!b.solve(at(0, 3)));
    assert_eq!(b, before);
}

#[test]
fn search_with_all_clues_consumed_fails() {
    let mut b = board(&["1 _ 3"]);
    b.current_const_index = 2;
    let before = b.clone();
    let start = b.start;
    assert!(!b.solve(start));
    assert_eq!(b, before);
}

#[test]
fn search_continues_from_a_tentative_number() {
    let mut b = board(&["1 _ _ 4"]);
    b.set_cell(at(0, 1), Cell::Candidate(2));
    assert!(b.solve(at(0, 1)));
    assert_eq!(
        b.board[0].line,
        vec![Cell::Const(1), Cell::Candidate(2), Cell::Candidate(3), Cell::Const(4)]
    );
    assert_eq!(b.current_const_index, 1);
}

#[test]
fn tentative_numbers_are_never_stepped_on() {
    let mut b = board(&["1 _ _ 4"]);
    b.set_cell(at(0, 2), Cell::Candidate(3));
    let before = b.clone();
    let start = b.start;
    assert!(!b.solve(start));
    assert_eq!(b, before);
}

#[test]
fn highest_number_does_not_overflow() {
    let mut b = board(&["254 255 _"]);
    assert_eq!(b.consts, vec![254, 255]);
    b.current_const_index = 1;
    assert!(b.solve(at(0, 0)));
    let mut b = board(&["255 _"]);
    b.set_cell(at(0, 0), Cell::Candidate(255));
    b.consts = vec![1, 255];
    b.end = at(3, 3);
    let before = b.clone();
    assert!(!b.solve(at(0, 0)));
    assert_eq!(b, before);
}

#[test]
fn board_without_rows_is_solved_at_once() {
    let mut b = board(&[]);
    assert_eq!(b.start, at(0, 0));
    assert_eq!(b.end, at(0, 0));
    let start = b.start;
    assert!(b.solve(start));
}

#[test]
fn repeated_clue_is_left_off_the_path() {
    let mut b = board(&["1 _ 3 3"]);
    assert_eq!(b.consts, vec![1, 3, 3]);
    assert_eq!(b.end, at(0, 2));
    let start = b.start;
    assert!(b.solve(start));
    assert_eq!(
        b.board[0].line,
        vec![Cell::Const(1), Cell::Candidate(2), Cell::Const(3), Cell::Const(3)]
    );
}
