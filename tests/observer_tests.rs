use sudoku_solver::observer::{Highlight, TermObserver, TermSolverObserver, GRID_SIZE};

#[test]
fn frames_cover_their_units() {
    let t = TermObserver {};
    let b = t.block_frame(3, 6);
    assert_eq!((b.x, b.y, b.width, b.height, b.active), (15, 30, 15, 15, true));
    let r = t.row_frame(2);
    assert_eq!((r.x, r.y, r.width, r.height), (0, 10, 45, 5));
    let c = t.column_frame(8);
    assert_eq!((c.x, c.y, c.width, c.height), (40, 0, 5, 45));
    assert_eq!(GRID_SIZE, 5);
    assert!(!Highlight::inactive().active);
}

#[test]
fn candidates_are_drawn_as_a_pad() {
    let t = TermObserver {};
    assert_eq!(t.digit_position(0, 0, 1), (2, 2));
    assert_eq!(t.digit_position(0, 0, 9), (4, 4));
    assert_eq!(t.digit_position(2, 1, 5), (13, 8));
}

#[test]
fn dropped_guess_lines_are_blanked() {
    let mut o = TermSolverObserver::new();
    assert_eq!(o.num_shown(), 0);
    assert_eq!(o.update(3), (3, 3));
    assert_eq!(o.update(1), (1, 3));
    assert_eq!(o.num_shown(), 1);
    assert_eq!(o.update(2), (2, 2));
}
