use std::cell::RefCell;
use std::rc::Rc;
use sudoku_solver::grid::ObserveableGrid;
use sudoku_solver::observer::{DummyGridObserver, DummySolverObserver, SolverObserver};
use sudoku_solver::reader::{parse_hints, read_hardcoded, set_hints};
use sudoku_solver::solver::{Guess, Solver, SudokuSolver};
use sudoku_solver::writer::solution_line;

type Plain = SudokuSolver<ObserveableGrid<DummyGridObserver>, DummySolverObserver>;

fn plain() -> Plain {
    SudokuSolver::new(ObserveableGrid::new(DummyGridObserver {}), DummySolverObserver {})
}

const EXAMPLE_SOLUTION: &str =
    "534678912672195348198342567859761423426853791713924856961537284287419635345286179";

fn as_text(v: &[i32]) -> String {
    v.iter().map(|d| d.to_string()).collect()
}

fn assert_valid(v: &[i32]) {
    assert_eq!(v.len(), 81);
    for u in 0..9 {
        let mut row: Vec<i32> = (0..9).map(|x| v[u * 9 + x]).collect();
        let mut col: Vec<i32> = (0..9).map(|y| v[y * 9 + u]).collect();
        let mut block: Vec<i32> =
            (0..9).map(|k| v[((u / 3) * 3 + k / 3) * 9 + (u % 3) * 3 + k % 3]).collect();
        row.sort();
        col.sort();
        block.sort();
        let all: Vec<i32> = (1..10).collect();
        assert_eq!(row, all);
        assert_eq!(col, all);
        assert_eq!(block, all);
    }
}

fn line_of(puzzle: &str) -> Vec<char> {
    puzzle.chars().collect()
}

#[test]
fn example_puzzle_is_solved_exactly() {
    let mut s = plain();
    read_hardcoded(&mut s);
    let v = s.solve().unwrap();
    assert_eq!(as_text(&v), EXAMPLE_SOLUTION);
}

#[test]
fn example_puzzle_by_single_hints() {
    let hints = [
        (0, 0, 5), (1, 0, 3), (4, 0, 7), (0, 1, 6), (3, 1, 1), (4, 1, 9), (5, 1, 5),
        (1, 2, 9), (2, 2, 8), (7, 2, 6), (0, 3, 8), (4, 3, 6), (8, 3, 3), (0, 4, 4),
        (3, 4, 8), (5, 4, 3), (8, 4, 1), (0, 5, 7), (4, 5, 2), (8, 5, 6), (1, 6, 6),
        (6, 6, 2), (7, 6, 8), (3, 7, 4), (4, 7, 1), (5, 7, 9), (8, 7, 5), (4, 8, 8),
        (7, 8, 7), (8, 8, 9),
    ];
    let mut s = plain();
    for (x, y, d) in hints {
        s.set_hint(x, y, d);
    }
    let v = s.solve().unwrap();
    assert_eq!(as_text(&v), EXAMPLE_SOLUTION);
    assert_valid(&v);
    for (x, y, d) in hints {
        assert_eq!(v[(y * 9 + x) as usize], d);
    }
}

const HARD: &str =
    "8..........36......7..9.2...5...7.......457.....1...3...1....68..85...1..9....4..";

#[test]
fn hard_puzzle_solution_is_valid_and_keeps_hints() {
    let line = line_of(HARD);
    let hints = parse_hints(&line);
    let mut s = plain();
    set_hints(&mut s, &hints);
    let v = s.solve().unwrap();
    assert_valid(&v);
    for (x, y, d) in hints {
        assert_eq!(v[(y * 9 + x) as usize], d);
    }
}

#[test]
fn duplicate_digit_in_a_row_is_unsolvable() {
    let mut s = plain();
    s.set_hint(0, 0, 5);
    s.set_hint(1, 0, 5);
    assert_eq!(s.solve(), None);
}

#[test]
fn duplicate_digit_in_a_block_is_unsolvable() {
    let mut s = plain();
    s.set_hint(0, 0, 3);
    s.set_hint(2, 2, 3);
    assert_eq!(s.solve(), None);
}

#[test]
fn unsolvable_only_after_search() {
    // Every hint is consistent with its peers, but (8, 0) has no digit left:
    // row 0 holds 1 to 8 apart from (8, 0), and column 8 holds 9.
    let mut s = plain();
    for x in 0..8 {
        s.set_hint(x, 0, x + 1);
    }
    s.set_hint(8, 4, 9);
    assert_eq!(s.solve(), None);
}

#[test]
fn empty_puzzle_is_solved() {
    let mut s = plain();
    let v = s.solve().unwrap();
    assert_valid(&v);
}

#[test]
fn last_hint_for_a_square_wins() {
    let mut s = plain();
    read_hardcoded(&mut s);
    s.set_hint(0, 0, 1);
    s.set_hint(0, 0, 5);
    let v = s.solve().unwrap();
    assert_eq!(as_text(&v), EXAMPLE_SOLUTION);
}

struct Recorder {
    log: Rc<RefCell<Vec<Vec<(i32, i32, i32, Vec<i32>)>>>>,
}

impl SolverObserver for Recorder {
    fn display_guesses(&mut self, guesses: &Vec<Guess>) {
        let snapshot = guesses
            .iter()
            .map(|g| (g.x, g.y, g.digit, g.remaining_possibles.clone()))
            .collect();
        self.log.borrow_mut().push(snapshot);
    }
}

fn recorded_run(puzzle: &str) -> (Option<Vec<i32>>, Vec<Vec<(i32, i32, i32, Vec<i32>)>>) {
    let log = Rc::new(RefCell::new(Vec::new()));
    let mut s = SudokuSolver::new(
        ObserveableGrid::new(DummyGridObserver {}),
        Recorder { log: log.clone() },
    );
    set_hints(&mut s, &parse_hints(&line_of(puzzle)));
    let r = s.solve();
    let seen = log.borrow().clone();
    (r, seen)
}

#[test]
fn solving_twice_gives_the_same_guesses_and_result() {
    let (r1, g1) = recorded_run(HARD);
    let (r2, g2) = recorded_run(HARD);
    assert!(!g1.is_empty());
    assert_eq!(g1, g2);
    assert_eq!(r1, r2);
    let (r3, g3) = recorded_run("55");
    let (r4, g4) = recorded_run("55");
    assert_eq!(r3, None);
    assert_eq!(r3, r4);
    assert_eq!(g3, g4);
}

#[test]
fn observers_see_well_formed_guesses_in_distinct_squares() {
    let (_, log) = recorded_run(HARD);
    for guesses in &log {
        for (k, (x, y, d, rest)) in guesses.iter().enumerate() {
            assert!((0..9).contains(x) && (0..9).contains(y) && (1..10).contains(d));
            assert!(rest.iter().all(|r| r != d && (1..10).contains(r)));
            assert!(rest.windows(2).all(|w| w[0] < w[1]));
            for (x2, y2, _, _) in &guesses[k + 1..] {
                assert!((x, y) != (x2, y2));
            }
        }
    }
}

#[test]
fn guesses_follow_the_fewest_candidates_rule() {
    let (_, log) = recorded_run(HARD);
    let first = &log[0];
    assert_eq!(first.len(), 1);
    let (_, _, digit, rest) = &first[0];
    assert!(rest.iter().all(|d| d > digit));
    assert!(rest.windows(2).all(|w| w[0] < w[1]));
    // A failed guess is replaced by the next untried candidate of the same square.
    let mut replaced = false;
    for w in log.windows(2) {
        let (a, b) = (&w[0], &w[1]);
        if b.len() <= a.len() && !b.is_empty() {
            let (x, y, d, rest) = &b[b.len() - 1];
            let (px, py, _, prest) = &a[b.len() - 1];
            if (x, y) == (px, py) && prest.first() == Some(d) {
                assert_eq!(rest.as_slice(), &prest[1..]);
                replaced = true;
            }
        }
    }
    assert!(replaced);
}

#[test]
fn parse_hints_reads_digits_and_skips_the_rest() {
    let line = line_of("1.3x0\u{e9}9");
    assert_eq!(parse_hints(&line), vec![(0, 0, 1), (2, 0, 3), (6, 0, 9)]);
    let long: Vec<char> = std::iter::repeat('4').take(90).collect();
    let hints = parse_hints(&long);
    assert_eq!(hints.len(), 81);
    assert_eq!(hints[80], (8, 8, 4));
}

#[test]
fn solution_line_is_digits_and_newline() {
    let v: Vec<i32> = EXAMPLE_SOLUTION.chars().map(|c| c.to_digit(10).unwrap() as i32).collect();
    let bytes = solution_line(&v);
    assert_eq!(String::from_utf8(bytes).unwrap(), format!("{}\n", EXAMPLE_SOLUTION));
    assert_eq!(solution_line(&vec![7, 1]), b"71\n".to_vec());
}
