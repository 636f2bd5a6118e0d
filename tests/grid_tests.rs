use sudoku_solver::grid::{Grid, ObserveableGrid};
use sudoku_solver::observer::DummyGridObserver;

fn fresh() -> ObserveableGrid<DummyGridObserver> {
    ObserveableGrid::new(DummyGridObserver {})
}

fn is_peer(x: i32, y: i32, a: i32, b: i32) -> bool {
    (x, y) != (a, b) && (x == a || y == b || (x / 3 == a / 3 && y / 3 == b / 3))
}

#[test]
fn eliminate_touches_exactly_the_peers() {
    let mut g = fresh();
    g.set_hint(4, 4, 5);
    let mut reported = Vec::new();
    assert!(g.eliminate(4, 4, 5, &mut reported).is_ok());
    assert!(reported.is_empty());
    for y in 0..9 {
        for x in 0..9 {
            let c = g.cell(x, y);
            if (x, y) == (4, 4) {
                assert_eq!(c.num_possibles(), 1);
                assert!(c.is_possible(5));
            } else if is_peer(4, 4, x, y) {
                assert_eq!(c.num_possibles(), 8);
                assert!(!c.is_possible(5));
            } else {
                assert_eq!(c.num_possibles(), 9);
            }
        }
    }
}

#[test]
fn eliminate_reports_squares_that_become_fixed() {
    let mut g = fresh();
    for d in 1..9 {
        if d != 3 {
            g.eliminate_possible(8, 0, d).unwrap();
        }
    }
    // (8, 0) now holds 3 and 9.
    g.set_hint(0, 0, 9);
    let mut reported = Vec::new();
    assert!(g.eliminate(0, 0, 9, &mut reported).is_ok());
    assert_eq!(reported, vec![(8, 0)]);
    assert_eq!(g.cell(8, 0).first_possible(), Some(3));
    assert_eq!(g.cell(8, 0).num_possibles(), 1);
}

#[test]
fn eliminate_fails_when_a_peer_would_be_emptied() {
    let mut g = fresh();
    g.set_hint(0, 0, 5);
    g.set_hint(8, 8, 5);
    g.set_hint(0, 8, 5);
    let mut reported = Vec::new();
    assert!(g.eliminate(0, 0, 5, &mut reported).is_err());
    let mut g2 = fresh();
    g2.set_hint(0, 0, 5);
    g2.set_hint(8, 8, 5);
    assert!(g2.eliminate(0, 0, 5, &mut reported).is_ok());
}

#[test]
fn dump_solution_needs_every_square_fixed() {
    let mut g = fresh();
    assert_eq!(g.dump_solution(), None);
    for i in 0..81 {
        g.set_hint(i % 9, i / 9, 1 + (i % 9 + 3 * (i / 9) + i / 27) % 9);
    }
    let v = g.dump_solution().unwrap();
    assert_eq!(v.len(), 81);
    assert_eq!(&v[0..9], &[1, 2, 3, 4, 5, 6, 7, 8, 9]);
    g.eliminate_possible(3, 3, 2).unwrap();
    let mut g2 = g.snapshot();
    g2.eliminate_possible(0, 0, 1).unwrap_err();
    assert_eq!(g2.dump_solution(), None);
    assert!(g.dump_solution().is_some());
}

#[test]
fn a_saved_grid_is_unaffected_by_later_work() {
    let mut g = fresh();
    g.set_hint(2, 2, 7);
    g.set_hint(6, 1, 4);
    let saved = g.snapshot();
    let mut reported = Vec::new();
    g.eliminate(2, 2, 7, &mut reported).unwrap();
    g.set_hint(5, 5, 1);
    g.eliminate(5, 5, 1, &mut reported).unwrap();
    g.set_hint(5, 2, 7);
    assert!(g.eliminate(5, 2, 7, &mut reported).is_err());
    for y in 0..9 {
        for x in 0..9 {
            let c = saved.cell(x, y);
            let expected = match (x, y) {
                (2, 2) => vec![7],
                (6, 1) => vec![4],
                _ => (1..10).collect(),
            };
            let got: Vec<i32> = (1..10).filter(|d| c.is_possible(*d)).collect();
            assert_eq!(got, expected);
        }
    }
}

#[test]
fn failed_elimination_stops_at_the_emptied_square() {
    let mut g = fresh();
    g.set_hint(0, 0, 5);
    g.set_hint(1, 0, 5);
    let mut reported = Vec::new();
    assert!(g.eliminate(0, 0, 5, &mut reported).is_err());
    // (1, 0) is the first peer scanned and is left empty; nothing after it changed.
    assert_eq!(g.cell(1, 0).num_possibles(), 0);
    assert!(g.cell(2, 0).is_possible(5));
    assert!(g.cell(0, 1).is_possible(5));
    assert!(g.cell(8, 0).is_possible(5));
    assert!(g.cell(0, 8).is_possible(5));
    assert!(g.cell(0, 0).is_possible(5));
}
