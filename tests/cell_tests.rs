use sudoku_solver::cell::Cell;

fn candidates(c: &Cell) -> Vec<i32> {
    (1..10).filter(|d| c.is_possible(*d)).collect()
}

#[test]
fn new_cell_holds_every_digit() {
    let c = Cell::new();
    assert_eq!(c.num_possibles(), 9);
    assert_eq!(candidates(&c), vec![1, 2, 3, 4, 5, 6, 7, 8, 9]);
    assert_eq!(c.first_possible(), Some(1));
}

#[test]
fn set_hint_leaves_only_the_hint() {
    let mut c = Cell::new();
    c.set_hint(7);
    assert_eq!(c.num_possibles(), 1);
    assert_eq!(candidates(&c), vec![7]);
    c.set_hint(2);
    assert_eq!(candidates(&c), vec![2]);
}

#[test]
fn eliminate_removes_the_digit() {
    let mut c = Cell::new();
    assert!(c.eliminate_possible(4).is_ok());
    assert_eq!(c.num_possibles(), 8);
    assert!(!c.is_possible(4));
    assert!(c.eliminate_possible(1).is_ok());
    assert_eq!(c.first_possible(), Some(2));
}

#[test]
fn eliminating_an_absent_digit_changes_nothing() {
    for d in 1..10 {
        let mut c = Cell::new();
        c.set_hint(if d == 9 { 1 } else { d + 1 });
        let before = candidates(&c);
        assert!(c.eliminate_possible(d).is_ok());
        assert_eq!(candidates(&c), before);
        assert!(c.eliminate_possible(d).is_ok());
        assert_eq!(candidates(&c), before);
    }
    let mut c = Cell::new();
    assert!(c.eliminate_possible(3).is_ok());
    assert!(c.eliminate_possible(3).is_ok());
    assert_eq!(candidates(&c), vec![1, 2, 4, 5, 6, 7, 8, 9]);
}

#[test]
fn eliminating_the_last_candidate_is_a_contradiction() {
    for d in 1..10 {
        let mut c = Cell::new();
        c.set_hint(d);
        assert!(c.eliminate_possible(d).is_err());
        assert_eq!(c.num_possibles(), 0);
        assert_eq!(c.first_possible(), None);
    }
}

#[test]
fn possibles_except_is_ascending_without_the_digit() {
    let mut c = Cell::new();
    for d in [2, 5, 8] {
        c.eliminate_possible(d).unwrap();
    }
    assert_eq!(c.possibles_except(1), vec![3, 4, 6, 7, 9]);
    assert_eq!(c.possibles_except(5), vec![1, 3, 4, 6, 7, 9]);
    assert_eq!(Cell::new().possibles_except(9), vec![1, 2, 3, 4, 5, 6, 7, 8]);
}
