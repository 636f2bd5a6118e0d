//! Turning puzzle text into hints, and feeding hints to a solver.

use crate::grid::{idx, in_range, Grid};
use crate::observer::SolverObserver;
use crate::solver::{Solver, SudokuSolver};
use vstd::prelude::*;

verus! {

/// A hint (`x`, `y`, `digit`) names a square and a digit.
pub open spec fn hint_ok(h: (i32, i32, i32)) -> bool {
    in_range(h.0 as int, h.1 as int) && 1 <= h.2 <= 9
}

/// `board` with the hints applied in order; a later hint for a square wins.
pub open spec fn apply_hints(board: Seq<Set<int>>, hints: Seq<(i32, i32, i32)>) -> Seq<Set<int>>
    decreases hints.len(),
{
    if hints.len() == 0 {
        board
    } else {
        let h = hints.last();
        apply_hints(board, hints.drop_last()).update(idx(h.0 as int, h.1 as int), set![h.2 as int])
    }
}

/// The hints that a line of puzzle text gives: the character at position `i`
/// (counted from 0, up to 80) stands for square (`i % 9`, `i / 9`), and a digit
/// 1 to 9 there is a hint; any other character leaves the square open.
pub open spec fn line_hints(line: Seq<char>) -> Seq<(i32, i32, i32)>
    decreases line.len(),
{
    if line.len() == 0 {
        Seq::empty()
    } else {
        let i = line.len() - 1;
        let c = line[i];
        if i < 81 && '1' <= c <= '9' {
            line_hints(line.drop_last()).push(((i % 9) as i32, (i / 9) as i32,
                (c as u32 - '0' as u32) as i32))
        } else {
            line_hints(line.drop_last())
        }
    }
}

/// `queue` after queueing the square of each hint in order, each square once.
pub open spec fn queue_after_hints(queue: Seq<(i32, i32)>, hints: Seq<(i32, i32, i32)>) -> Seq<
    (i32, i32),
>
    decreases hints.len(),
{
    if hints.len() == 0 {
        queue
    } else {
        let h = hints.last();
        let q = queue_after_hints(queue, hints.drop_last());
        if q.contains((h.0, h.1)) {
            q
        } else {
            q.push((h.0, h.1))
        }
    }
}

/// The hints of one line of puzzle text.
pub fn parse_hints(line: &Vec<char>) -> (r: Vec<(i32, i32, i32)>)
    ensures
        r@ == line_hints(line@),
        forall|k: int| 0 <= k < r.len() ==> hint_ok(#[trigger] r@[k]),
{
    let mut r: Vec<(i32, i32, i32)> = Vec::new();
    let mut i: usize = 0;
    while i < line.len()
        invariant
            i <= line.len(),
            r@ == line_hints(line@.subrange(0, i as int)),
            forall|k: int| 0 <= k < r.len() ==> hint_ok(#[trigger] r@[k]),
        decreases line.len() - i,
    {
        let c = line[i];
        proof {
            assert(line@.subrange(0, i + 1).drop_last() =~= line@.subrange(0, i as int));
            assert(line@.subrange(0, i + 1)[i as int] == c);
        }
        if i < 81 && '1' <= c && c <= '9' {
            let digit = (c as u32 - '0' as u32) as i32;
            let x = (i % 9) as i32;
            let y = (i / 9) as i32;
            r.push((x, y, digit));
            assert(hint_ok(r@[r.len() - 1]));
        }
        i = i + 1;
    }
    assert(line@.subrange(0, line.len() as int) =~= line@);
    r
}

/// Gives the solver each hint in turn.
pub fn set_hints<TGrid: Grid, TObserver: SolverObserver>(
    solver: &mut SudokuSolver<TGrid, TObserver>,
    hints: &Vec<(i32, i32, i32)>,
)
    requires
        old(solver).ready(),
        forall|k: int| 0 <= k < hints.len() ==> hint_ok(#[trigger] hints@[k]),
    ensures
        final(solver).ready(),
        final(solver).board() == apply_hints(old(solver).board(), hints@),
        final(solver).queue() == queue_after_hints(old(solver).queue(), hints@),
{
    let mut k: usize = 0;
    while k < hints.len()
        invariant
            k <= hints.len(),
            solver.ready(),
            forall|m: int| 0 <= m < hints.len() ==> hint_ok(#[trigger] hints@[m]),
            solver.board() == apply_hints(old(solver).board(), hints@.subrange(0, k as int)),
            solver.queue() == queue_after_hints(old(solver).queue(), hints@.subrange(0, k as int)),
        decreases hints.len() - k,
    {
        let (x, y, digit) = hints[k];
        assert(hint_ok(hints@[k as int]));
        solver.set_hint(x, y, digit);
        assert(hints@.subrange(0, k + 1).drop_last() =~= hints@.subrange(0, k as int));
        k = k + 1;
    }
    assert(hints@.subrange(0, hints.len() as int) =~= hints@);
}

/// The puzzle that the library is demonstrated with, as hints (`x`, `y`, `digit`).
pub open spec fn example_hints() -> Seq<(i32, i32, i32)> {
    seq![
        (0, 0, 5), (1, 0, 3), (4, 0, 7),
        (0, 1, 6), (3, 1, 1), (4, 1, 9), (5, 1, 5),
        (1, 2, 9), (2, 2, 8), (7, 2, 6),
        (0, 3, 8), (4, 3, 6), (8, 3, 3),
        (0, 4, 4), (3, 4, 8), (5, 4, 3), (8, 4, 1),
        (0, 5, 7), (4, 5, 2), (8, 5, 6),
        (1, 6, 6), (6, 6, 2), (7, 6, 8),
        (3, 7, 4), (4, 7, 1), (5, 7, 9), (8, 7, 5),
        (4, 8, 8), (7, 8, 7), (8, 8, 9)
    ]
}

/// Gives the solver the hints of the example puzzle.
pub fn read_hardcoded<TGrid: Grid, TObserver: SolverObserver>(solver: &mut SudokuSolver<TGrid,
    TObserver>)
    requires
        old(solver).ready(),
    ensures
        final(solver).ready(),
        final(solver).board() == apply_hints(old(solver).board(), example_hints()),
        final(solver).queue() == queue_after_hints(old(solver).queue(), example_hints()),
{
    let hints: Vec<(i32, i32, i32)> = vec![
        (0, 0, 5), (1, 0, 3), (4, 0, 7),
        (0, 1, 6), (3, 1, 1), (4, 1, 9), (5, 1, 5),
        (1, 2, 9), (2, 2, 8), (7, 2, 6),
        (0, 3, 8), (4, 3, 6), (8, 3, 3),
        (0, 4, 4), (3, 4, 8), (5, 4, 3), (8, 4, 1),
        (0, 5, 7), (4, 5, 2), (8, 5, 6),
        (1, 6, 6), (6, 6, 2), (7, 6, 8),
        (3, 7, 4), (4, 7, 1), (5, 7, 9), (8, 7, 5),
        (4, 8, 8), (7, 8, 7), (8, 8, 9)
    ];
    assert(hints@ =~= example_hints());
    set_hints(solver, &hints);
}

} // verus!
