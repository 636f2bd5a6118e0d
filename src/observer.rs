//! Hooks through which a front end can watch the solver work.
//!
//! Nothing that an observer does can change what the grid or the solver
//! computes: the hooks only receive copies and shared references.

use crate::cell::Cell;
use crate::solver::Guess;
use vstd::prelude::*;

verus! {

/// Width and height, in terminal columns and rows, of one square on screen.
pub const GRID_SIZE: i32 = 5;

/// A rectangle drawn around the part of the board that is being worked on.
/// An inactive highlight draws nothing.
#[derive(Clone, Copy, Debug)]
pub struct Highlight {
    pub x: i32,
    pub y: i32,
    pub width: i32,
    pub height: i32,
    pub active: bool,
}

impl Highlight {
    /// A highlight that draws nothing.
    pub fn inactive() -> (r: Highlight)
        ensures
            !r.active,
    {
        Highlight { x: 0, y: 0, width: 0, height: 0, active: false }
    }
}

/// Watches a grid while it eliminates candidates.
pub trait GridObserver: Sized {
    /// Called before the block whose upper-left square is (`x`, `y`) is worked on.
    fn highlight_block(&self, x: i32, y: i32) -> Highlight {
        Highlight::inactive()
    }

    /// Called before row `y` is worked on.
    fn highlight_row(&self, y: i32) -> Highlight {
        Highlight::inactive()
    }

    /// Called before column `x` is worked on.
    fn highlight_column(&self, x: i32) -> Highlight {
        Highlight::inactive()
    }

    /// Called when the block, row or column of `highlight` is done.
    fn end_highlight(&self, highlight: Highlight) {
    }

    /// Called before the square (`x`, `y`) is changed or used.
    fn highlight_cell(&self, x: i32, y: i32, cell: &Cell, selected: bool) {
    }

    /// Called after the square (`x`, `y`) was changed or used.
    fn clear_cell(&self, x: i32, y: i32, cell: &Cell) {
    }

    /// A second observer for a copy of the grid.
    fn duplicate(&self) -> Self;
}

/// Watches the solver's stack of guesses.
pub trait SolverObserver {
    /// Called after each new guess, with the guesses that are live, oldest first.
    fn display_guesses(&mut self, guesses: &Vec<Guess>)
        requires
            crate::solver::guesses_ok(guesses@),
    {
    }
}

/// A grid observer that does nothing.
#[derive(Clone, Copy, Debug)]
pub struct DummyGridObserver {}

impl GridObserver for DummyGridObserver {
    fn duplicate(&self) -> Self {
        DummyGridObserver {  }
    }
}

/// A solver observer that does nothing.
pub struct DummySolverObserver {}

impl SolverObserver for DummySolverObserver {

}

/// Where a terminal front end draws the board: each square is a
/// `GRID_SIZE`-wide box holding its candidates as a 3×3 pad of digits.
#[derive(Clone, Copy, Debug)]
pub struct TermObserver {}

impl TermObserver {
    /// The layout of the board on a terminal.
    pub fn new() -> (r: TermObserver) {
        TermObserver {  }
    }

    /// The frame around the block whose upper-left square is (`x`, `y`).
    pub fn block_frame(&self, x: i32, y: i32) -> (r: Highlight)
        requires
            0 <= x < 9,
            0 <= y < 9,
        ensures
            r.x == x * GRID_SIZE,
            r.y == y * GRID_SIZE,
            r.width == GRID_SIZE * 3,
            r.height == GRID_SIZE * 3,
            r.active,
    {
        Highlight { x: x * GRID_SIZE, y: y * GRID_SIZE, width: GRID_SIZE * 3,
            height: GRID_SIZE * 3, active: true }
    }

    /// The frame around row `y`.
    pub fn row_frame(&self, y: i32) -> (r: Highlight)
        requires
            0 <= y < 9,
        ensures
            r.x == 0,
            r.y == y * GRID_SIZE,
            r.width == GRID_SIZE * 9,
            r.height == GRID_SIZE,
            r.active,
    {
        Highlight { x: 0, y: y * GRID_SIZE, width: GRID_SIZE * 9, height: GRID_SIZE, active: true }
    }

    /// The frame around column `x`.
    pub fn column_frame(&self, x: i32) -> (r: Highlight)
        requires
            0 <= x < 9,
        ensures
            r.x == x * GRID_SIZE,
            r.y == 0,
            r.width == GRID_SIZE,
            r.height == GRID_SIZE * 9,
            r.active,
    {
        Highlight { x: x * GRID_SIZE, y: 0, width: GRID_SIZE, height: GRID_SIZE * 9, active: true }
    }

    /// The terminal column and row (counted from 1) where candidate `digit`
    /// of square (`x`, `y`) is drawn.
    pub fn digit_position(&self, x: i32, y: i32, digit: i32) -> (r: (u16, u16))
        requires
            0 <= x < 9,
            0 <= y < 9,
            1 <= digit <= 9,
        ensures
            r.0 as int == 2 + GRID_SIZE * x + (digit - 1) % 3,
            r.1 as int == 2 + GRID_SIZE * y + (digit - 1) / 3,
    {
        ((2 + GRID_SIZE * x + (digit - 1) % 3) as u16, (2 + GRID_SIZE * y + (digit - 1) / 3) as u16)
    }
}

/// Terminal column (counted from 1) where the list of guesses starts.
pub const GUESS_COLUMN: u16 = 47;

/// Keeps track of how many guess lines a terminal front end shows, so that
/// the lines of guesses that were dropped get blanked.
pub struct TermSolverObserver {
    prev_num_guesses: usize,
}

impl TermSolverObserver {
    /// No guess shown yet.
    pub fn new() -> (r: TermSolverObserver)
        ensures
            r.shown() == 0,
    {
        TermSolverObserver { prev_num_guesses: 0 }
    }

    /// How many guess lines are on screen.
    pub closed spec fn shown(&self) -> nat {
        self.prev_num_guesses as nat
    }

    /// How many guess lines are on screen.
    pub fn num_shown(&self) -> (r: usize)
        ensures
            r == self.shown(),
    {
        self.prev_num_guesses
    }

    /// Records that `num_guesses` lines are now shown, and returns the lines
    /// (counted from 0) that were shown before and must now be blanked.
    pub fn update(&mut self, num_guesses: usize) -> (r: (usize, usize))
        ensures
            final(self).shown() == num_guesses,
            r.0 == num_guesses,
            r.1 == if old(self).shown()
                > num_guesses { old(self).shown() } else { num_guesses as nat },
    {
        let stale_end = if self.prev_num_guesses
            > num_guesses { self.prev_num_guesses } else { num_guesses };
        self.prev_num_guesses = num_guesses;
        (num_guesses, stale_end)
    }
}

} // verus!
