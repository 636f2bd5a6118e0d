//! The board: 81 squares and the propagation of a fixed digit to the
//! square's block, row and column.

use crate::cell::{all_digits, Cell, EliminationError};
use crate::observer::GridObserver;
use vstd::prelude::*;

verus! {

/// The position of square (`x`, `y`) in row-major order.
pub open spec fn idx(x: int, y: int) -> int {
    y * 9 + x
}

/// (`x`, `y`) names a square of the board.
pub open spec fn in_range(x: int, y: int) -> bool {
    0 <= x < 9 && 0 <= y < 9
}

/// The square at position `i` and the one at `j` lie in the same 3×3 block.
pub open spec fn same_block(i: int, j: int) -> bool {
    (i / 9) / 3 == (j / 9) / 3 && (i % 9) / 3 == (j % 9) / 3
}

/// The units of the board: 0 is the block, 1 the row, 2 the column.
pub open spec fn in_unit(kind: int, i: int, j: int) -> bool {
    if kind == 0 {
        same_block(i, j)
    } else if kind == 1 {
        i / 9 == j / 9
    } else {
        i % 9 == j % 9
    }
}

/// Where square `j` comes in the scan of its unit of the given kind around `i`.
pub open spec fn unit_pos(kind: int, i: int, j: int) -> int {
    if kind == 0 {
        (j / 9 - (i / 9) / 3 * 3) * 3 + (j % 9 - (i % 9) / 3 * 3)
    } else if kind == 1 {
        j % 9
    } else {
        j / 9
    }
}

/// The squares other than `i` in its unit of the given kind.
pub open spec fn unit_peers(kind: int, i: int) -> Set<int> {
    Set::new(|j: int| 0 <= j < 81 && j != i && in_unit(kind, i, j))
}

/// The squares of the unit of the given kind that holds square `i`, `i` included.
pub open spec fn unit_squares(kind: int, i: int) -> Set<int> {
    Set::new(|j: int| 0 <= j < 81 && in_unit(kind, i, j))
}

/// The square visited at step `m` of the scan of the unit of the given kind
/// around square `i`.
#[verifier::opaque]
pub open spec fn unit_member(kind: int, i: int, m: int) -> int {
    if kind == 0 {
        idx((i % 9) / 3 * 3 + m % 3, (i / 9) / 3 * 3 + m / 3)
    } else if kind == 1 {
        idx(m, i / 9)
    } else {
        idx(i % 9, m)
    }
}

/// The scan of a unit visits nine different squares of the unit, and every
/// square of the unit.
pub proof fn lemma_unit_members(kind: int, i: int)
    requires
        0 <= kind <= 2,
        0 <= i < 81,
    ensures
        forall|m: int| 0 <= m < 9 ==> #[trigger] unit_squares(kind, i).contains(unit_member(kind,
            i, m)),
        forall|m1: int, m2: int| 0 <= m1 < 9 && 0 <= m2 < 9 && m1 != m2
            ==> #[trigger] unit_member(kind, i, m1) != #[trigger] unit_member(kind, i, m2),
        forall|j: int| #[trigger] unit_squares(kind, i).contains(j) ==> 0 <= unit_pos(kind, i,
            j) < 9 && unit_member(kind, i, unit_pos(kind, i, j)) == j,
{
    reveal(unit_member);
    lemma_coord_of(i);
    let x = i % 9;
    let y = i / 9;
    assert forall|m: int| 0 <= m < 9 implies #[trigger] unit_squares(kind,
        i).contains(unit_member(kind, i, m)) && unit_pos(kind, i, unit_member(kind, i, m)) == m by {
        if kind == 0 {
            lemma_unit_scan(kind, x, y, m, x / 3 * 3 + m % 3, y / 3 * 3 + m / 3);
        } else if kind == 1 {
            lemma_unit_scan(kind, x, y, m, m, y);
        } else {
            lemma_unit_scan(kind, x, y, m, x, m);
        }
    }
    assert forall|j: int| #[trigger] unit_squares(kind, i).contains(j) implies 0 <= unit_pos(kind,
        i, j) < 9 && unit_member(kind, i, unit_pos(kind, i, j)) == j by {
        let m = unit_pos(kind, i, j);
        if kind == 0 {
            lemma_unit_scan(kind, x, y, 0, x / 3 * 3, y / 3 * 3);
            lemma_unit_scan(kind, x, y, m, x / 3 * 3 + m % 3, y / 3 * 3 + m / 3);
        } else if kind == 1 {
            lemma_unit_scan(kind, x, y, 0, 0, y);
            lemma_unit_scan(kind, x, y, m, m, y);
        } else {
            lemma_unit_scan(kind, x, y, 0, x, 0);
            lemma_unit_scan(kind, x, y, m, x, m);
        }
    }
}

/// Two different squares of one unit are peers.
pub proof fn lemma_unit_peers(kind: int, i: int, j1: int, j2: int)
    requires
        0 <= kind <= 2,
        unit_squares(kind, i).contains(j1),
        unit_squares(kind, i).contains(j2),
        j1 != j2,
    ensures
        peers(j1, j2),
{
}

/// Two different squares that share a block, a row or a column.
pub open spec fn peers(i: int, j: int) -> bool {
    0 <= i < 81 && 0 <= j < 81 && i != j && (same_block(i, j) || i / 9 == j / 9 || i % 9 == j
        % 9)
}

/// Each square of `board` holds a finite set of digits, never empty.
pub open spec fn board_ok(board: Seq<Set<int>>) -> bool {
    &&& board.len() == 81
    &&& forall|j: int|
        0 <= j < 81 ==> (#[trigger] board[j]).finite() && board[j].subset_of(all_digits())
            && board[j].len() >= 1
}

/// The squares around `i` that share one of its three units.
pub open spec fn all_peers(i: int) -> Set<int> {
    Set::new(|j: int| peers(i, j))
}

/// The coordinates of square number `j`.
pub open spec fn coord_of(j: int) -> (i32, i32) {
    ((j % 9) as i32, (j / 9) as i32)
}

/// Entries `from..` of `reported` are exactly the squares of `s` that `board`
/// holds fixed (a single candidate), each at least once.
pub open spec fn reports(reported: Seq<(i32, i32)>, from: int, board: Seq<Set<int>>, s: Set<
    int,
>) -> bool {
    &&& forall|k: int|
        from <= k < reported.len() ==> {
            let (x, y) = #[trigger] reported[k];
            &&& in_range(x as int, y as int)
            &&& s.contains(idx(x as int, y as int))
            &&& board[idx(x as int, y as int)].len() == 1
        }
    &&& forall|j: int|
        #![trigger s.contains(j), board[j]]
        s.contains(j) && board[j].len() == 1 ==> exists|k: int|
            from <= k < reported.len() && #[trigger] reported[k] == coord_of(j)
}

/// `new` is `old` with `d` removed from the squares of `s`.
pub open spec fn removed_in(old: Seq<Set<int>>, new: Seq<Set<int>>, d: int, s: Set<int>) -> bool {
    &&& new.len() == old.len()
    &&& forall|j: int|
        0 <= j < old.len() ==> #[trigger] new[j] == if s.contains(j) {
            old[j].remove(d)
        } else {
            old[j]
        }
}

/// The peers of `i` in its unit of the given kind that the scan of that unit
/// reaches by step `m`.
pub open spec fn unit_upto(kind: int, i: int, m: int) -> Set<int> {
    Set::new(|j: int| 0 <= j < 81 && j != i && in_unit(kind, i, j) && unit_pos(kind, i, j) <= m)
}

/// The peers of `i` in the units scanned before the unit of the given kind:
/// none before the block, the block before the row, both before the column.
pub open spec fn scanned_before(kind: int, i: int) -> Set<int> {
    if kind == 0 {
        Set::empty()
    } else if kind == 1 {
        unit_peers(0, i)
    } else {
        unit_peers(0, i).union(unit_peers(1, i))
    }
}

/// The scan around `i` stopped at step `m` of the unit of the given kind:
/// `d` was removed from every square up to that one and nowhere else, no
/// earlier square was left empty, and that one was.
pub open spec fn stopped_at(
    old: Seq<Set<int>>,
    new: Seq<Set<int>>,
    d: int,
    i: int,
    kind: int,
    m: int,
) -> bool {
    &&& 0 <= kind <= 2
    &&& 0 <= m < 9
    &&& removed_in(old, new, d, scanned_before(kind, i).union(unit_upto(kind, i, m)))
    &&& !blocked_in(old, d, scanned_before(kind, i).union(unit_upto(kind, i, m - 1)))
    &&& exists|j: int|
        #[trigger] unit_peers(kind, i).contains(j) && unit_pos(kind, i, j) == m && new[j]
            == Set::<int>::empty()
}

/// One unit pass around `i` stopped at its step `m`.
pub open spec fn unit_stopped(
    old: Seq<Set<int>>,
    new: Seq<Set<int>>,
    d: int,
    i: int,
    kind: int,
    m: int,
) -> bool {
    &&& 0 <= m < 9
    &&& removed_in(old, new, d, unit_upto(kind, i, m))
    &&& !blocked_in(old, d, unit_upto(kind, i, m - 1))
    &&& exists|j: int|
        #[trigger] unit_peers(kind, i).contains(j) && unit_pos(kind, i, j) == m && new[j]
            == Set::<int>::empty()
}

/// Every square of `new` is that of `old`, with `d` removed or not.
pub open spec fn partly_removed(old: Seq<Set<int>>, new: Seq<Set<int>>, d: int) -> bool {
    &&& new.len() == old.len()
    &&& forall|j: int|
        0 <= j < old.len() ==> #[trigger] new[j] == old[j] || new[j] == old[j].remove(d)
}

/// Some square of `s` holds no candidate but `d`.
pub open spec fn blocked_in(board: Seq<Set<int>>, d: int, s: Set<int>) -> bool {
    exists|j: int| #[trigger] s.contains(j) && board[j].subset_of(set![d])
}

/// Squares with different coordinates have different positions.
pub proof fn lemma_same_square(x1: int, y1: int, x2: int, y2: int)
    requires
        in_range(x1, y1),
        in_range(x2, y2),
    ensures
        idx(x1, y1) == idx(x2, y2) <==> (x1 == x2 && y1 == y2),
{
}

/// The coordinates of square `j` name it.
pub proof fn lemma_coord_of(j: int)
    requires
        0 <= j < 81,
    ensures
        in_range(j % 9, j / 9),
        idx(j % 9, j / 9) == j,
        coord_of(j) == ((j % 9) as i32, (j / 9) as i32),
        (j % 9) as i32 as int == j % 9,
        (j / 9) as i32 as int == j / 9,
{
}

pub proof fn lemma_coords(x: int, y: int)
    requires
        in_range(x, y),
    ensures
        idx(x, y) / 9 == y,
        idx(x, y) % 9 == x,
        0 <= idx(x, y) < 81,
        coord_of(idx(x, y)) == (x as i32, y as i32),
{
}

/// The square visited at step `m` of a unit scan has position `m` in that scan,
/// and every square of the unit has a position below 9.
proof fn lemma_unit_scan(kind: int, x: int, y: int, m: int, xm: int, ym: int)
    requires
        0 <= kind <= 2,
        in_range(x, y),
        0 <= m < 9,
        kind == 0 ==> xm == x / 3 * 3 + m % 3 && ym == y / 3 * 3 + m / 3,
        kind == 1 ==> xm == m && ym == y,
        kind == 2 ==> xm == x && ym == m,
    ensures
        in_range(xm, ym),
        in_unit(kind, idx(x, y), idx(xm, ym)),
        unit_pos(kind, idx(x, y), idx(xm, ym)) == m,
        forall|j: int|
            0 <= j < 81 && #[trigger] in_unit(kind, idx(x, y), j) ==> 0 <= unit_pos(
                kind,
                idx(x, y),
                j,
            ) < 9,
        forall|j: int|
            0 <= j < 81 && in_unit(kind, idx(x, y), j) && #[trigger] unit_pos(kind, idx(x, y), j)
                == m ==> j == idx(xm, ym),
{
    lemma_coords(x, y);
    lemma_coords(xm, ym);
}

} // verus!

verus! {

/// A board of 81 squares that propagates fixed digits.
pub trait Grid: Sized {
    /// The candidates of each square, in row-major order.
    spec fn board(&self) -> Seq<Set<int>>;

    /// The square at (`x`, `y`).
    fn cell(&self, x: i32, y: i32) -> (r: &Cell)
        requires
            in_range(x as int, y as int),
            self.board().len() == 81,
        ensures
            r@ == self.board()[idx(x as int, y as int)],
    ;

    /// Fixes square (`x`, `y`) to `hint`; nothing is propagated.
    fn set_hint(&mut self, x: i32, y: i32, hint: i32)
        requires
            in_range(x as int, y as int),
            1 <= hint <= 9,
            old(self).board().len() == 81,
        ensures
            final(self).board() == old(self).board().update(
                idx(x as int, y as int),
                set![hint as int],
            ),
    ;

    /// Removes `digit` from the candidates of square (`x`, `y`) alone.
    fn eliminate_possible(&mut self, x: i32, y: i32, digit: i32) -> (r: Result<
        (),
        EliminationError,
    >)
        requires
            in_range(x as int, y as int),
            1 <= digit <= 9,
            old(self).board().len() == 81,
        ensures
            final(self).board() == old(self).board().update(
                idx(x as int, y as int),
                old(self).board()[idx(x as int, y as int)].remove(digit as int),
            ),
            r is Err <==> final(self).board()[idx(x as int, y as int)] == Set::<int>::empty(),
    ;

    /// Removes `digit` from every square that shares a block, a row or a
    /// column with (`x`, `y`), block first, then row, then column, and stops at
    /// the first square left without candidates. Appends to `mark_solved` the
    /// squares among those that end up fixed.
    fn eliminate(&mut self, x: i32, y: i32, digit: i32, mark_solved: &mut Vec<(i32, i32)>) -> (r:
        Result<(), EliminationError>)
        requires
            in_range(x as int, y as int),
            1 <= digit <= 9,
            old(self).board().len() == 81,
        ensures
            r is Err <==> blocked_in(
                old(self).board(),
                digit as int,
                all_peers(idx(x as int, y as int)),
            ),
            r is Ok ==> removed_in(
                old(self).board(),
                final(self).board(),
                digit as int,
                all_peers(idx(x as int, y as int)),
            ),
            r is Err ==> partly_removed(old(self).board(), final(self).board(), digit as int),
            r is Err ==> exists|kind: int, m: int|
                stopped_at(old(self).board(), final(self).board(), digit as int,
                    idx(x as int, y as int), kind, m),
            final(mark_solved)@.len() >= old(mark_solved)@.len(),
            final(mark_solved)@.subrange(0, old(mark_solved)@.len() as int) == old(mark_solved)@,
            r is Ok ==> reports(
                final(mark_solved)@,
                old(mark_solved)@.len() as int,
                final(self).board(),
                all_peers(idx(x as int, y as int)),
            ),
    ;

    /// Shows every square to the observer again.
    fn invalidate(&self)
        requires
            self.board().len() == 81,
    ;

    /// The digit of every square, if every square is fixed.
    fn dump_solution(&self) -> (r: Option<Vec<i32>>)
        requires
            self.board().len() == 81,
        ensures
            r is Some <==> forall|j: int| 0 <= j < 81 ==> #[trigger] self.board()[j].len() == 1,
            r matches Some(v) ==> v@.len() == 81 && forall|j: int|
                0 <= j < 81 ==> #[trigger] self.board()[j] == set![v@[j] as int],
    ;

    /// An independent copy of the grid.
    fn snapshot(&self) -> (r: Self)
        ensures
            r.board() == self.board(),
    ;
}

/// The grid, reporting its work to an observer.
pub struct ObserveableGrid<TObserver: GridObserver> {
    cells: Vec<Cell>,
    observer: TObserver,
}

impl<TObserver: GridObserver> ObserveableGrid<TObserver> {
    /// A grid whose squares may each hold any digit.
    pub fn new(observer: TObserver) -> (r: ObserveableGrid<TObserver>)
        ensures
            r.board().len() == 81,
            forall|j: int| 0 <= j < 81 ==> #[trigger] r.board()[j] == all_digits(),
            board_ok(r.board()),
    {
        let mut cells: Vec<Cell> = Vec::new();
        let mut i: usize = 0;
        while i < 81
            invariant
                i <= 81,
                cells.len() == i,
                forall|j: int| 0 <= j < i ==> #[trigger] cells@[j]@ == crate::cell::all_digits(),
            decreases 81 - i,
        {
            cells.push(Cell::new());
            i = i + 1;
        }
        let r = ObserveableGrid { cells, observer };
        proof {
            vstd::set_lib::lemma_int_range(1, 10);
            assert forall|j: int| 0 <= j < 81 implies (#[trigger] r.board()[j]).finite()
                && r.board()[j].subset_of(all_digits())
                && r.board()[j].len() >= 1 by {
                assert(r.board()[j] == all_digits());
            }
        }
        r
    }

    /// Removes `digit` from the squares of one unit around (`x`, `y`), in scan
    /// order, and stops at the first square left without candidates.
    fn eliminate_in_unit(
        &mut self,
        kind: i32,
        x: i32,
        y: i32,
        digit: i32,
        mark_solved: &mut Vec<(i32, i32)>,
    ) -> (r: Result<(), EliminationError>)
        requires
            0 <= kind <= 2,
            in_range(x as int, y as int),
            1 <= digit <= 9,
            old(self).board().len() == 81,
        ensures
            r is Err <==> blocked_in(
                old(self).board(),
                digit as int,
                unit_peers(kind as int, idx(x as int, y as int)),
            ),
            r is Ok ==> removed_in(
                old(self).board(),
                final(self).board(),
                digit as int,
                unit_peers(kind as int, idx(x as int, y as int)),
            ),
            r is Err ==> partly_removed(old(self).board(), final(self).board(), digit as int),
            r is Err ==> exists|m: int|
                unit_stopped(old(self).board(), final(self).board(), digit as int,
                    idx(x as int, y as int), kind as int, m),
            final(mark_solved)@.len() >= old(mark_solved)@.len(),
            final(mark_solved)@.subrange(0, old(mark_solved)@.len() as int) == old(mark_solved)@,
            r is Ok ==> reports(
                final(mark_solved)@,
                old(mark_solved)@.len() as int,
                final(self).board(),
                unit_peers(kind as int, idx(x as int, y as int)),
            ),
    {
        let ghost i = idx(x as int, y as int);
        let ghost s = unit_peers(kind as int, i);
        let ghost d = digit as int;
        let ghost start = mark_solved@.len() as int;
        let ghost old_board = self.board();
        proof {
            lemma_coords(x as int, y as int);
        }
        let mut m: i32 = 0;
        while m < 9
            invariant
                0 <= kind <= 2,
                in_range(x as int, y as int),
                1 <= digit <= 9,
                i == idx(x as int, y as int),
                s == unit_peers(kind as int, i),
                d == digit as int,
                0 <= m <= 9,
                self.cells.len() == 81,
                old_board.len() == 81,
                removed_in(
                    old_board,
                    self.board(),
                    d,
                    s.filter(|j: int| unit_pos(kind as int, i, j) < m),
                ),
                !blocked_in(old_board, d, s.filter(|j: int| unit_pos(kind as int, i, j) < m)),
                old_board == old(self).board(),
                start == old(mark_solved)@.len(),
                mark_solved@.len() >= start,
                mark_solved@.subrange(0, start) == old(mark_solved)@,
                reports(
                    mark_solved@,
                    start,
                    self.board(),
                    s.filter(|j: int| unit_pos(kind as int, i, j) < m),
                ),
            decreases 9 - m,
        {
            let (xm, ym) = if kind == 0 {
                ((x / 3) * 3 + m % 3, (y / 3) * 3 + m / 3)
            } else if kind == 1 {
                (m, y)
            } else {
                (x, m)
            };
            proof {
                lemma_unit_scan(kind as int, x as int, y as int, m as int, xm as int, ym as int);
                lemma_coords(xm as int, ym as int);
            }
            let ghost jm = idx(xm as int, ym as int);
            let ghost before = self.board();
            let ghost done = s.filter(|j: int| unit_pos(kind as int, i, j) < m);
            let ghost next = s.filter(|j: int| unit_pos(kind as int, i, j) < m + 1);
            if xm != x || ym != y {
                assert(s.contains(jm));
                assert(next =~= done.insert(jm));
                let k: usize = (ym * 9 + xm) as usize;
                self.observer.highlight_cell(xm, ym, &self.cells[k], false);
                let mut c = self.cells[k];
                let res = c.eliminate_possible(digit);
                self.cells.set(k, c);
                self.observer.clear_cell(xm, ym, &self.cells[k]);
                assert(self.board() =~= before.update(jm, before[jm].remove(d)));
                if res.is_err() {
                    assert(!done.contains(jm));
                    assert(old_board[jm] == before[jm]);
                    assert forall|e: int| old_board[jm].contains(e) implies set![d].contains(e) by {
                        if e != d {
                            assert(self.board()[jm].contains(e));
                        }
                    }
                    assert(s.contains(jm) && old_board[jm].subset_of(set![d]));
                    assert(partly_removed(old_board, self.board(), d));
                    assert(blocked_in(old_board, d, s));
                    proof {
                        assert(unit_upto(kind as int, i, m as int) =~= done.insert(jm));
                        assert(unit_upto(kind as int, i, m - 1) =~= done);
                        assert(self.board()[jm] =~= Set::<int>::empty());
                        assert(unit_stopped(old_board, self.board(), d, i, kind as int, m as int));
                    }
                    return res;
                }
                let ghost ms_before = mark_solved@;
                if c.num_possibles() == 1 {
                    mark_solved.push((xm, ym));
                    assert(mark_solved@[mark_solved@.len() - 1] == coord_of(jm));
                    assert(mark_solved@.subrange(0, start) =~= ms_before.subrange(0, start));
                }
                assert(removed_in(old_board, self.board(), d, next));
                assert forall|j: int| #[trigger] next.contains(j) && self.board()[j].len()
                    == 1 implies exists|k: int|
                    start <= k < mark_solved@.len() && #[trigger] mark_solved@[k] == coord_of(
                        j,
                    ) by {
                    if j != jm {
                        let k = choose|k: int|
                            start <= k < ms_before.len() && #[trigger] ms_before[k] == coord_of(
                                j,
                            );
                        assert(mark_solved@[k] == coord_of(j));
                    } else {
                        assert(mark_solved@[mark_solved@.len() - 1] == coord_of(jm));
                    }
                }
                assert(!old_board[jm].subset_of(set![d])) by {
                    if old_board[jm].subset_of(set![d]) {
                        assert(self.board()[jm] =~= Set::<int>::empty());
                    }
                }
                assert forall|j: int| #[trigger] next.contains(j)
                    implies !old_board[j].subset_of(set![d]) by {
                    if j != jm {
                        assert(done.contains(j));
                    }
                }
                assert(!blocked_in(old_board, d, next));
            } else {
                assert(next =~= done);
            }
            m = m + 1;
        }
        assert(s.filter(|j: int| unit_pos(kind as int, i, j) < 9) =~= s);
        Ok(())
    }

    /// The block pass of `eliminate`, shown to the observer as one step.
    fn eliminate_in_block(&mut self, x: i32, y: i32, digit: i32, mark_solved: &mut Vec<(i32,
        i32)>) -> (r: Result<(), EliminationError>)
        requires
            in_range(x as int, y as int),
            1 <= digit <= 9,
            old(self).board().len() == 81,
        ensures
            pass_done(0, x as int, y as int, digit as int, old(self).board(), final(self).board(),
                old(mark_solved)@, final(mark_solved)@, r is Ok),
    {
        let highlight = self.observer.highlight_block((x / 3) * 3, (y / 3) * 3);
        self.observer.highlight_cell(x, y, &self.cells[(y * 9 + x) as usize], true);
        let r = self.eliminate_in_unit(0, x, y, digit, mark_solved);
        if r.is_ok() {
            self.observer.clear_cell(x, y, &self.cells[(y * 9 + x) as usize]);
        }
        self.observer.end_highlight(highlight);
        r
    }

    /// The row pass of `eliminate`, shown to the observer as one step.
    fn eliminate_in_row(&mut self, x: i32, y: i32, digit: i32, mark_solved: &mut Vec<(i32,
        i32)>) -> (r: Result<(), EliminationError>)
        requires
            in_range(x as int, y as int),
            1 <= digit <= 9,
            old(self).board().len() == 81,
        ensures
            pass_done(1, x as int, y as int, digit as int, old(self).board(), final(self).board(),
                old(mark_solved)@, final(mark_solved)@, r is Ok),
    {
        let highlight = self.observer.highlight_row(y);
        self.observer.highlight_cell(x, y, &self.cells[(y * 9 + x) as usize], true);
        let r = self.eliminate_in_unit(1, x, y, digit, mark_solved);
        if r.is_ok() {
            self.observer.clear_cell(x, y, &self.cells[(y * 9 + x) as usize]);
        }
        self.observer.end_highlight(highlight);
        r
    }

    /// The column pass of `eliminate`, shown to the observer as one step.
    fn eliminate_in_column(&mut self, x: i32, y: i32, digit: i32, mark_solved: &mut Vec<(i32,
        i32)>) -> (r: Result<(), EliminationError>)
        requires
            in_range(x as int, y as int),
            1 <= digit <= 9,
            old(self).board().len() == 81,
        ensures
            pass_done(2, x as int, y as int, digit as int, old(self).board(), final(self).board(),
                old(mark_solved)@, final(mark_solved)@, r is Ok),
    {
        let highlight = self.observer.highlight_column(x);
        self.observer.highlight_cell(x, y, &self.cells[(y * 9 + x) as usize], true);
        let r = self.eliminate_in_unit(2, x, y, digit, mark_solved);
        if r.is_ok() {
            self.observer.clear_cell(x, y, &self.cells[(y * 9 + x) as usize]);
        }
        self.observer.end_highlight(highlight);
        r
    }
}

/// What one pass of `eliminate` over the unit of the given kind achieves.
pub open spec fn pass_done(
    kind: int,
    x: int,
    y: int,
    d: int,
    old_board: Seq<Set<int>>,
    new_board: Seq<Set<int>>,
    old_reported: Seq<(i32, i32)>,
    new_reported: Seq<(i32, i32)>,
    ok: bool,
) -> bool {
    let s = unit_peers(kind, idx(x, y));
    &&& new_board.len() == 81
    &&& !ok <==> blocked_in(old_board, d, s)
    &&& ok ==> removed_in(old_board, new_board, d, s)
    &&& !ok ==> partly_removed(old_board, new_board, d)
    &&& !ok ==> exists|m: int| unit_stopped(old_board, new_board, d, idx(x, y), kind, m)
    &&& new_reported.len() >= old_reported.len()
    &&& new_reported.subrange(0, old_reported.len() as int) == old_reported
    &&& ok ==> reports(new_reported, old_reported.len() as int, new_board, s)
}

impl<TObserver: GridObserver> Grid for ObserveableGrid<TObserver> {
    closed spec fn board(&self) -> Seq<Set<int>> {
        self.cells@.map_values(|c: Cell| c@)
    }

    fn cell(&self, x: i32, y: i32) -> (r: &Cell) {
        &self.cells[(y * 9 + x) as usize]
    }

    fn set_hint(&mut self, x: i32, y: i32, hint: i32) {
        let k: usize = (y * 9 + x) as usize;
        self.observer.highlight_cell(x, y, &self.cells[k], true);
        let mut c = self.cells[k];
        c.set_hint(hint);
        self.cells.set(k, c);
        self.observer.clear_cell(x, y, &self.cells[k]);
        assert(self.board() =~= old(self).board().update(k as int, set![hint as int]));
    }

    fn eliminate_possible(&mut self, x: i32, y: i32, digit: i32) -> (r: Result<(),
        EliminationError>) {
        let k: usize = (y * 9 + x) as usize;
        let mut c = self.cells[k];
        let r = c.eliminate_possible(digit);
        self.cells.set(k, c);
        assert(self.board() =~= old(self).board().update(k as int,
            old(self).board()[k as int].remove(digit as int)));
        r
    }

    fn eliminate(&mut self, x: i32, y: i32, digit: i32, mark_solved: &mut Vec<(i32,
        i32)>) -> (r: Result<(), EliminationError>) {
        let ghost i = idx(x as int, y as int);
        let ghost d = digit as int;
        let ghost b0 = self.board();
        let ghost m0 = mark_solved@;
        let r0 = self.eliminate_in_block(x, y, digit, mark_solved);
        if r0.is_err() {
            proof {
                crate::grid::lemma_coords(x as int, y as int);
                let m = choose|m: int| unit_stopped(b0, self.board(), d, i, 0, m);
                assert(removed_in(b0, b0, d, scanned_before(0, i)));
                lemma_stopped(b0, b0, self.board(), d, i, 0, m);
            }
            assert(blocked_in(b0, d, all_peers(i))) by {
                let j = choose|j: int| #[trigger] unit_peers(0, i).contains(j)
                    && b0[j].subset_of(set![d]);
                assert(all_peers(i).contains(j));
            }
            return r0;
        }
        let ghost b1 = self.board();
        let ghost m1 = mark_solved@;
        let r1 = self.eliminate_in_row(x, y, digit, mark_solved);
        if r1.is_err() {
            proof {
                assert(blocked_in(b1, d, unit_peers(1, i)));
                lemma_blocked_carries(b0, b1, d, unit_peers(0, i), unit_peers(1, i), all_peers(i));
                lemma_partly_compose(b0, b1, self.board(), d);
                let m = choose|m: int| unit_stopped(b1, self.board(), d, i, 1, m);
                assert(scanned_before(1, i) == unit_peers(0, i));
                lemma_stopped(b0, b1, self.board(), d, i, 1, m);
            }
            return r1;
        }
        let ghost b2 = self.board();
        let ghost m2 = mark_solved@;
        let r2 = self.eliminate_in_column(x, y, digit, mark_solved);
        if r2.is_err() {
            proof {
                lemma_removed_compose(b0, b1, b2, d, unit_peers(0, i), unit_peers(1, i));
                lemma_blocked_carries(b0, b2, d, unit_peers(0, i).union(unit_peers(1, i)),
                    unit_peers(2, i), all_peers(i));
                lemma_partly_compose(b0, b2, self.board(), d);
                let m = choose|m: int| unit_stopped(b2, self.board(), d, i, 2, m);
                let u01 = unit_peers(0, i).union(unit_peers(1, i));
                assert(scanned_before(2, i) == u01);
                lemma_unblocked_before(b0, b1, d, unit_peers(0, i), unit_peers(1, i));
                assert(!blocked_in(b0, d, u01));
                lemma_stopped(b0, b2, self.board(), d, i, 2, m);
            }
            return r2;
        }
        proof {
            let u01 = unit_peers(0, i).union(unit_peers(1, i));
            lemma_removed_compose(b0, b1, b2, d, unit_peers(0, i), unit_peers(1, i));
            lemma_removed_compose(b0, b2, self.board(), d, u01, unit_peers(2, i));
            assert(all_peers(i) =~= u01.union(unit_peers(2, i)));
            assert(removed_in(b0, self.board(), d, all_peers(i)));
            assert(!blocked_in(b0, d, all_peers(i))) by {
                if blocked_in(b0, d, all_peers(i)) {
                    let j = choose|j: int| #[trigger] all_peers(i).contains(j)
                        && b0[j].subset_of(set![d]);
                    if unit_peers(0, i).contains(j) {
                    } else if unit_peers(1, i).contains(j) {
                        assert(b1[j].subset_of(set![d]));
                    } else {
                        assert(b2[j].subset_of(set![d]));
                    }
                }
            }
            lemma_reports_extend(mark_solved@, m0, m1, m2, b1, b2, self.board(), d, i);
        }
        Ok(())
    }

    fn invalidate(&self) {
        let mut y: i32 = 0;
        while y < 9
            invariant
                0 <= y <= 9,
                self.cells.len() == 81,
            decreases 9 - y,
        {
            let mut x: i32 = 0;
            while x < 9
                invariant
                    0 <= x <= 9,
                    0 <= y < 9,
                    self.cells.len() == 81,
                decreases 9 - x,
            {
                self.observer.clear_cell(x, y, &self.cells[(y * 9 + x) as usize]);
                x = x + 1;
            }
            y = y + 1;
        }
    }

    fn dump_solution(&self) -> (r: Option<Vec<i32>>) {
        let mut v: Vec<i32> = Vec::new();
        let mut k: usize = 0;
        while k < 81
            invariant
                k <= 81,
                self.cells.len() == 81,
                v@.len() == k,
                forall|j: int| 0 <= j < k ==> #[trigger] self.board()[j] == set![v@[j] as int],
            decreases 81 - k,
        {
            let c = &self.cells[k];
            if c.num_possibles() != 1 {
                assert(self.board()[k as int].len() != 1);
                return None;
            }
            match c.first_possible() {
                Some(d) => {
                    proof {
                        c.lemma_view_digits();
                        Set::lemma_is_singleton(c@);
                        assert(c@ =~= set![d as int]);
                    }
                    v.push(d);
                },
                None => {
                    return None;
                },
            }
            k = k + 1;
        }
        proof {
            assert forall|j: int| 0 <= j < 81 implies #[trigger] self.board()[j].len() == 1 by {
                assert(self.board()[j] == set![v@[j] as int]);
                self.board()[j].lemma_singleton_size();
            }
        }
        Some(v)
    }

    fn snapshot(&self) -> (r: Self) {
        let mut cells: Vec<Cell> = Vec::new();
        let mut k: usize = 0;
        while k < self.cells.len()
            invariant
                k <= self.cells.len(),
                cells@ == self.cells@.subrange(0, k as int),
            decreases self.cells.len() - k,
        {
            cells.push(self.cells[k]);
            k = k + 1;
        }
        assert(cells@ =~= self.cells@);
        ObserveableGrid { cells, observer: self.observer.duplicate() }
    }
}

/// A square left without candidates by a later pass was already blocked
/// before the earlier one.
proof fn lemma_blocked_carries(b0: Seq<Set<int>>, b1: Seq<Set<int>>, d: int, s0: Set<int>,
    s1: Set<int>, all: Set<int>)
    requires
        removed_in(b0, b1, d, s0),
        blocked_in(b1, d, s1),
        s1.subset_of(all),
        forall|j: int| s1.contains(j) ==> 0 <= j < b0.len(),
    ensures
        blocked_in(b0, d, all),
{
    let j = choose|j: int| #[trigger] s1.contains(j) && b1[j].subset_of(set![d]);
    assert(all.contains(j));
    if s0.contains(j) {
        assert forall|e: int| b0[j].contains(e) implies set![d].contains(e) by {
            if e != d {
                assert(b1[j].contains(e));
            }
        }
    }
}

/// Two removals of the same digit make one, over the union of the squares.
proof fn lemma_removed_compose(b0: Seq<Set<int>>, b1: Seq<Set<int>>, b2: Seq<Set<int>>, d: int,
    s0: Set<int>, s1: Set<int>)
    requires
        removed_in(b0, b1, d, s0),
        removed_in(b1, b2, d, s1),
    ensures
        removed_in(b0, b2, d, s0.union(s1)),
{
    assert forall|j: int| 0 <= j < b0.len() implies #[trigger] b2[j]
        == if s0.union(s1).contains(j) {
        b0[j].remove(d)
    } else {
        b0[j]
    } by {
        assert(b0[j].remove(d).remove(d) =~= b0[j].remove(d));
        assert(b1[j] == (if s0.contains(j) { b0[j].remove(d) } else { b0[j] }));
    }
}

/// A square that is not blocked after `d` was removed from some squares was
/// not blocked before.
proof fn lemma_unblocked_before(b0: Seq<Set<int>>, b1: Seq<Set<int>>, d: int, s0: Set<int>, t: Set<
    int,
>)
    requires
        removed_in(b0, b1, d, s0),
        !blocked_in(b1, d, t),
        forall|j: int| t.contains(j) ==> 0 <= j < b0.len(),
    ensures
        !blocked_in(b0, d, t),
{
    assert forall|j: int| #[trigger] t.contains(j) implies !b0[j].subset_of(set![d]) by {
        assert(!b1[j].subset_of(set![d]));
        if b0[j].subset_of(set![d]) {
            assert(b1[j].subset_of(set![d]));
        }
    }
}

/// A unit pass that stopped, after the earlier passes went through, is where
/// the whole scan stopped.
proof fn lemma_stopped(
    b0: Seq<Set<int>>,
    bk: Seq<Set<int>>,
    new: Seq<Set<int>>,
    d: int,
    i: int,
    kind: int,
    m: int,
)
    requires
        0 <= kind <= 2,
        0 <= i < 81,
        b0.len() == 81,
        removed_in(b0, bk, d, scanned_before(kind, i)),
        !blocked_in(b0, d, scanned_before(kind, i)),
        unit_stopped(bk, new, d, i, kind, m),
    ensures
        stopped_at(b0, new, d, i, kind, m),
{
    let before = scanned_before(kind, i);
    lemma_removed_compose(b0, bk, new, d, before, unit_upto(kind, i, m));
    lemma_unblocked_before(b0, bk, d, before, unit_upto(kind, i, m - 1));
    let j = choose|j: int|
        #[trigger] unit_peers(kind, i).contains(j) && unit_pos(kind, i, j) == m && new[j]
            == Set::<int>::empty();
    assert(unit_peers(kind, i).contains(j));
}

/// A removal followed by a partial one is a partial removal.
proof fn lemma_partly_compose(b0: Seq<Set<int>>, b1: Seq<Set<int>>, b2: Seq<Set<int>>, d: int)
    requires
        b1.len() == b0.len(),
        forall|j: int| 0 <= j < b0.len() ==> #[trigger] b1[j] == b0[j] || b1[j] == b0[j].remove(d),
        partly_removed(b1, b2, d),
    ensures
        partly_removed(b0, b2, d),
{
    assert forall|j: int| 0 <= j < b0.len() implies #[trigger] b2[j] == b0[j]
        || b2[j] == b0[j].remove(d) by {
        assert(b0[j].remove(d).remove(d) =~= b0[j].remove(d));
    }
}

/// The reports of the three passes together cover all peers.
proof fn lemma_reports_extend(
    m3: Seq<(i32, i32)>,
    m0: Seq<(i32, i32)>,
    m1: Seq<(i32, i32)>,
    m2: Seq<(i32, i32)>,
    b1: Seq<Set<int>>,
    b2: Seq<Set<int>>,
    b3: Seq<Set<int>>,
    d: int,
    i: int,
)
    requires
        0 <= i < 81,
        b1.len() == 81,
        m1.len() >= m0.len(),
        m2.len() >= m1.len(),
        m3.len() >= m2.len(),
        m2.subrange(0, m1.len() as int) == m1,
        m3.subrange(0, m2.len() as int) == m2,
        reports(m1, m0.len() as int, b1, unit_peers(0, i)),
        reports(m2, m1.len() as int, b2, unit_peers(1, i)),
        reports(m3, m2.len() as int, b3, unit_peers(2, i)),
        forall|j: int| 0 <= j < 81 && unit_peers(0, i).contains(j)
            ==> !(#[trigger] b1[j]).contains(d),
        removed_in(b1, b2, d, unit_peers(1, i)),
        removed_in(b2, b3, d, unit_peers(2, i)),
    ensures
        reports(m3, m0.len() as int, b3, all_peers(i)),
{
    assert(all_peers(i) =~= unit_peers(0, i).union(unit_peers(1, i)).union(unit_peers(2, i)));
    assert forall|j: int| 0 <= j < 81 && unit_peers(1,
        i).contains(j) implies !(#[trigger] b2[j]).contains(d) by {
    }
    assert forall|j: int| 0 <= j < 81 && unit_peers(0,
        i).contains(j) implies #[trigger] b3[j] == b1[j] by {
        assert(b1[j].remove(d) =~= b1[j]);
        assert(b2[j] == b1[j]);
        assert(b2[j].remove(d) =~= b2[j]);
    }
    assert forall|j: int| 0 <= j < 81 && unit_peers(1,
        i).contains(j) implies #[trigger] b3[j] == b2[j] by {
        assert(b2[j].remove(d) =~= b2[j]);
    }
    assert forall|k: int| m0.len() <= k < m3.len() implies {
        let (x, y) = #[trigger] m3[k];
        &&& in_range(x as int, y as int)
        &&& all_peers(i).contains(idx(x as int, y as int))
        &&& b3[idx(x as int, y as int)].len() == 1
    } by {
        if k < m1.len() {
            assert(m3[k] == m2[k]);
            assert(m2[k] == m1[k]);
        } else if k < m2.len() {
            assert(m3[k] == m2[k]);
        }
    }
    assert forall|j: int| #[trigger] all_peers(i).contains(j)
        && b3[j].len() == 1 implies exists|k: int|
        m0.len() <= k < m3.len() && #[trigger] m3[k] == coord_of(j) by {
        if unit_peers(2, i).contains(j) {
            let k = choose|k: int| m2.len() <= k < m3.len() && #[trigger] m3[k] == coord_of(j);
        } else if unit_peers(1, i).contains(j) {
            let k = choose|k: int| m1.len() <= k < m2.len() && #[trigger] m2[k] == coord_of(j);
            assert(m3[k] == m2[k]);
        } else {
            assert(unit_peers(0, i).contains(j));
            let k = choose|k: int| m0.len() <= k < m1.len() && #[trigger] m1[k] == coord_of(j);
            assert(m2[k] == m1[k]);
            assert(m3[k] == m2[k]);
        }
    }
}


} // verus!
