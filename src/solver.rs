//! The search: propagation to a fixed point, guesses when it stalls, and
//! backtracking to saved states when a guess leads to a contradiction.

use crate::bits::{bits81, get81, len81, new81, set81, Bitmap81};
use crate::cell::all_digits;
use crate::grid::{
    all_peers, board_ok, coord_of, idx, in_range, peers, removed_in, unit_member, unit_squares,
        Grid,
};
use crate::observer::SolverObserver;
use vstd::prelude::*;

verus! {

/// A digit tried in one square, and the candidates of that square still untried.
#[derive(Clone, Debug)]
pub struct Guess {
    pub x: i32,
    pub y: i32,
    pub digit: i32,
    pub remaining_possibles: Vec<i32>,
}

/// A complete filling: a digit in every square, different in any two squares
/// that share a row, a column or a block.
pub open spec fn valid_solution(sol: Seq<int>) -> bool {
    &&& sol.len() == 81
    &&& forall|j: int| 0 <= j < 81 ==> 1 <= #[trigger] sol[j] <= 9
    &&& forall|j: int, p: int| #[trigger] peers(j, p) ==> sol[j] != sol[p]
}

/// `sol` gives every square one of its candidates on `board`.
pub open spec fn consistent(sol: Seq<int>, board: Seq<Set<int>>) -> bool {
    &&& sol.len() == 81
    &&& forall|j: int| 0 <= j < 81 ==> #[trigger] board[j].contains(sol[j])
}

/// Some complete filling agrees with the candidates of `board`.
pub open spec fn solvable(board: Seq<Set<int>>) -> bool {
    exists|sol: Seq<int>| valid_solution(sol) && consistent(sol, board)
}

/// The digits of a solution, as integers.
pub open spec fn digits_of(v: Seq<i32>) -> Seq<int> {
    v.map_values(|d: i32| d as int)
}

/// The queue of fixed squares waiting to be propagated is well formed:
/// squares of the board, each once, each fixed and not yet propagated.
pub open spec fn queue_ok(board: Seq<Set<int>>, queue: Seq<(i32, i32)>, solved: Set<int>) -> bool {
    &&& forall|k: int|
        0 <= k < queue.len() ==> {
            let (x, y) = #[trigger] queue[k];
            &&& in_range(x as int, y as int)
            &&& board[idx(x as int, y as int)].len() == 1
            &&& !solved.contains(idx(x as int, y as int))
        }
    &&& forall|k1: int, k2: int|
        0 <= k1 < queue.len() && 0 <= k2 < queue.len() && k1 != k2 ==> #[trigger] queue[k1]
            != #[trigger] queue[k2]
}

/// Every propagated square is fixed, and its digit is a candidate of none of its peers.
pub open spec fn solved_ok(board: Seq<Set<int>>, solved: Set<int>) -> bool {
    &&& solved.subset_of(vstd::set_lib::set_int_range(0, 81))
    &&& forall|j: int| #[trigger] solved.contains(j) ==> board[j].len() == 1
    &&& forall|j: int, p: int|
        #[trigger] solved.contains(j) && #[trigger] peers(j, p) ==> board[j].disjoint(board[p])
}

/// Every fixed square is propagated already or waits in the queue.
pub open spec fn fixed_tracked(board: Seq<Set<int>>, queue: Seq<(i32, i32)>,
    solved: Set<int>) -> bool {
    forall|j: int|
        0 <= j < 81 && (#[trigger] board[j]).len() == 1 ==> solved.contains(j) || queue.contains(
            coord_of(j),
        )
}

/// The invariant of the propagation state.
pub open spec fn state_ok(board: Seq<Set<int>>, queue: Seq<(i32, i32)>, solved: Set<int>) -> bool {
    &&& board_ok(board)
    &&& queue_ok(board, queue, solved)
    &&& solved_ok(board, solved)
    &&& fixed_tracked(board, queue, solved)
}

/// Every square of `board` holds a subset of its candidates on `root`.
pub open spec fn below(board: Seq<Set<int>>, root: Seq<Set<int>>) -> bool {
    forall|j: int| 0 <= j < 81 ==> (#[trigger] board[j]).subset_of(root[j])
}

/// In a valid solution every block, row and column holds each digit exactly once.
pub proof fn lemma_each_digit_once(sol: Seq<int>, kind: int, i: int, d: int)
    requires
        valid_solution(sol),
        0 <= kind <= 2,
        0 <= i < 81,
        1 <= d <= 9,
    ensures
        unit_squares(kind, i).filter(|j: int| sol[j] == d).len() == 1,
{
    let u = unit_squares(kind, i);
    let f = |m: int| sol[unit_member(kind, i, m)];
    let ms = vstd::set_lib::set_int_range(0, 9);
    let digits = vstd::set_lib::set_int_range(1, 10);
    crate::grid::lemma_unit_members(kind, i);
    assert(ms.map(f) == digits) by {
        vstd::set_lib::lemma_int_range(0, 9);
        vstd::set_lib::lemma_int_range(1, 10);
        assert forall|m1: int, m2: int| ms.contains(m1) && ms.contains(m2)
            && #[trigger] f(m1) == #[trigger] f(m2) implies m1 == m2 by {
            if m1 != m2 {
                crate::grid::lemma_unit_peers(kind, i, unit_member(kind, i, m1), unit_member(kind,
                    i, m2));
            }
        }
        assert(vstd::relations::injective_on(f, ms));
        vstd::set_lib::lemma_map_size(ms, ms.map(f), f);
        assert forall|e: int| #[trigger] ms.map(f).contains(e) implies digits.contains(e) by {
            let m = choose|m: int| ms.contains(m) && f(m) == e;
            assert(u.contains(unit_member(kind, i, m)));
        }
        vstd::set_lib::lemma_subset_equality(ms.map(f), digits);
    }
    assert(ms.map(f).contains(d));
    let m = choose|m: int| ms.contains(m) && f(m) == d;
    let j = unit_member(kind, i, m);
    let same = u.filter(|k: int| sol[k] == d);
    assert(same =~= set![j]) by {
        assert forall|k: int| #[trigger] same.contains(k) implies k == j by {
            if k != j {
                crate::grid::lemma_unit_peers(kind, i, j, k);
            }
        }
        assert(u.contains(j));
    }
    set![j].lemma_singleton_size();
}

/// Two squares that share a block, a row or a column and are both fixed to
/// the same digit leave the puzzle without a solution.
pub proof fn lemma_duplicate_hint_unsolvable(board: Seq<Set<int>>, i: int, j: int, d: int)
    requires
        peers(i, j),
        board[i] == set![d],
        board[j] == set![d],
    ensures
        !solvable(board),
{
    assert forall|sol: Seq<int>| !(valid_solution(sol) && consistent(sol, board)) by {
        if valid_solution(sol) && consistent(sol, board) {
            assert(board[i].contains(sol[i]));
            assert(board[j].contains(sol[j]));
        }
    }
}

/// Removing `d` from the peers of a square fixed to `d` loses no solution.
proof fn lemma_propagation_sound(b0: Seq<Set<int>>, b1: Seq<Set<int>>, i: int, d: int,
    sol: Seq<int>)
    requires
        0 <= i < 81,
        b0.len() == 81,
        b0[i] == set![d],
        removed_in(b0, b1, d, all_peers(i)),
        valid_solution(sol),
        consistent(sol, b0),
    ensures
        consistent(sol, b1),
{
    assert(b0[i].contains(sol[i]));
    assert(sol[i] == d);
    assert forall|j: int| 0 <= j < 81 implies #[trigger] b1[j].contains(sol[j]) by {
        if all_peers(i).contains(j) {
            assert(peers(i, j));
        }
    }
}

/// 10 to the power of the number of squares not yet accounted for.
pub open spec fn weight(n: int) -> nat
    decreases 81 - n,
{
    if n >= 81 {
        1
    } else {
        10 * weight(n + 1)
    }
}

proof fn lemma_weight(m: int, n: int)
    requires
        m <= n,
    ensures
        1 <= weight(n) <= weight(m),
    decreases n - m,
{
    if m < n {
        lemma_weight(m + 1, n);
    } else {
        lemma_weight_pos(n);
    }
}

proof fn lemma_weight_pos(n: int)
    ensures
        1 <= weight(n),
    decreases 81 - n,
{
    if n < 81 {
        lemma_weight_pos(n + 1);
    }
}

/// The squares of `q` are pairwise different.
pub open spec fn distinct(q: Seq<(i32, i32)>) -> bool {
    forall|k1: int, k2: int|
        0 <= k1 < q.len() && 0 <= k2 < q.len() && k1 != k2 ==> #[trigger] q[k1] != #[trigger] q[k2]
}

/// A fixed square that keeps a candidate other than `d` loses nothing when `d` goes.
proof fn lemma_fixed_keeps(s: Set<int>, d: int)
    requires
        s.finite(),
        s.len() == 1,
        !s.subset_of(set![d]),
    ensures
        s.remove(d) == s,
        !s.contains(d),
{
    Set::lemma_is_singleton(s);
    let e = s.choose();
    assert(s.contains(e));
    assert(s =~= set![e]);
    assert(s.remove(d) =~= s);
}

/// A square that keeps a candidate other than `d` is not emptied by removing `d`.
proof fn lemma_remove_nonempty(s: Set<int>, d: int)
    requires
        s.finite(),
        !s.subset_of(set![d]),
    ensures
        s.remove(d).len() >= 1,
{
    let e = choose|e: int| s.contains(e) && !set![d].contains(e);
    assert(s.remove(d).contains(e));
    if s.remove(d).len() == 0 {
        s.remove(d).lemma_len0_is_empty();
    }
}

/// Propagating the fixed square `i` keeps the propagation state sound, except
/// for the peers that became fixed, which the caller queues.
proof fn lemma_propagate_state(
    b0: Seq<Set<int>>,
    b1: Seq<Set<int>>,
    rest: Seq<(i32, i32)>,
    x: i32,
    y: i32,
    d: int,
    s0: Set<int>,
)
    requires
        in_range(x as int, y as int),
        state_ok(b0, rest.push((x, y)), s0),
        b0[idx(x as int, y as int)] == set![d],
        removed_in(b0, b1, d, all_peers(idx(x as int, y as int))),
        !crate::grid::blocked_in(b0, d, all_peers(idx(x as int, y as int))),
    ensures
        board_ok(b1),
        solved_ok(b1, s0.insert(idx(x as int, y as int))),
        queue_ok(b1, rest, s0.insert(idx(x as int, y as int))),
        distinct(rest),
        forall|j: int|
            0 <= j < 81 && (#[trigger] b1[j]).len() == 1 && !all_peers(idx(x as int,
                y as int)).contains(j)
                ==> s0.insert(idx(x as int, y as int)).contains(j) || rest.contains(coord_of(j)),
        below(b1, b0),
{
    let i = idx(x as int, y as int);
    let q = rest.push((x, y));
    let s1 = s0.insert(i);
    assert(!s0.contains(i)) by {
        assert(q[rest.len() as int] == (x, y));
    }
    assert forall|j: int| 0 <= j < 81
        && #[trigger] all_peers(i).contains(j) implies !b0[j].subset_of(set![d]) by {
        if b0[j].subset_of(set![d]) {
            assert(crate::grid::blocked_in(b0, d, all_peers(i)));
        }
    }
    assert forall|j: int| 0 <= j < 81 implies (#[trigger] b1[j]).finite()
        && b1[j].subset_of(all_digits()) && b1[j].len() >= 1 by {
        if all_peers(i).contains(j) {
            lemma_remove_nonempty(b0[j], d);
        }
    }
    assert forall|j: int| 0 <= j < 81 && #[trigger] b0[j].len() == 1
        && !b0[j].contains(d) implies b1[j] == b0[j] by {
        if all_peers(i).contains(j) {
            assert(!b0[j].subset_of(set![d]));
            lemma_fixed_keeps(b0[j], d);
        }
    }
    assert forall|j: int| #[trigger] s1.contains(j) implies b1[j].len() == 1 && b1[j] == b0[j] by {
        if j != i {
            assert(s0.contains(j));
            if all_peers(i).contains(j) {
                assert(peers(j, i));
                assert(b0[j].disjoint(b0[i]));
                assert(b0[i].contains(d));
            }
        }
    }
    assert forall|j: int, p: int| #[trigger] s1.contains(j) && #[trigger] peers(j,
        p) implies b1[j].disjoint(b1[p]) by {
        if j == i {
            assert(all_peers(i).contains(p));
        } else {
            assert(s0.contains(j));
            assert(b0[j].disjoint(b0[p]));
        }
    }
    assert forall|k: int| 0 <= k < rest.len() implies {
        let (xk, yk) = #[trigger] rest[k];
        &&& in_range(xk as int, yk as int)
        &&& b1[idx(xk as int, yk as int)].len() == 1
        &&& !s1.contains(idx(xk as int, yk as int))
    } by {
        assert(q[k] == rest[k]);
        let (xk, yk) = rest[k];
        let jk = idx(xk as int, yk as int);
        assert(q[k] != q[rest.len() as int]);
        assert(jk != i) by {
            crate::grid::lemma_same_square(xk as int, yk as int, x as int, y as int);
        }
        if all_peers(i).contains(jk) {
            assert(!b0[jk].subset_of(set![d]));
            lemma_fixed_keeps(b0[jk], d);
        }
    }
    assert forall|k1: int, k2: int| 0 <= k1 < rest.len() && 0 <= k2 < rest.len()
        && k1 != k2 implies #[trigger] rest[k1] != #[trigger] rest[k2] by {
        assert(q[k1] == rest[k1] && q[k2] == rest[k2]);
    }
    assert forall|j: int|
        0 <= j < 81 && (#[trigger] b1[j]).len() == 1 && !all_peers(i).contains(j)
        implies s1.contains(j) || rest.contains(coord_of(j)) by {
        assert(b1[j] == b0[j]);
        if !s0.contains(j) {
            assert(q.contains(coord_of(j)));
            let k = choose|k: int| 0 <= k < q.len() && q[k] == coord_of(j);
            if k == rest.len() {
                crate::grid::lemma_coord_of(j);
                crate::grid::lemma_same_square(x as int, y as int, (j % 9), (j / 9));
            } else {
                assert(rest[k] == coord_of(j));
            }
        }
    }
}

/// Whether square `pos` waits in `queue`.
fn queue_contains(queue: &Vec<(i32, i32)>, pos: (i32, i32)) -> (r: bool)
    ensures
        r == queue@.contains(pos),
{
    let mut k: usize = 0;
    while k < queue.len()
        invariant
            k <= queue.len(),
            forall|m: int| 0 <= m < k ==> queue@[m] != pos,
        decreases queue.len() - k,
    {
        if queue[k].0 == pos.0 && queue[k].1 == pos.1 {
            assert(queue@[k as int] == pos);
            return true;
        }
        k = k + 1;
    }
    false
}

/// Queues each square of `reported` that is neither queued nor propagated yet.
fn enqueue_all(queue: &mut Vec<(i32, i32)>, solved: &Bitmap81, reported: &Vec<(i32, i32)>)
    requires
        forall|k: int| 0 <= k < reported.len() ==> in_range(#[trigger] reported@[k].0 as int,
            reported@[k].1 as int),
    ensures
        final(queue)@.len() >= old(queue)@.len(),
        final(queue)@.subrange(0, old(queue)@.len() as int) == old(queue)@,
        forall|k: int|
            old(queue)@.len() <= k < final(queue)@.len()
                ==> reported@.contains(#[trigger] final(queue)@[k])
                && !bits81(*solved).contains(idx(final(queue)@[k].0 as int,
                    final(queue)@[k].1 as int)),
        forall|k: int|
            0 <= k < reported.len() ==> final(queue)@.contains(#[trigger] reported@[k])
                || bits81(*solved).contains(
                idx(reported@[k].0 as int, reported@[k].1 as int),
            ),
        distinct(old(queue)@) ==> distinct(final(queue)@),
{
    let ghost q0 = queue@;
    let mut t: usize = 0;
    while t < reported.len()
        invariant
            t <= reported.len(),
            forall|k: int| 0 <= k < reported.len() ==> in_range(#[trigger] reported@[k].0 as int,
                reported@[k].1 as int),
            q0 == old(queue)@,
            queue@.len() >= q0.len(),
            queue@.subrange(0, q0.len() as int) == q0,
            forall|k: int|
                q0.len() <= k < queue@.len() ==> reported@.contains(#[trigger] queue@[k])
                    && !bits81(*solved).contains(idx(queue@[k].0 as int, queue@[k].1 as int)),
            forall|k: int|
                0 <= k < t ==> queue@.contains(#[trigger] reported@[k]) || bits81(*solved).contains(
                    idx(reported@[k].0 as int, reported@[k].1 as int),
                ),
            distinct(q0) ==> distinct(queue@),
        decreases reported.len() - t,
    {
        let pos = reported[t];
        assert(in_range(pos.0 as int, pos.1 as int)) by {
            assert(reported@[t as int] == pos);
        }
        let ghost before = queue@;
        if !queue_contains(queue, pos) && !get81(solved, (pos.1 * 9 + pos.0) as usize) {
            queue.push(pos);
            assert(queue@[queue@.len() - 1] == pos);
            assert(queue@.subrange(0, q0.len() as int) =~= before.subrange(0, q0.len() as int));
            assert forall|k: int| 0 <= k < t implies queue@.contains(#[trigger] reported@[k])
                || bits81(*solved).contains(
                idx(reported@[k].0 as int, reported@[k].1 as int)) by {
                if before.contains(reported@[k]) {
                    let m = choose|m: int| 0 <= m < before.len() && before[m] == reported@[k];
                    assert(queue@[m] == reported@[k]);
                }
            }
            assert(reported@.contains(pos)) by {
                assert(reported@[t as int] == pos);
            }
            assert forall|k: int| q0.len() <= k < queue@.len()
                implies reported@.contains(#[trigger] queue@[k])
                && !bits81(*solved).contains(idx(queue@[k].0 as int, queue@[k].1 as int)) by {
                if k < before.len() {
                    assert(queue@[k] == before[k]);
                }
            }
            assert(distinct(q0) ==> distinct(queue@)) by {
                if distinct(q0) {
                    assert forall|k1: int, k2: int| 0 <= k1 < queue@.len()
                        && 0 <= k2 < queue@.len() && k1 != k2
                        implies #[trigger] queue@[k1] != #[trigger] queue@[k2] by {
                        if k1 < before.len() && k2 < before.len() {
                            assert(queue@[k1] == before[k1] && queue@[k2] == before[k2]);
                        } else if k1 < before.len() {
                            assert(queue@[k1] == before[k1]);
                            assert(before.contains(before[k1]));
                        } else if k2 < before.len() {
                            assert(queue@[k2] == before[k2]);
                            assert(before.contains(before[k2]));
                        }
                    }
                }
            }
        }
        assert(queue@.contains(reported@[t as int]) || bits81(*solved).contains(
            idx(reported@[t as int].0 as int, reported@[t as int].1 as int))) by {
            if queue@ == before && before.contains(pos) {
            }
        }
        t = t + 1;
    }
}

/// Solves a puzzle on a grid, reporting its guesses to an observer.
pub struct SudokuSolver<TGrid: Grid, TObserver: SolverObserver> {
    grid: TGrid,
    observer: TObserver,
    cells_to_eliminate: Vec<(i32, i32)>,
}

/// What the search saved when it made a guess: the guess and the whole
/// propagation state from just before it.
struct SolverState<TGrid: Grid> {
    guess: Guess,
    grid: TGrid,
    solved_cells: Bitmap81,
    cells_to_eliminate: Vec<(i32, i32)>,
}

impl<TGrid: Grid, TObserver: SolverObserver> SudokuSolver<TGrid, TObserver> {
    /// Propagates queued squares until the queue is empty. On success returns
    /// the propagated squares, `solved_cells` with those of the queue added; on
    /// failure no solution agrees with the board as it was.
    fn eliminate_all(&mut self, solved_cells: Bitmap81) -> (r: Result<Bitmap81,
        crate::cell::EliminationError>)
        requires
            state_ok(old(self).grid.board(), old(self).cells_to_eliminate@, bits81(solved_cells)),
        ensures
            r matches Ok(s) ==> {
                &&& state_ok(final(self).grid.board(), final(self).cells_to_eliminate@, bits81(s))
                &&& final(self).cells_to_eliminate@.len() == 0
                &&& bits81(s).len() >= bits81(solved_cells).len()
                    + old(self).cells_to_eliminate@.len()
                &&& below(final(self).grid.board(), old(self).grid.board())
                &&& forall|sol: Seq<int>|
                    valid_solution(sol) && #[trigger] consistent(sol, old(self).grid.board())
                        ==> consistent(
                        sol,
                        final(self).grid.board(),
                    )
            },
            r is Err ==> !solvable(old(self).grid.board()),
            r is Err ==> below(final(self).grid.board(), old(self).grid.board()),
            r is Err ==> distinct(final(self).cells_to_eliminate@),
    {
        let mut solved = solved_cells;
        let ghost b_in = self.grid.board();
        let ghost a_in = bits81(solved_cells).len() + self.cells_to_eliminate@.len();
        while self.cells_to_eliminate.len() > 0
            invariant
                state_ok(self.grid.board(), self.cells_to_eliminate@, bits81(solved)),
                b_in == old(self).grid.board(),
                a_in == bits81(solved_cells).len() + old(self).cells_to_eliminate@.len(),
                bits81(solved).len() + self.cells_to_eliminate@.len() >= a_in,
                below(self.grid.board(), b_in),
                forall|sol: Seq<int>|
                    valid_solution(sol) && #[trigger] consistent(sol, b_in) ==> consistent(sol,
                        self.grid.board()),
            decreases 81 - bits81(solved).len(),
        {
            let ghost b0 = self.grid.board();
            let ghost q0 = self.cells_to_eliminate@;
            let ghost s0 = bits81(solved);
            let (x, y) = match self.cells_to_eliminate.pop() {
                Some(p) => p,
                None => {
                    return Ok(solved);
                },
            };
            assert(q0 == self.cells_to_eliminate@.push((x, y)));
            assert(q0[q0.len() - 1] == (x, y));
            let k: usize = (y * 9 + x) as usize;
            set81(&mut solved, k, true);
            let digit = match self.grid.cell(x, y).first_possible() {
                Some(d) => d,
                None => {
                    proof {
                        assert(b0[k as int].len() == 1);
                        assert(b0[k as int] == Set::<int>::empty());
                    }
                    return Ok(solved);
                },
            };
            proof {
                let c = b0[k as int];
                assert(c.contains(digit as int));
                Set::lemma_is_singleton(c);
                assert(c =~= set![digit as int]);
                vstd::set_lib::lemma_int_range(0, 81);
                vstd::set_lib::lemma_len_subset(s0, vstd::set_lib::set_int_range(0, 81));
                assert(!s0.contains(k as int));
            }
            let mut reported: Vec<(i32, i32)> = Vec::new();
            match self.grid.eliminate(x, y, digit, &mut reported) {
                Ok(()) => {},
                Err(e) => {
                    proof {
                        assert forall|sol: Seq<int>| valid_solution(sol) implies !consistent(sol,
                            b_in) by {
                            if consistent(sol, b_in) {
                                assert(consistent(sol, b0));
                                let j = choose|j: int|
                                    #[trigger] all_peers(k as int).contains(j) && b0[j].subset_of(
                                        set![digit as int],
                                    );
                                assert(b0[j].contains(sol[j]));
                                assert(b0[k as int].contains(sol[k as int]));
                                assert(peers(k as int, j));
                            }
                        }
                    }
                    proof {
                        let b = self.grid.board();
                        assert forall|j: int| 0 <= j < 81 implies (#[trigger] b[j]).subset_of(
                            b_in[j],
                        ) by {
                            assert(b0[j].subset_of(b_in[j]));
                        }
                        let q = self.cells_to_eliminate@;
                        assert forall|k1: int, k2: int|
                            0 <= k1 < q.len() && 0 <= k2 < q.len() && k1 != k2
                                implies #[trigger] q[k1] != #[trigger] q[k2] by {
                            assert(q0[k1] == q[k1] && q0[k2] == q[k2]);
                        }
                    }
                    return Err(e);
                },
            }
            let ghost b1 = self.grid.board();
            proof {
                lemma_propagate_state(b0, b1, self.cells_to_eliminate@, x, y, digit as int, s0);
                assert(bits81(solved) == s0.insert(k as int));
                assert forall|sol: Seq<int>| valid_solution(sol) && #[trigger] consistent(sol,
                    b_in) implies consistent(sol, b1) by {
                    lemma_propagation_sound(b0, b1, k as int, digit as int, sol);
                }
                assert forall|m: int| 0 <= m < reported.len()
                    implies in_range(#[trigger] reported@[m].0 as int, reported@[m].1 as int) by {
                    let (xm, ym) = reported@[m];
                }
            }
            let ghost rest = self.cells_to_eliminate@;
            enqueue_all(&mut self.cells_to_eliminate, &solved, &reported);
            proof {
                let q = self.cells_to_eliminate@;
                let s1 = bits81(solved);
                assert forall|m: int| 0 <= m < q.len() implies {
                    let (xm, ym) = #[trigger] q[m];
                    &&& in_range(xm as int, ym as int)
                    &&& b1[idx(xm as int, ym as int)].len() == 1
                    &&& !s1.contains(idx(xm as int, ym as int))
                } by {
                    if m < rest.len() {
                        assert(q[m] == rest[m]);
                    } else {
                        let t = choose|t: int| 0 <= t < reported@.len() && reported@[t] == q[m];
                        assert(reported@[t] == q[m]);
                    }
                }
                assert forall|j: int|
                    0 <= j < 81 && (#[trigger] b1[j]).len() == 1 implies s1.contains(j)
                        || q.contains(coord_of(j)) by {
                    crate::grid::lemma_coord_of(j);
                    if all_peers(k as int).contains(j) {
                        let t = choose|t: int| 0 <= t < reported@.len()
                            && #[trigger] reported@[t] == coord_of(j);
                        assert(reported@[t] == coord_of(j));
                    } else if !s1.contains(j) {
                        assert(rest.contains(coord_of(j)));
                        let m = choose|m: int| 0 <= m < rest.len() && rest[m] == coord_of(j);
                        assert(q[m] == rest[m]);
                    }
                }
                vstd::set_lib::lemma_int_range(0, 81);
                vstd::set_lib::lemma_len_subset(s1, vstd::set_lib::set_int_range(0, 81));
            }
        }
        Ok(solved)
    }

    /// Chooses the next guess: the first square in row-major order among those
    /// with the fewest candidates (two or more), its smallest candidate, and
    /// its other candidates in ascending order.
    fn find_guess(&self) -> (g: Guess)
        requires
            board_ok(self.grid.board()),
            exists|j: int| 0 <= j < 81 && #[trigger] self.grid.board()[j].len() >= 2,
        ensures
            guess_rule(self.grid.board(), g),
    {
        let ghost b = self.grid.board();
        let mut num_digits: usize = 2;
        while num_digits < 10
            invariant
                b == self.grid.board(),
                board_ok(b),
                2 <= num_digits <= 10,
                forall|j: int| 0 <= j < 81 && #[trigger] b[j].len() >= 2
                    ==> b[j].len() >= num_digits,
            decreases 10 - num_digits,
        {
            let mut y: i32 = 0;
            while y < 9
                invariant
                    b == self.grid.board(),
                    board_ok(b),
                    2 <= num_digits < 10,
                    0 <= y <= 9,
                    forall|j: int| 0 <= j < 81 && #[trigger] b[j].len() >= 2
                        ==> b[j].len() >= num_digits,
                    forall|j: int| 0 <= j < y * 9 ==> #[trigger] b[j].len() != num_digits,
                decreases 9 - y,
            {
                let mut x: i32 = 0;
                while x < 9
                    invariant
                        b == self.grid.board(),
                        board_ok(b),
                        2 <= num_digits < 10,
                        0 <= y < 9,
                        0 <= x <= 9,
                        forall|j: int| 0 <= j < 81 && #[trigger] b[j].len() >= 2
                            ==> b[j].len() >= num_digits,
                        forall|j: int| 0 <= j < y * 9 + x ==> #[trigger] b[j].len() != num_digits,
                    decreases 9 - x,
                {
                    let cell = self.grid.cell(x, y);
                    if cell.num_possibles() == num_digits {
                        proof {
                            crate::grid::lemma_coords(x as int, y as int);
                        }
                        let digit = match cell.first_possible() {
                            Some(d) => d,
                            None => {
                                proof {
                                    assert(cell@.len() == 0);
                                }
                                0
                            },
                        };
                        let remaining_possibles = cell.possibles_except(digit);
                        let g = Guess { x, y, digit, remaining_possibles };
                        proof {
                            let c = b[idx(x as int, y as int)];
                            assert forall|e: int| c.contains(e) <==> (e == digit || (1 <= e <= 9
                                && g.remaining_possibles@.contains(e as i32))) by {
                                if g.remaining_possibles@.contains(e as i32) {
                                    let k = choose|k: int| 0 <= k < g.remaining_possibles@.len()
                                        && g.remaining_possibles@[k] == e as i32;
                                    assert(c.contains(g.remaining_possibles@[k] as int));
                                }
                                if c.contains(e) {
                                    assert(all_digits().contains(e));
                                }
                            }
                        }
                        return g;
                    }
                    x = x + 1;
                }
                y = y + 1;
            }
            num_digits = num_digits + 1;
        }
        proof {
            let j = choose|j: int| 0 <= j < 81 && #[trigger] b[j].len() >= 2;
            vstd::set_lib::lemma_int_range(1, 10);
            vstd::set_lib::lemma_len_subset(b[j], all_digits());
            assert(false);
        }
        Guess { x: 0, y: 0, digit: 1, remaining_possibles: Vec::new() }
    }
}

/// A guess in a square of the board, with the square's candidates split into
/// the digit tried and the others, in ascending order.
pub open spec fn guess_ok(board: Seq<Set<int>>, g: Guess) -> bool {
    let c = board[idx(g.x as int, g.y as int)];
    let rest = g.remaining_possibles@;
    &&& in_range(g.x as int, g.y as int)
    &&& 1 <= g.digit <= 9
    &&& forall|e: int| #[trigger] c.contains(e) <==> (e == g.digit || (1 <= e <= 9
        && rest.contains(e as i32)))
    &&& forall|k: int| 0 <= k < rest.len() ==> #[trigger] rest[k] != g.digit && 1 <= rest[k] <= 9
    &&& forall|j: int, k: int| 0 <= j < k < rest.len() ==> rest[j] < rest[k]
    &&& rest.len() <= 8
}

/// `g` is the guess that the search makes on `board`: the first square in
/// row-major order among those with the fewest candidates (two or more), its
/// smallest candidate, and its other candidates in ascending order.
pub open spec fn guess_rule(board: Seq<Set<int>>, g: Guess) -> bool {
    let c = idx(g.x as int, g.y as int);
    &&& guess_ok(board, g)
    &&& board[c].len() >= 2
    &&& forall|e: int| #[trigger] board[c].contains(e) ==> g.digit <= e
    &&& forall|j: int| 0 <= j < 81 && #[trigger] board[j].len() >= 2
        ==> board[j].len() >= board[c].len()
    &&& forall|j: int| 0 <= j < c ==> #[trigger] board[j].len() != board[c].len()
}

/// Two strictly ascending sequences with the same elements are equal.
proof fn lemma_ascending_unique(s1: Seq<i32>, s2: Seq<i32>)
    requires
        forall|j: int, k: int| 0 <= j < k < s1.len() ==> s1[j] < s1[k],
        forall|j: int, k: int| 0 <= j < k < s2.len() ==> s2[j] < s2[k],
        forall|e: i32| s1.contains(e) <==> s2.contains(e),
    ensures
        s1 == s2,
    decreases s1.len(),
{
    if s1.len() == 0 {
        if s2.len() > 0 {
            assert(s2.contains(s2[0]));
        }
        assert(s1 =~= s2);
    } else {
        assert(s1.contains(s1[0]));
        let k2 = choose|k: int| 0 <= k < s2.len() && s2[k] == s1[0];
        assert(s2.contains(s2[0]));
        let k1 = choose|k: int| 0 <= k < s1.len() && s1[k] == s2[0];
        assert(s1[0] == s2[0]) by {
            if k1 > 0 {
                assert(s1[0] < s1[k1]);
            }
            if k2 > 0 {
                assert(s2[0] < s2[k2]);
            }
        }
        let t1 = s1.drop_first();
        let t2 = s2.drop_first();
        assert forall|e: i32| t1.contains(e) <==> t2.contains(e) by {
            if t1.contains(e) {
                let m = choose|m: int| 0 <= m < t1.len() && t1[m] == e;
                assert(s1[m + 1] == e && s1[0] < e);
                assert(s2.contains(e));
                let n = choose|n: int| 0 <= n < s2.len() && s2[n] == e;
                assert(n > 0);
                assert(t2[n - 1] == e);
            }
            if t2.contains(e) {
                let m = choose|m: int| 0 <= m < t2.len() && t2[m] == e;
                assert(s2[m + 1] == e && s2[0] < e);
                assert(s1.contains(e));
                let n = choose|n: int| 0 <= n < s1.len() && s1[n] == e;
                assert(n > 0);
                assert(t1[n - 1] == e);
            }
        }
        lemma_ascending_unique(t1, t2);
        assert(s1 =~= s2) by {
            assert forall|m: int| 0 <= m < s1.len() implies s1[m] == s2[m] by {
                if m > 0 {
                    assert(t1[m - 1] == t2[m - 1]);
                }
            }
        }
    }
}

/// The guess rule leaves no choice: on a given board, two guesses that both
/// follow it are the same guess.
pub proof fn lemma_guess_rule_determines(board: Seq<Set<int>>, g1: Guess, g2: Guess)
    requires
        guess_rule(board, g1),
        guess_rule(board, g2),
    ensures
        g1.x == g2.x,
        g1.y == g2.y,
        g1.digit == g2.digit,
        g1.remaining_possibles@ == g2.remaining_possibles@,
{
    let c1 = idx(g1.x as int, g1.y as int);
    let c2 = idx(g2.x as int, g2.y as int);
    crate::grid::lemma_coords(g1.x as int, g1.y as int);
    crate::grid::lemma_coords(g2.x as int, g2.y as int);
    assert(board[c1].len() == board[c2].len());
    assert(c1 == c2) by {
        if c1 < c2 {
            assert(board[c1].len() != board[c2].len());
        } else if c2 < c1 {
            assert(board[c2].len() != board[c1].len());
        }
    }
    crate::grid::lemma_same_square(g1.x as int, g1.y as int, g2.x as int, g2.y as int);
    let c = board[c1];
    assert(c.contains(g1.digit as int) && c.contains(g2.digit as int));
    assert(g1.digit == g2.digit);
    let r1 = g1.remaining_possibles@;
    let r2 = g2.remaining_possibles@;
    assert forall|e: i32| r1.contains(e) <==> r2.contains(e) by {
        if r1.contains(e) {
            let k = choose|k: int| 0 <= k < r1.len() && r1[k] == e;
            assert(c.contains(e as int));
        }
        if r2.contains(e) {
            let k = choose|k: int| 0 <= k < r2.len() && r2[k] == e;
            assert(c.contains(e as int));
        }
    }
    lemma_ascending_unique(r1, r2);
}

/// A guess names a square and a digit, and lists other digits in ascending order.
pub open spec fn guess_shape_ok(g: Guess) -> bool {
    let rest = g.remaining_possibles@;
    &&& in_range(g.x as int, g.y as int)
    &&& 1 <= g.digit <= 9
    &&& forall|k: int| 0 <= k < rest.len() ==> #[trigger] rest[k] != g.digit && 1 <= rest[k] <= 9
    &&& forall|j: int, k: int| 0 <= j < k < rest.len() ==> rest[j] < rest[k]
}

/// Well-formed guesses, each in a square of its own.
pub open spec fn guesses_ok(guesses: Seq<Guess>) -> bool {
    &&& forall|k: int| 0 <= k < guesses.len() ==> guess_shape_ok(#[trigger] guesses[k])
    &&& forall|k1: int, k2: int|
        0 <= k1 < guesses.len() && 0 <= k2 < guesses.len() && k1 != k2
            ==> (#[trigger] guesses[k1]).x != (#[trigger] guesses[k2]).x || guesses[k1].y
            != guesses[k2].y
}

/// Two guesses with the same square, digit and untried digits.
pub open spec fn same_guess(a: Guess, b: Guess) -> bool {
    a.x == b.x && a.y == b.y && a.digit == b.digit && a.remaining_possibles@
        == b.remaining_possibles@
}

/// The position of the square of a guess.
pub open spec fn square_of(g: Guess) -> int {
    idx(g.x as int, g.y as int)
}

/// A copy of a guess.
fn copy_guess(g: &Guess) -> (r: Guess)
    ensures
        same_guess(r, *g),
{
    let mut rest: Vec<i32> = Vec::new();
    let mut k: usize = 0;
    while k < g.remaining_possibles.len()
        invariant
            k <= g.remaining_possibles.len(),
            rest@ == g.remaining_possibles@.subrange(0, k as int),
        decreases g.remaining_possibles.len() - k,
    {
        rest.push(g.remaining_possibles[k]);
        k = k + 1;
    }
    assert(rest@ =~= g.remaining_possibles@);
    Guess { x: g.x, y: g.y, digit: g.digit, remaining_possibles: rest }
}

/// The board of a saved state with its guess committed.
spec fn commit_of<TGrid: Grid>(e: SolverState<TGrid>) -> Seq<Set<int>> {
    e.grid.board().update(square_of(e.guess), set![e.guess.digit as int])
}

/// Each saved state lies below the committed boards of the states saved
/// before it, and no two saved guesses share a square.
spec fn chain_ok<TGrid: Grid>(st: Seq<SolverState<TGrid>>) -> bool {
    &&& forall|k1: int, k2: int|
        0 <= k1 < k2 < st.len() ==> below((#[trigger] st[k2]).grid.board(), commit_of(
            #[trigger] st[k1],
        ))
    &&& forall|k1: int, k2: int|
        0 <= k1 < k2 < st.len() ==> square_of((#[trigger] st[k1]).guess) != square_of(
            (#[trigger] st[k2]).guess,
        )
}

/// The live board lies below the committed board of every saved state.
spec fn current_ok<TGrid: Grid>(board: Seq<Set<int>>, st: Seq<SolverState<TGrid>>) -> bool {
    forall|k: int| 0 <= k < st.len() ==> below(board, commit_of(#[trigger] st[k]))
}

/// A square of a sound board that lies below a committed guess is fixed.
proof fn lemma_fixed_below(board: Seq<Set<int>>, committed: Seq<Set<int>>, c: int, g: int)
    requires
        board_ok(board),
        below(board, committed),
        0 <= c < 81,
        committed[c] == set![g],
    ensures
        board[c].len() == 1,
{
    assert(board[c].subset_of(set![g]));
    set![g].lemma_singleton_size();
    vstd::set_lib::lemma_len_subset(board[c], set![g]);
}

/// A saved state is a sound propagation state below `root`, with a well-formed guess.
spec fn entry_ok<TGrid: Grid>(e: SolverState<TGrid>, root: Seq<Set<int>>) -> bool {
    &&& state_ok(e.grid.board(), e.cells_to_eliminate@, bits81(e.solved_cells))
    &&& below(e.grid.board(), root)
    &&& guess_ok(e.grid.board(), e.guess)
    &&& bits81(e.solved_cells).len() <= 80
}

spec fn stack_ok<TGrid: Grid>(st: Seq<SolverState<TGrid>>, root: Seq<Set<int>>) -> bool {
    forall|k: int| 0 <= k < st.len() ==> entry_ok(#[trigger] st[k], root)
}

/// `sol` agrees with the saved state and takes one of the untried candidates
/// of its guess.
spec fn untried<TGrid: Grid>(sol: Seq<int>, e: SolverState<TGrid>) -> bool {
    &&& consistent(sol, e.grid.board())
    &&& e.guess.remaining_possibles@.contains(sol[idx(e.guess.x as int, e.guess.y as int)] as i32)
}

/// Some saved state still has `sol` among its untried branches.
spec fn covered<TGrid: Grid>(sol: Seq<int>, st: Seq<SolverState<TGrid>>) -> bool {
    exists|k: int| 0 <= k < st.len() && untried(sol, #[trigger] st[k])
}

/// What is left to search: the untried candidates of each saved guess,
/// weighted by how many squares were undecided when it was saved.
spec fn potential<TGrid: Grid>(st: Seq<SolverState<TGrid>>) -> nat
    decreases st.len(),
{
    if st.len() == 0 {
        0
    } else {
        potential(st.drop_last()) + (st.last().guess.remaining_possibles@.len() * weight(
            bits81(st.last().solved_cells).len() + 1int,
        )) as nat
    }
}

/// The measure that every round of the search decreases.
spec fn measure<TGrid: Grid>(st: Seq<SolverState<TGrid>>, solved: Bitmap81, queue: Seq<(i32,
    i32)>) -> nat {
    potential(st) + weight(bits81(solved).len() + queue.len() as int)
}

proof fn lemma_potential_push<TGrid: Grid>(st: Seq<SolverState<TGrid>>, e: SolverState<TGrid>)
    ensures
        potential(st.push(e)) == potential(st) + (e.guess.remaining_possibles@.len() * weight(
            bits81(e.solved_cells).len() + 1int,
        )) as nat,
{
    assert(st.push(e).drop_last() =~= st);
}

proof fn lemma_mul_le(r: int, w: int, b: int)
    requires
        0 <= r <= b,
        0 <= w,
    ensures
        r * w <= b * w,
{
    assert(r * w <= b * w) by (nonlinear_arith)
        requires
            0 <= r <= b,
            0 <= w,
    ;
}

/// Narrowing a square that is not propagated yet to a nonempty subset of its
/// candidates keeps the propagation state sound, once the square is queued
/// if it became fixed.
proof fn lemma_narrow(
    b: Seq<Set<int>>,
    q: Seq<(i32, i32)>,
    s: Set<int>,
    c: int,
    ns: Set<int>,
    q2: Seq<(i32, i32)>,
)
    requires
        state_ok(b, q, s),
        0 <= c < 81,
        !s.contains(c),
        ns.subset_of(b[c]),
        ns.len() >= 1,
        ns.len() == 1 ==> (q2 == q && q.contains(coord_of(c))) || (q2 == q.push(coord_of(c))
            && !q.contains(coord_of(c))),
        ns.len() != 1 ==> q2 == q,
    ensures
        state_ok(b.update(c, ns), q2, s),
{
    let b2 = b.update(c, ns);
    vstd::set_lib::lemma_len_subset(ns, b[c]);
    crate::grid::lemma_coord_of(c);
    assert forall|k: int| 0 <= k < q2.len() implies {
        let (x, y) = #[trigger] q2[k];
        &&& in_range(x as int, y as int)
        &&& b2[idx(x as int, y as int)].len() == 1
        &&& !s.contains(idx(x as int, y as int))
    } by {
        if k < q.len() {
            assert(q2[k] == q[k]);
            let (x, y) = q[k];
            if idx(x as int, y as int) == c {
                assert(b[c].len() == 1);
                if ns.len() == 0 {
                    ns.lemma_len0_is_empty();
                }
            }
        } else {
            assert(q2[k] == coord_of(c));
        }
    }
    assert forall|k1: int, k2: int|
        0 <= k1 < q2.len() && 0 <= k2 < q2.len()
            && k1 != k2 implies #[trigger] q2[k1] != #[trigger] q2[k2] by {
        if k1 < q.len() && k2 < q.len() {
            assert(q2[k1] == q[k1] && q2[k2] == q[k2]);
        } else if k1 < q.len() {
            assert(q2[k1] == q[k1]);
            assert(q.contains(q[k1]));
        } else if k2 < q.len() {
            assert(q2[k2] == q[k2]);
            assert(q.contains(q[k2]));
        }
    }
    assert forall|j: int, p: int| #[trigger] s.contains(j) && #[trigger] peers(j,
        p) implies b2[j].disjoint(b2[p]) by {
        assert(b[j].disjoint(b[p]));
    }
    assert forall|j: int| 0 <= j < 81 && (#[trigger] b2[j]).len() == 1 implies s.contains(j)
        || q2.contains(coord_of(j)) by {
        if j == c {
            if !(q2 == q && q.contains(coord_of(c))) {
                assert(q2[q.len() as int] == coord_of(c));
            }
        } else if !s.contains(j) {
            let k = choose|k: int| 0 <= k < q.len() && q[k] == coord_of(j);
            assert(q2[k] == q[k]);
        }
    }
}

/// A copy of the queue.
fn copy_queue(queue: &Vec<(i32, i32)>) -> (r: Vec<(i32, i32)>)
    ensures
        r@ == queue@,
{
    let mut r: Vec<(i32, i32)> = Vec::new();
    let mut k: usize = 0;
    while k < queue.len()
        invariant
            k <= queue.len(),
            r@ == queue@.subrange(0, k as int),
        decreases queue.len() - k,
    {
        r.push(queue[k]);
        k = k + 1;
    }
    assert(r@ =~= queue@);
    r
}

/// The digits of `v` other than `d`, in their order.
fn without(v: &Vec<i32>, d: i32) -> (r: Vec<i32>)
    ensures
        forall|e: i32| r@.contains(e) <==> v@.contains(e) && e != d,
        (forall|j: int, k: int| 0 <= j < k < v.len() ==> v@[j] < v@[k]) ==> (forall|j: int, k: int|
            0 <= j < k < r.len() ==> r@[j] < r@[k]),
        v@.contains(d) ==> r.len() < v.len(),
        r.len() <= v.len(),
{
    let mut r: Vec<i32> = Vec::new();
    let mut k: usize = 0;
    while k < v.len()
        invariant
            k <= v.len(),
            forall|e: i32| r@.contains(e) <==> v@.subrange(0, k as int).contains(e) && e != d,
            forall|m: int| #![trigger r@[m]] 0 <= m < r.len()
                ==> exists|n: int| #![trigger v@[n]] 0 <= n < k && v@[n] == r@[m],
            (forall|j: int, m: int| 0 <= j < m < v.len() ==> v@[j] < v@[m]) ==> (forall|j: int,
                m: int|
                0 <= j < m < r.len() ==> r@[j] < r@[m]),
            r.len() + (if v@.subrange(0, k as int).contains(d) { 1int } else { 0int }) <= k,
        decreases v.len() - k,
    {
        let ghost before = r@;
        if v[k] != d {
            r.push(v[k]);
            proof {
                if before.len() > 0 {
                    let n = choose|n: int| 0 <= n < k
                        && #[trigger] v@[n] == before[before.len() - 1];
                }
                assert forall|m: int| 0 <= m < r.len() implies exists|n: int| 0 <= n < k + 1
                    && #[trigger] v@[n] == #[trigger] r@[m] by {
                    if m < before.len() {
                        let n = choose|n: int| 0 <= n < k && #[trigger] v@[n] == before[m];
                        assert(v@[n] == r@[m]);
                    } else {
                        assert(v@[k as int] == r@[m]);
                    }
                }
            }
        }
        proof {
            assert(v@.subrange(0, k + 1) =~= v@.subrange(0, k as int).push(v@[k as int]));
            let sub = v@.subrange(0, k as int);
            assert forall|e: i32| r@.contains(e) <==> v@.subrange(0, k + 1).contains(e)
                && e != d by {
                let sub1 = v@.subrange(0, k + 1);
                if r@.contains(e) {
                    let m = choose|m: int| 0 <= m < r@.len() && r@[m] == e;
                    if m < before.len() {
                        assert(before[m] == e);
                        assert(before.contains(e));
                        let n = choose|n: int| 0 <= n < sub.len() && sub[n] == e;
                        assert(sub1[n] == e);
                    } else {
                        assert(sub1[k as int] == e);
                    }
                }
                if sub1.contains(e) && e != d {
                    let n = choose|n: int| 0 <= n < sub1.len() && sub1[n] == e;
                    if n < k {
                        assert(sub[n] == e);
                        assert(before.contains(e));
                        let m = choose|m: int| 0 <= m < before.len() && before[m] == e;
                        assert(r@[m] == e);
                    } else {
                        assert(r@[r@.len() - 1] == e);
                    }
                }
            }
            assert(sub.contains(d) ==> v@.subrange(0, k + 1).contains(d)) by {
                if sub.contains(d) {
                    let n = choose|n: int| 0 <= n < sub.len() && sub[n] == d;
                    assert(v@.subrange(0, k + 1)[n] == d);
                }
            }
            assert(v@[k as int] == d ==> v@.subrange(0, k + 1).contains(d)) by {
                assert(v@.subrange(0, k + 1)[k as int] == v@[k as int]);
            }
        }
        k = k + 1;
    }
    assert(v@.subrange(0, v.len() as int) =~= v@);
    r
}

impl<TGrid: Grid, TObserver: SolverObserver> SudokuSolver<TGrid, TObserver> {
    /// Fixes square (`x`, `y`) to `digit` and queues it, unless it waits already.
    fn commit(&mut self, x: i32, y: i32, digit: i32)
        requires
            in_range(x as int, y as int),
            1 <= digit <= 9,
            old(self).grid.board().len() == 81,
        ensures
            final(self).grid.board() == old(self).grid.board().update(idx(x as int, y as int),
                set![digit as int]),
            final(self).cells_to_eliminate@ == if old(self).cells_to_eliminate@.contains((x, y)) {
                old(self).cells_to_eliminate@
            } else {
                old(self).cells_to_eliminate@.push((x, y))
            },
    {
        self.grid.set_hint(x, y, digit);
        if !queue_contains(&self.cells_to_eliminate, (x, y)) {
            self.cells_to_eliminate.push((x, y));
        }
    }

    /// Shows the live guesses to the observer.
    fn show_guesses(&mut self, state_stack: &Vec<SolverState<TGrid>>)
        requires
            chain_ok(state_stack@),
            forall|k: int| 0 <= k < state_stack@.len() ==> guess_shape_ok(
                (#[trigger] state_stack@[k]).guess,
            ),
        ensures
            final(self).grid == old(self).grid,
            final(self).cells_to_eliminate == old(self).cells_to_eliminate,
    {
        let mut guesses: Vec<Guess> = Vec::new();
        let mut k: usize = 0;
        while k < state_stack.len()
            invariant
                k <= state_stack.len(),
                guesses@.len() == k,
                forall|m: int| 0 <= m < k ==> same_guess(#[trigger] guesses@[m],
                    state_stack@[m].guess),
            decreases state_stack.len() - k,
        {
            guesses.push(copy_guess(&state_stack[k].guess));
            k = k + 1;
        }
        proof {
            let st = state_stack@;
            assert forall|m: int| 0 <= m < guesses@.len() implies guess_shape_ok(
                #[trigger] guesses@[m],
            ) by {
                assert(same_guess(guesses@[m], st[m].guess));
                assert(guess_shape_ok(st[m].guess));
            }
            assert forall|m1: int, m2: int|
                0 <= m1 < guesses@.len() && 0 <= m2 < guesses@.len() && m1 != m2
                    implies (#[trigger] guesses@[m1]).x != (#[trigger] guesses@[m2]).x
                || guesses@[m1].y != guesses@[m2].y by {
                assert(same_guess(guesses@[m1], st[m1].guess));
                assert(same_guess(guesses@[m2], st[m2].guess));
                if m1 < m2 {
                    assert(square_of(st[m1].guess) != square_of(st[m2].guess));
                } else {
                    assert(square_of(st[m2].guess) != square_of(st[m1].guess));
                }
            }
        }
        self.observer.display_guesses(&guesses);
    }

    /// Abandons the current branch: drops the saved states whose guesses have
    /// no untried candidate left, restores the newest other one, removes its
    /// failed digit, and commits its next candidate as a new guess, saved in
    /// its place. Returns false when no saved state is left to try.
    fn backtrack_and_make_new_guess(
        &mut self,
        state_stack: &mut Vec<SolverState<TGrid>>,
        solved_cells: &mut Bitmap81,
        root: Ghost<Seq<Set<int>>>,
    ) -> (found: bool)
        requires
            stack_ok(old(state_stack)@, root@),
            chain_ok(old(state_stack)@),
            forall|sol: Seq<int>|
                valid_solution(sol) && #[trigger] consistent(sol, root@) ==> covered(sol,
                    old(state_stack)@),
        ensures
            !found ==> !solvable(root@),
            found ==> {
                &&& state_ok(final(self).grid.board(), final(self).cells_to_eliminate@,
                    bits81(*final(solved_cells)))
                &&& below(final(self).grid.board(), root@)
                &&& stack_ok(final(state_stack)@, root@)
                &&& chain_ok(final(state_stack)@)
                &&& current_ok(final(self).grid.board(), final(state_stack)@)
                &&& forall|sol: Seq<int>|
                    valid_solution(sol) && #[trigger] consistent(sol, root@) ==> consistent(sol,
                        final(self).grid.board())
                        || covered(sol, final(state_stack)@)
                &&& measure(final(state_stack)@, *final(solved_cells),
                    final(self).cells_to_eliminate@) <= potential(old(state_stack)@)
            },
            // The restored board is the saved one, but for the guessed square,
            // which now holds the next untried candidate.
            found ==> {
                let k = final(state_stack)@.len() - 1;
                let saved = old(state_stack)@[k];
                let c = idx(saved.guess.x as int, saved.guess.y as int);
                &&& 0 <= k < old(state_stack)@.len()
                &&& final(state_stack)@.subrange(0, k) == old(state_stack)@.subrange(0, k)
                &&& saved.guess.remaining_possibles@.len() > 0
                &&& *final(solved_cells) == saved.solved_cells
                &&& final(self).grid.board() == saved.grid.board().update(c,
                    set![saved.guess.remaining_possibles@[0] as int])
            },
            // A saved state is restored exactly when one still has an untried
            // candidate, and it is the newest such one.
            found <==> exists|k: int|
                0 <= k < old(state_stack)@.len()
                    && (#[trigger] old(state_stack)@[k]).guess.remaining_possibles@.len() > 0,
            !found ==> final(state_stack)@.len() == 0,
            found ==> forall|k: int|
                final(state_stack)@.len() - 1 < k < old(state_stack)@.len()
                    ==> (#[trigger] old(state_stack)@[k]).guess.remaining_possibles@.len() == 0,
            // In its place stands the next guess in the same square, saved with
            // the failed digit removed; the guess is committed and queued.
            found ==> {
                let k = final(state_stack)@.len() - 1;
                let saved = old(state_stack)@[k];
                let top = final(state_stack)@[k];
                let c = idx(saved.guess.x as int, saved.guess.y as int);
                let xy = (saved.guess.x, saved.guess.y);
                &&& top.guess.x == saved.guess.x
                &&& top.guess.y == saved.guess.y
                &&& top.guess.digit == saved.guess.remaining_possibles@[0]
                &&& top.guess.remaining_possibles@ == saved.guess.remaining_possibles@.drop_first()
                &&& top.grid.board() == saved.grid.board().update(c,
                    saved.grid.board()[c].remove(saved.guess.digit as int))
                &&& top.solved_cells == saved.solved_cells
                &&& top.cells_to_eliminate@ == if top.grid.board()[c].len() == 1 {
                    saved.cells_to_eliminate@.push(xy)
                } else {
                    saved.cells_to_eliminate@
                }
                &&& final(self).cells_to_eliminate@ == if top.cells_to_eliminate@.contains(xy) {
                    top.cells_to_eliminate@
                } else {
                    top.cells_to_eliminate@.push(xy)
                }
            },
    {
        let ghost st0 = state_stack@;
        while state_stack.len() > 0
            invariant
                state_stack@.len() <= st0.len(),
                state_stack@ == st0.subrange(0, state_stack@.len() as int),
                st0 == old(state_stack)@,
                stack_ok(st0, root@),
                chain_ok(st0),
                forall|k: int| state_stack@.len() <= k < st0.len()
                    ==> (#[trigger] st0[k]).guess.remaining_possibles@.len() == 0,
                potential(state_stack@) == potential(st0),
                forall|sol: Seq<int>|
                    valid_solution(sol) && #[trigger] consistent(sol, root@) ==> covered(sol,
                        state_stack@),
            decreases state_stack.len(),
        {
            let ghost before = state_stack@;
            let old_state = match state_stack.pop() {
                Some(e) => e,
                None => {
                    return false;
                },
            };
            assert(before == state_stack@.push(old_state));
            assert(before[before.len() - 1] == old_state);
            if old_state.guess.remaining_possibles.len() == 0 {
                proof {
                    assert(state_stack@ =~= st0.subrange(0, state_stack@.len() as int));
                    assert(before.drop_last() =~= state_stack@);
                    assert(potential(before) == potential(before.drop_last())
                        + (old_state.guess.remaining_possibles@.len() * weight(
                        bits81(old_state.solved_cells).len() + 1int)) as nat);
                    assert(old_state.guess.remaining_possibles@.len() == 0);
                    let w0 = weight(bits81(old_state.solved_cells).len() + 1int);
                    assert(0 * w0 == 0) by (nonlinear_arith);
                    assert(potential(state_stack@) == potential(before));
                    assert forall|sol: Seq<int>| valid_solution(sol) && #[trigger] consistent(sol,
                        root@) implies covered(sol, state_stack@) by {
                        let k = choose|k: int| 0 <= k < before.len() && untried(sol,
                            #[trigger] before[k]);
                        assert(before[k] == state_stack@[k] || k == before.len() - 1);
                        if k < state_stack@.len() {
                            assert(untried(sol, state_stack@[k]));
                        }
                    }
                }
                continue;
            }
            let ghost e = old_state;
            let ghost k0 = state_stack@.len() as int;
            proof {
                assert(st0[k0] == e);
                assert(entry_ok(e, root@));
            }
            let SolverState { guess, grid, solved_cells: saved_solved,
                cells_to_eliminate: saved_queue } = old_state;
            self.grid = grid;
            *solved_cells = saved_solved;
            self.cells_to_eliminate = saved_queue;
            let x = guess.x;
            let y = guess.y;
            let ghost c = idx(x as int, y as int);
            let ghost b_e = e.grid.board();
            proof {
                crate::grid::lemma_coords(x as int, y as int);
                assert(b_e[c].contains(guess.remaining_possibles@[0] as int));
                assert(b_e[c].contains(guess.digit as int));
                assert(b_e[c].len() >= 2) by {
                    assert(b_e[c].remove(guess.digit as int).contains(
                    guess.remaining_possibles@[0] as int,
                ));
                    vstd::set_lib::lemma_len_subset(b_e[c].remove(guess.digit as int), b_e[c]);
                    if b_e[c].remove(guess.digit as int).len() == 0 {
                        b_e[c].remove(guess.digit as int).lemma_len0_is_empty();
                    }
                }
                assert(!bits81(saved_solved).contains(c));
                assert(!e.cells_to_eliminate@.contains(coord_of(c))) by {
                    if e.cells_to_eliminate@.contains(coord_of(c)) {
                        let m = choose|m: int| 0 <= m < e.cells_to_eliminate@.len()
                            && e.cells_to_eliminate@[m] == coord_of(c);
                        crate::grid::lemma_coord_of(c);
                    }
                }
            }
            let _ = self.grid.eliminate_possible(x, y, guess.digit);
            let ghost b1 = self.grid.board();
            let ghost q_saved = self.cells_to_eliminate@;
            if self.grid.cell(x, y).num_possibles() == 1 {
                self.cells_to_eliminate.push((x, y));
            }
            proof {
                crate::grid::lemma_coord_of(c);
                assert(b_e[c].remove(guess.digit as int).contains(
                    guess.remaining_possibles@[0] as int,
                ));
                vstd::set_lib::lemma_len_subset(b_e[c].remove(guess.digit as int), b_e[c]);
                if b1[c].len() == 0 {
                    b1[c].lemma_len0_is_empty();
                }
                lemma_narrow(b_e, q_saved, bits81(*solved_cells), c,
                    b_e[c].remove(guess.digit as int), self.cells_to_eliminate@);
                assert(b1 == b_e.update(c, b_e[c].remove(guess.digit as int)));
            }
            let digit = guess.remaining_possibles[0];
            let remaining_possibles = without(&guess.remaining_possibles, digit);
            let new_guess = Guess { x, y, digit, remaining_possibles };
            let ghost q1 = self.cells_to_eliminate@;
            let new_state = SolverState {
                guess: new_guess,
                grid: self.grid.snapshot(),
                solved_cells: *solved_cells,
                cells_to_eliminate: copy_queue(&self.cells_to_eliminate),
            };
            proof {
                let rest = guess.remaining_possibles@;
                assert(rest.contains(digit)) by {
                    assert(rest[0] == digit);
                }
                assert forall|f: int| #[trigger] b1[c].contains(f) <==> (f == digit
                    || (1 <= f <= 9 && new_state.guess.remaining_possibles@.contains(
                    f as i32,
                ))) by {
                    if b1[c].contains(f) {
                        assert(b_e[c].contains(f) && f != guess.digit);
                        assert(1 <= f <= 9 && rest.contains(f as i32));
                    }
                    if 1 <= f <= 9 && new_state.guess.remaining_possibles@.contains(f as i32) {
                        assert(rest.contains(f as i32));
                        let m = choose|m: int| 0 <= m < rest.len() && rest[m] == f as i32;
                        assert(rest[m] != guess.digit);
                        assert(b_e[c].contains(f));
                    }
                    if f == digit {
                        assert(rest[0] != guess.digit);
                    }
                }
                assert forall|m: int| 0 <= m < new_state.guess.remaining_possibles@.len()
                    implies #[trigger] new_state.guess.remaining_possibles@[m] != digit
                        && 1 <= new_state.guess.remaining_possibles@[m] <= 9 by {
                    let f = new_state.guess.remaining_possibles@[m];
                    assert(new_state.guess.remaining_possibles@.contains(f));
                    assert(rest.contains(f));
                    let n = choose|n: int| 0 <= n < rest.len() && rest[n] == f;
                    assert(1 <= rest[n] <= 9);
                }
                assert(guess_ok(b1, new_state.guess));
                assert(entry_ok(new_state, root@)) by {
                    assert forall|j: int| 0 <= j < 81
                        implies (#[trigger] b1[j]).subset_of(root@[j]) by {
                        assert(b_e[j].subset_of(root@[j]));
                    }
                }
            }
            state_stack.push(new_state);
            self.grid.invalidate();
            self.commit(x, y, digit);
            proof {
                let b2 = self.grid.board();
                let q2 = self.cells_to_eliminate@;
                let st = state_stack@;
                assert(b1[c].contains(digit as int));
                assert(set![digit as int].len() == 1) by {
                    set![digit as int].lemma_singleton_size();
                }
                if q1.contains(coord_of(c)) {
                    assert(q2 == q1);
                } else {
                    assert(q2 == q1.push(coord_of(c)));
                }
                lemma_narrow(b1, q1, bits81(*solved_cells), c, set![digit as int], q2);
                assert(q2.contains(coord_of(c))) by {
                    if !q1.contains(coord_of(c)) {
                        assert(q2[q1.len() as int] == coord_of(c));
                    }
                }
                assert(q2.len() >= 1);
                assert forall|j: int| 0 <= j < 81
                    implies (#[trigger] b2[j]).subset_of(root@[j]) by {
                    assert(b_e[j].subset_of(root@[j]));
                }
                assert(st == state_stack@);
                assert(st.drop_last() =~= st0.subrange(0, k0));
                assert forall|k: int| 0 <= k < st.len() implies entry_ok(#[trigger] st[k],
                    root@) by {
                    if k < k0 {
                        assert(st[k] == st0[k]);
                    }
                }
                assert forall|sol: Seq<int>| valid_solution(sol) && #[trigger] consistent(sol,
                    root@) implies consistent(sol, b2) || covered(sol, st) by {
                    let k = choose|k: int| 0 <= k < before.len() && untried(sol,
                        #[trigger] before[k]);
                    if k < k0 {
                        assert(st[k] == before[k]);
                        assert(untried(sol, st[k]));
                    } else {
                        assert(k == k0);
                        let f = sol[c];
                        assert(1 <= f <= 9);
                        assert(guess.remaining_possibles@.contains(f as i32));
                        assert(b_e[c].contains(f)) by {
                            let m = choose|m: int| 0 <= m < guess.remaining_possibles@.len()
                                && guess.remaining_possibles@[m] == f as i32;
                        }
                        assert(consistent(sol, b1)) by {
                            assert(f != guess.digit);
                            assert forall|j: int| 0 <= j < 81
                                implies #[trigger] b1[j].contains(sol[j]) by {
                                assert(b_e[j].contains(sol[j]));
                            }
                        }
                        if f == digit {
                            assert forall|j: int| 0 <= j < 81
                                implies #[trigger] b2[j].contains(sol[j]) by {
                                assert(b1[j].contains(sol[j]));
                            }
                        } else {
                            assert(new_state.guess.remaining_possibles@.contains(f as i32));
                            assert(st[k0] == new_state);
                            assert(untried(sol, st[k0]));
                        }
                    }
                }
                // the measure
                let w = weight(bits81(e.solved_cells).len() + 1int);
                let r0 = guess.remaining_possibles@.len();
                let r1 = new_state.guess.remaining_possibles@.len();
                assert(r1 < r0);
                lemma_potential_push(st0.subrange(0, k0), e);
                assert(st0.subrange(0, k0).push(e) =~= before);
                lemma_potential_push(st0.subrange(0, k0), new_state);
                assert(st0.subrange(0, k0).push(new_state) =~= st);
                lemma_weight(bits81(e.solved_cells).len() + 1int,
                    bits81(*solved_cells).len() + q2.len() as int);
                lemma_mul_le(r1 as int, w as int, (r0 - 1) as int);
                assert((r0 - 1) * w + w == r0 * w) by (nonlinear_arith);
            }
            proof {
                let rest = guess.remaining_possibles@;
                let t = rest.drop_first();
                let r = new_state.guess.remaining_possibles@;
                assert forall|f: i32| r.contains(f) <==> t.contains(f) by {
                    if r.contains(f) {
                        assert(rest.contains(f) && f != rest[0]);
                        let n = choose|n: int| 0 <= n < rest.len() && rest[n] == f;
                        assert(n != 0);
                        assert(t[n - 1] == f);
                    }
                    if t.contains(f) {
                        let n = choose|n: int| 0 <= n < t.len() && t[n] == f;
                        assert(rest[n + 1] == f);
                        assert(rest[0] < rest[n + 1]);
                        assert(rest.contains(f));
                    }
                }
                lemma_ascending_unique(r, t);
                assert(st0[k0] == e);
                assert(state_stack@[k0] == new_state);
                let st = state_stack@;
                let b2 = self.grid.board();
                assert forall|k1: int, k2: int| 0 <= k1 < k2 < st.len() implies below(
                    (#[trigger] st[k2]).grid.board(),
                    commit_of(#[trigger] st[k1]),
                ) && square_of(st[k1].guess) != square_of(st[k2].guess) by {
                    assert(st[k1] == st0[k1]);
                    if k2 < k0 {
                        assert(st[k2] == st0[k2]);
                    } else {
                        assert(below(st0[k0].grid.board(), commit_of(st0[k1])));
                        assert forall|j: int| 0 <= j < 81 implies (#[trigger] b1[j]).subset_of(
                            commit_of(st0[k1])[j],
                        ) by {
                            assert(b_e[j].subset_of(commit_of(st0[k1])[j]));
                        }
                    }
                }
                assert forall|k: int| 0 <= k < st.len() implies below(b2, commit_of(
                    #[trigger] st[k],
                )) by {
                    if k < k0 {
                        assert(st[k] == st0[k]);
                        assert(below(st0[k0].grid.board(), commit_of(st0[k])));
                        assert forall|j: int| 0 <= j < 81 implies (#[trigger] b2[j]).subset_of(
                            commit_of(st0[k])[j],
                        ) by {
                            assert(b_e[j].subset_of(commit_of(st0[k])[j]));
                        }
                    } else {
                        assert(commit_of(st[k]) == b2);
                    }
                }
            }
            self.show_guesses(state_stack);
            return true;
        }
        proof {
            assert forall|sol: Seq<int>| !(valid_solution(sol) && consistent(sol, root@)) by {
                if valid_solution(sol) && consistent(sol, root@) {
                    assert(covered(sol, state_stack@));
                }
            }
        }
        false
    }
}

/// Before any propagation, fixing a square to a digit and queueing it keeps
/// the state sound.
proof fn lemma_hint(b: Seq<Set<int>>, q: Seq<(i32, i32)>, c: int, h: int, q2: Seq<(i32, i32)>)
    requires
        state_ok(b, q, Set::empty()),
        0 <= c < 81,
        1 <= h <= 9,
        q2 == (if q.contains(coord_of(c)) { q } else { q.push(coord_of(c)) }),
    ensures
        state_ok(b.update(c, set![h]), q2, Set::empty()),
{
    let b2 = b.update(c, set![h]);
    set![h].lemma_singleton_size();
    crate::grid::lemma_coord_of(c);
    assert(set![h].subset_of(all_digits()));
    assert forall|k: int| 0 <= k < q2.len() implies {
        let (x, y) = #[trigger] q2[k];
        &&& in_range(x as int, y as int)
        &&& b2[idx(x as int, y as int)].len() == 1
        &&& !Set::<int>::empty().contains(idx(x as int, y as int))
    } by {
        if k < q.len() {
            assert(q2[k] == q[k]);
        } else {
            assert(q2[k] == coord_of(c));
        }
    }
    assert forall|k1: int, k2: int|
        0 <= k1 < q2.len() && 0 <= k2 < q2.len()
            && k1 != k2 implies #[trigger] q2[k1] != #[trigger] q2[k2] by {
        if k1 < q.len() && k2 < q.len() {
            assert(q2[k1] == q[k1] && q2[k2] == q[k2]);
        } else if k1 < q.len() {
            assert(q2[k1] == q[k1]);
            assert(q.contains(q[k1]));
        } else if k2 < q.len() {
            assert(q2[k2] == q[k2]);
            assert(q.contains(q[k2]));
        }
    }
    assert forall|j: int| 0 <= j < 81
        && (#[trigger] b2[j]).len() == 1 implies Set::<int>::empty().contains(j)
            || q2.contains(coord_of(j)) by {
        if j == c {
            if !q.contains(coord_of(c)) {
                assert(q2[q.len() as int] == coord_of(c));
            }
        } else {
            let k = choose|k: int| 0 <= k < q.len() && q[k] == coord_of(j);
            assert(q2[k] == q[k]);
        }
    }
}

/// Solves a puzzle given as hints.
pub trait Solver {
    /// The candidates of each square, in row-major order.
    spec fn board(&self) -> Seq<Set<int>>;

    /// The solver is ready to take hints or to solve.
    spec fn ready(&self) -> bool;

    /// The fixed squares waiting to be propagated, in the order queued.
    spec fn queue(&self) -> Seq<(i32, i32)>;

    /// A ready solver holds a board of 81 squares.
    proof fn lemma_ready_board(&self)
        requires
            self.ready(),
        ensures
            self.board().len() == 81,
    ;

    /// Fixes square (`x`, `y`) to `hint`; a later hint for the same square wins.
    fn set_hint(&mut self, x: i32, y: i32, hint: i32)
        requires
            old(self).ready(),
            in_range(x as int, y as int),
            1 <= hint <= 9,
        ensures
            final(self).ready(),
            final(self).board() == old(self).board().update(idx(x as int, y as int),
                set![hint as int]),
            final(self).queue() == if old(self).queue().contains((x, y)) {
                old(self).queue()
            } else {
                old(self).queue().push((x, y))
            },
    ;

    /// Returns a complete filling that agrees with the board, or `None` when
    /// there is none. The search always ends. A solver solves once: what it
    /// holds afterwards is not ready for more hints.
    fn solve(&mut self) -> (r: Option<Vec<i32>>)
        requires
            old(self).ready(),
        ensures
            r is Some <==> solvable(old(self).board()),
            r matches Some(v) ==> valid_solution(digits_of(v@)) && consistent(digits_of(v@),
                old(self).board()),
            // Every hinted square keeps its digit.
            r matches Some(v) ==> forall|j: int|
                0 <= j < 81 && #[trigger] old(self).board()[j].len() == 1
                    ==> old(self).board()[j] == set![v@[j] as int],
            // A puzzle with a single solution gets that solution.
            forall|sol: Seq<int>|
                valid_solution(sol) && consistent(sol, old(self).board())
                    && (forall|other: Seq<int>|
                    valid_solution(other) && #[trigger] consistent(other, old(self).board())
                        ==> other == sol) ==> (r matches Some(v) && digits_of(v@) == sol),
    ;
}

/// The fixed squares among the first `n` squares of `board`, in row-major order.
pub open spec fn fixed_squares(board: Seq<Set<int>>, n: int) -> Seq<(i32, i32)>
    decreases n,
{
    if n <= 0 {
        Seq::empty()
    } else {
        let rest = fixed_squares(board, n - 1);
        if board[n - 1].len() == 1 {
            rest.push(coord_of(n - 1))
        } else {
            rest
        }
    }
}

impl<TGrid: Grid, TObserver: SolverObserver> SudokuSolver<TGrid, TObserver> {
    /// The grid that the solver works on.
    pub closed spec fn grid(&self) -> TGrid {
        self.grid
    }

    /// The observer that the solver reports its guesses to.
    pub closed spec fn observer(&self) -> TObserver {
        self.observer
    }

    /// A solver for the puzzle on `grid`. The squares that `grid` holds fixed
    /// already are queued for propagation, in row-major order.
    pub fn new(grid: TGrid, observer: TObserver) -> (r: SudokuSolver<TGrid, TObserver>)
        requires
            grid.board().len() == 81,
        ensures
            r.grid() == grid,
            r.observer() == observer,
            r.board() == grid.board(),
            r.queue() == fixed_squares(grid.board(), 81),
            board_ok(grid.board()) ==> r.ready(),
    {
        let mut cells_to_eliminate: Vec<(i32, i32)> = Vec::new();
        let mut y: i32 = 0;
        while y < 9
            invariant
                0 <= y <= 9,
                grid.board().len() == 81,
                cells_to_eliminate@ == fixed_squares(grid.board(), y * 9),
                queue_ok(grid.board(), cells_to_eliminate@, Set::empty()),
                forall|k: int| 0 <= k < cells_to_eliminate@.len()
                    ==> idx((#[trigger] cells_to_eliminate@[k]).0 as int,
                        cells_to_eliminate@[k].1 as int) < y * 9,
                forall|j: int| 0 <= j < y * 9 && (#[trigger] grid.board()[j]).len() == 1
                    ==> cells_to_eliminate@.contains(coord_of(j)),
            decreases 9 - y,
        {
            let mut x: i32 = 0;
            while x < 9
                invariant
                    0 <= x <= 9,
                    0 <= y < 9,
                    grid.board().len() == 81,
                    cells_to_eliminate@ == fixed_squares(grid.board(), y * 9 + x),
                    queue_ok(grid.board(), cells_to_eliminate@, Set::empty()),
                    forall|k: int| 0 <= k < cells_to_eliminate@.len()
                        ==> idx((#[trigger] cells_to_eliminate@[k]).0 as int,
                            cells_to_eliminate@[k].1 as int) < y * 9 + x,
                    forall|j: int| 0 <= j < y * 9 + x
                        && (#[trigger] grid.board()[j]).len() == 1
                            ==> cells_to_eliminate@.contains(coord_of(j)),
                decreases 9 - x,
            {
                let ghost before = cells_to_eliminate@;
                proof {
                    crate::grid::lemma_coords(x as int, y as int);
                }
                if grid.cell(x, y).num_possibles() == 1 {
                    cells_to_eliminate.push((x, y));
                    proof {
                        let q = cells_to_eliminate@;
                        assert(q[q.len() - 1] == (x, y));
                        assert forall|k1: int, k2: int| 0 <= k1 < q.len() && 0 <= k2 < q.len()
                            && k1 != k2 implies #[trigger] q[k1] != #[trigger] q[k2] by {
                            if k1 < before.len() && k2 < before.len() {
                                assert(q[k1] == before[k1] && q[k2] == before[k2]);
                            } else if k1 < before.len() {
                                assert(q[k1] == before[k1]);
                            } else if k2 < before.len() {
                                assert(q[k2] == before[k2]);
                            }
                        }
                        assert forall|j: int| 0 <= j < y * 9 + x + 1
                            && (#[trigger] grid.board()[j]).len() == 1
                                implies q.contains(coord_of(j)) by {
                            if j < y * 9 + x {
                                let k = choose|k: int| 0 <= k < before.len()
                                    && before[k] == coord_of(j);
                                assert(q[k] == before[k]);
                            }
                        }
                    }
                }
                x = x + 1;
            }
            y = y + 1;
        }
        SudokuSolver { grid, observer, cells_to_eliminate }
    }
}

impl<TGrid: Grid, TObserver: SolverObserver> Solver for SudokuSolver<TGrid, TObserver> {
    closed spec fn board(&self) -> Seq<Set<int>> {
        self.grid.board()
    }

    closed spec fn ready(&self) -> bool {
        state_ok(self.grid.board(), self.cells_to_eliminate@, Set::empty())
    }

    closed spec fn queue(&self) -> Seq<(i32, i32)> {
        self.cells_to_eliminate@
    }

    proof fn lemma_ready_board(&self) {
    }

    fn set_hint(&mut self, x: i32, y: i32, hint: i32) {
        proof {
            crate::grid::lemma_coords(x as int, y as int);
        }
        let ghost b = self.grid.board();
        let ghost q = self.cells_to_eliminate@;
        self.commit(x, y, hint);
        proof {
            lemma_hint(b, q, idx(x as int, y as int), hint as int, self.cells_to_eliminate@);
        }
    }

    fn solve(&mut self) -> (r: Option<Vec<i32>>) {
        let ghost root = self.grid.board();
        let mut solved_cells = new81();
        let mut state_stack: Vec<SolverState<TGrid>> = Vec::new();
        proof {
            assert(state_ok(self.grid.board(), self.cells_to_eliminate@, bits81(solved_cells))) by {
                assert(bits81(solved_cells) =~= Set::<int>::empty());
            }
        }
        while len81(&solved_cells) < 81
            invariant
                state_ok(self.grid.board(), self.cells_to_eliminate@, bits81(solved_cells)),
                below(self.grid.board(), root),
                root == old(self).grid.board(),
                board_ok(root),
                stack_ok(state_stack@, root),
                chain_ok(state_stack@),
                current_ok(self.grid.board(), state_stack@),
                forall|sol: Seq<int>|
                    valid_solution(sol) && #[trigger] consistent(sol, root) ==> consistent(sol,
                        self.grid.board())
                        || covered(sol, state_stack@),
            ensures
                bits81(solved_cells).len() >= 81,
            decreases measure(state_stack@, solved_cells, self.cells_to_eliminate@),
        {
            let ghost m0 = measure(state_stack@, solved_cells, self.cells_to_eliminate@);
            let ghost a0: int = bits81(solved_cells).len() + self.cells_to_eliminate@.len() as int;
            let ghost b0 = self.grid.board();
            match self.eliminate_all(solved_cells) {
                Ok(s) => {
                    solved_cells = s;
                },
                Err(_) => {
                    proof {
                        assert forall|sol: Seq<int>| valid_solution(sol)
                            && #[trigger] consistent(sol, root) implies covered(sol,
                                state_stack@) by {
                            if !covered(sol, state_stack@) {
                                assert(consistent(sol, b0));
                            }
                        }
                        lemma_weight_pos(a0);
                    }
                    if !self.backtrack_and_make_new_guess(&mut state_stack, &mut solved_cells,
                        Ghost(root)) {
                        return None;
                    }
                    continue;
                },
            }
            proof {
                assert forall|j: int| 0 <= j < 81
                    implies (#[trigger] self.grid.board()[j]).subset_of(root[j]) by {
                    assert(b0[j].subset_of(root[j]));
                }
                let b = self.grid.board();
                assert forall|k: int| 0 <= k < state_stack@.len() implies below(b, commit_of(
                    #[trigger] state_stack@[k],
                )) by {
                    assert(below(b0, commit_of(state_stack@[k])));
                    assert forall|j: int| 0 <= j < 81 implies (#[trigger] b[j]).subset_of(
                        commit_of(state_stack@[k])[j],
                    ) by {
                        assert(b0[j].subset_of(commit_of(state_stack@[k])[j]));
                    }
                }
            }
            if len81(&solved_cells) == 81 {
                break;
            }
            let ghost b1 = self.grid.board();
            let ghost s1 = bits81(solved_cells);
            proof {
                vstd::set_lib::lemma_int_range(0, 81);
                assert(!(s1 =~= vstd::set_lib::set_int_range(0, 81)));
                let j = choose|j: int| !(s1.contains(j) <==> vstd::set_lib::set_int_range(0,
                    81).contains(j));
                assert(0 <= j < 81 && !s1.contains(j));
                assert(b1[j].len() != 1);
                assert(b1[j].len() >= 2);
            }
            let guess = self.find_guess();
            let x = guess.x;
            let y = guess.y;
            let digit = guess.digit;
            let ghost c = idx(x as int, y as int);
            let state = SolverState {
                guess,
                grid: self.grid.snapshot(),
                cells_to_eliminate: copy_queue(&self.cells_to_eliminate),
                solved_cells,
            };
            let ghost st_before = state_stack@;
            state_stack.push(state);
            proof {
                vstd::set_lib::lemma_int_range(0, 81);
                vstd::set_lib::lemma_len_subset(s1, vstd::set_lib::set_int_range(0, 81));
                assert(!s1.contains(c));
                assert(state.grid.board() == b1);
                assert(entry_ok(state, root));
                let st = state_stack@;
                assert forall|k1: int, k2: int| 0 <= k1 < k2 < st.len() implies below(
                    (#[trigger] st[k2]).grid.board(),
                    commit_of(#[trigger] st[k1]),
                ) && square_of(st[k1].guess) != square_of(st[k2].guess) by {
                    assert(st[k1] == st_before[k1]);
                    if k2 < st_before.len() {
                        assert(st[k2] == st_before[k2]);
                    } else {
                        assert(below(b1, commit_of(st_before[k1])));
                        let g = st_before[k1].guess;
                        crate::grid::lemma_coords(g.x as int, g.y as int);
                        lemma_fixed_below(b1, commit_of(st_before[k1]), square_of(g),
                            g.digit as int);
                    }
                }
            }
            self.commit(x, y, digit);
            proof {
                let b2 = self.grid.board();
                let q2 = self.cells_to_eliminate@;
                let st = state_stack@;
                assert(q2 =~= seq![(x, y)]);
                crate::grid::lemma_coords(x as int, y as int);
                assert(b1[c].contains(digit as int));
                set![digit as int].lemma_singleton_size();
                lemma_narrow(b1, Seq::empty(), s1, c, set![digit as int], q2);
                assert forall|j: int| 0 <= j < 81 implies (#[trigger] b2[j]).subset_of(root[j]) by {
                    assert(b1[j].subset_of(root[j]));
                }
                assert forall|k: int| 0 <= k < st.len() implies entry_ok(#[trigger] st[k],
                    root) by {
                    if k < st_before.len() {
                        assert(st[k] == st_before[k]);
                    }
                }
                assert forall|sol: Seq<int>| valid_solution(sol) && #[trigger] consistent(sol,
                    root) implies consistent(sol, b2) || covered(sol, st) by {
                    if covered(sol, st_before) {
                        let k = choose|k: int| 0 <= k < st_before.len() && untried(sol,
                            #[trigger] st_before[k]);
                        assert(st[k] == st_before[k]);
                        assert(untried(sol, st[k]));
                    } else {
                        assert(consistent(sol, b1));
                        assert(b1[c].contains(sol[c]));
                        if sol[c] == digit {
                            assert forall|j: int| 0 <= j < 81
                                implies #[trigger] b2[j].contains(sol[j]) by {
                                assert(b1[j].contains(sol[j]));
                            }
                        } else {
                            assert(st[st.len() - 1] == state);
                            assert(untried(sol, st[st.len() - 1]));
                        }
                    }
                }
                // the measure
                let w = weight(s1.len() + 1int);
                lemma_potential_push(st_before, state);
                lemma_mul_le(state.guess.remaining_possibles@.len() as int, w as int, 8);
                lemma_weight(a0, s1.len() as int);
                assert(weight(s1.len() as int) == 10 * w);
            }
            self.show_guesses(&state_stack);
        }
        proof {
            let s = bits81(solved_cells);
            vstd::set_lib::lemma_int_range(0, 81);
            vstd::set_lib::lemma_len_subset(s, vstd::set_lib::set_int_range(0, 81));
            vstd::set_lib::lemma_subset_equality(s, vstd::set_lib::set_int_range(0, 81));
            assert forall|j: int| 0 <= j < 81 implies #[trigger] self.grid.board()[j].len()
                == 1 by {
                assert(s.contains(j));
            }
        }
        let r = self.grid.dump_solution();
        proof {
            let b = self.grid.board();
            assert(r is Some);
            let v = r.unwrap()@;
            let sol = digits_of(v);
            assert forall|j: int| 0 <= j < 81 implies #[trigger] b[j].contains(sol[j]) by {
                assert(b[j] == set![v[j] as int]);
            }
            assert forall|j: int| 0 <= j < 81 implies 1 <= #[trigger] sol[j] <= 9 by {
                assert(b[j].contains(sol[j]));
                assert(all_digits().contains(sol[j]));
            }
            assert forall|j: int, p: int| #[trigger] peers(j, p) implies sol[j] != sol[p] by {
                assert(bits81(solved_cells).contains(j));
                assert(b[j].disjoint(b[p]));
                assert(b[j].contains(sol[j]) && b[p].contains(sol[p]));
            }
            assert(valid_solution(sol));
            assert forall|j: int| 0 <= j < 81 implies #[trigger] root[j].contains(sol[j]) by {
                assert(b[j].contains(sol[j]));
            }
            assert(consistent(sol, root));
            assert forall|j: int| 0 <= j < 81
                && #[trigger] root[j].len() == 1 implies root[j] == set![v[j] as int] by {
                Set::lemma_is_singleton(root[j]);
                assert(root[j].contains(sol[j]));
                assert(root[j] =~= set![sol[j]]);
            }
        }
        r
    }
}

} // verus!
