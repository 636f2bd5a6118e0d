//! One square of the board: the set of digits it may still hold.

use crate::bits::{bits9, first_index9, get9, len9, mask9, set9, Bitmap9};
use vstd::prelude::*;
use vstd::set_lib::set_int_range;

verus! {

/// Returned when an elimination leaves a square without any candidate.
#[derive(Debug)]
pub struct EliminationError {}

/// The Sudoku digits, 1 to 9.
pub open spec fn all_digits() -> Set<int> {
    set_int_range(1, 10)
}

/// The candidate digits of one square, held as a nine-bit map
/// (bit `i` stands for digit `i + 1`).
#[derive(Clone, Copy)]
pub struct Cell {
    possibles: Bitmap9,
}

impl View for Cell {
    type V = Set<int>;

    /// The candidate digits.
    closed spec fn view(&self) -> Set<int> {
        Set::new(|d: int| 1 <= d <= 9 && bits9(self.possibles).contains(d - 1))
    }
}

impl Cell {
    #[verifier::type_invariant]
    spec fn inv(self) -> bool {
        bits9(self.possibles).subset_of(set_int_range(0, 9))
    }

    /// Every candidate set is a finite set of digits.
    pub proof fn lemma_view_digits(self)
        ensures
            self@.finite(),
            self@.subset_of(all_digits()),
            self@.len() <= 9,
    {
        vstd::set_lib::lemma_int_range(1, 10);
        vstd::set_lib::lemma_len_subset(self@, all_digits());
    }

    /// Under the invariant, the candidates count as many as the set bits.
    proof fn lemma_len(self)
        requires
            self.inv(),
        ensures
            self@.len() == bits9(self.possibles).len(),
    {
        let b = bits9(self.possibles);
        vstd::set_lib::lemma_int_range(0, 9);
        vstd::set_lib::lemma_len_subset(b, set_int_range(0, 9));
        let f = |i: int| i + 1;
        assert(b.map(f) =~= self@) by {
            assert forall|d: int| self@.contains(d) implies b.map(f).contains(d) by {
                assert(b.contains(d - 1) && f(d - 1) == d);
            }
        }
        vstd::set_lib::lemma_map_size(b, self@, f);
    }

    /// A square that may hold any digit.
    pub fn new() -> (r: Cell)
        ensures
            r@ == all_digits(),
    {
        let r = Cell { possibles: mask9(9) };
        assert(r@ =~= all_digits());
        r
    }

    /// Fixes the square to `hint`, whatever it held before.
    pub fn set_hint(self: &mut Cell, hint: i32)
        requires
            1 <= hint <= 9,
        ensures
            final(self)@ == set![hint as int],
    {
        let mut p = mask9(0);
        set9(&mut p, (hint - 1) as usize, true);
        assert(bits9(p) =~= set![hint as int - 1]);
        *self = Cell { possibles: p };
        assert(self@ =~= set![hint as int]);
    }

    /// Removes `digit` from the candidates; fails when none is left.
    pub fn eliminate_possible(self: &mut Cell, digit: i32) -> (r: Result<(), EliminationError>)
        requires
            1 <= digit <= 9,
        ensures
            final(self)@ == old(self)@.remove(digit as int),
            r is Err <==> final(self)@ == Set::<int>::empty(),
            // Eliminating a digit that is not a candidate changes nothing.
            !old(self)@.contains(digit as int) && old(self)@ != Set::<int>::empty() ==> r is Ok
                && final(self)@ == old(self)@,
            // Eliminating the only candidate is a contradiction.
            old(self)@ == set![digit as int] ==> r is Err,
    {
        proof {
            use_type_invariant(&*self);
        }
        let mut p = self.possibles;
        set9(&mut p, (digit - 1) as usize, false);
        *self = Cell { possibles: p };
        assert(self@ =~= old(self)@.remove(digit as int));
        assert(!old(self)@.contains(digit as int) ==> old(self)@.remove(digit as int)
            =~= old(self)@);
        assert(old(self)@ == set![digit as int] ==> self@ =~= Set::<int>::empty());
        proof {
            self.lemma_len();
            self.lemma_view_digits();
            if self@.len() == 0 {
                self@.lemma_len0_is_empty();
            }
        }
        if len9(&self.possibles) == 0 {
            Err(EliminationError {})
        } else {
            Ok(())
        }
    }

    /// The number of candidates.
    pub fn num_possibles(&self) -> (r: usize)
        ensures
            r == self@.len(),
    {
        proof {
            use_type_invariant(self);
            self.lemma_len();
        }
        len9(&self.possibles)
    }

    /// The smallest candidate, if there is one.
    pub fn first_possible(&self) -> (r: Option<i32>)
        ensures
            r is None <==> self@ == Set::<int>::empty(),
            r matches Some(d) ==> self@.contains(d as int) && (forall|e: int|
                #[trigger] self@.contains(e) ==> d <= e),
    {
        proof {
            use_type_invariant(self);
        }
        match first_index9(&self.possibles) {
            Some(i) => {
                assert(i < 9);
                assert forall|e: int| #[trigger] self@.contains(e) implies i + 1 <= e by {
                    assert(bits9(self.possibles).contains(e - 1));
                }
                assert(self@.contains(i + 1));
                Some((i + 1) as i32)
            },
            None => {
                assert(self@ =~= Set::<int>::empty());
                None
            },
        }
    }

    /// The candidates other than `except`, in ascending order.
    pub fn possibles_except(&self, except: i32) -> (r: Vec<i32>)
        ensures
            forall|k: int| 0 <= k < r.len() ==> self@.contains(#[trigger] r@[k] as int) && r@[k]
                != except,
            forall|d: int| self@.contains(d) && d != except ==> r@.contains(d as i32),
            forall|j: int, k: int| 0 <= j < k < r.len() ==> r@[j] < r@[k],
            r.len() <= 9,
            self@.contains(except as int) ==> r.len() <= 8,
    {
        let mut r: Vec<i32> = Vec::new();
        let mut i: usize = 0;
        while i < 9
            invariant
                i <= 9,
                forall|k: int| 0 <= k < r.len() ==> self@.contains(#[trigger] r@[k] as int)
                    && r@[k] != except && r@[k] <= i,
                forall|d: int|
                    1 <= d <= i && self@.contains(d) && d != except ==> r@.contains(d as i32),
                forall|j: int, k: int| 0 <= j < k < r.len() ==> r@[j] < r@[k],
                r.len() + (if 1 <= except <= i && self@.contains(except as int) {
                    1int
                } else {
                    0int
                }) <= i,
            decreases 9 - i,
        {
            let digit: i32 = (i + 1) as i32;
            let ghost before = r@;
            if get9(&self.possibles, i) && digit != except {
                r.push(digit);
            }
            assert forall|d: int|
                1 <= d <= i + 1 && self@.contains(d) && d != except implies r@.contains(
                d as i32,
            ) by {
                if d == i + 1 {
                    assert(r@[r.len() - 1] == digit);
                } else {
                    assert(before.contains(d as i32));
                    let k = choose|k: int| 0 <= k < before.len() && before[k] == d as i32;
                    assert(r@[k] == d as i32);
                }
            }
            i = i + 1;
        }
        proof {
            self.lemma_view_digits();
        }
        r
    }

    /// Whether `digit` is still a candidate.
    pub fn is_possible(&self, digit: i32) -> (r: bool)
        requires
            1 <= digit <= 9,
        ensures
            r == self@.contains(digit as int),
    {
        get9(&self.possibles, (digit - 1) as usize)
    }
}

} // verus!
