//! The text form of a solution.

use crate::solver::digits_of;
use vstd::prelude::*;

verus! {

/// The line that a solution is written as: one ASCII digit per square, in
/// row-major order, then a newline.
pub open spec fn solution_text(sol: Seq<int>) -> Seq<u8> {
    Seq::new(sol.len(), |k: int| (sol[k] + 48) as u8).push(10u8)
}

/// The line that `solution` is written as.
pub fn solution_line(solution: &Vec<i32>) -> (r: Vec<u8>)
    requires
        forall|k: int| 0 <= k < solution.len() ==> 1 <= #[trigger] solution@[k] <= 9,
    ensures
        r@ == solution_text(digits_of(solution@)),
{
    let mut r: Vec<u8> = Vec::new();
    let mut k: usize = 0;
    while k < solution.len()
        invariant
            k <= solution.len(),
            forall|m: int| 0 <= m < solution.len() ==> 1 <= #[trigger] solution@[m] <= 9,
            r@ == Seq::new(k as nat, |m: int| (solution@[m] + 48) as u8),
        decreases solution.len() - k,
    {
        let d = solution[k];
        r.push((d + 48) as u8);
        assert(r@ =~= Seq::new((k + 1) as nat, |m: int| (solution@[m] + 48) as u8));
        k = k + 1;
    }
    r.push(10u8);
    assert(r@ =~= solution_text(digits_of(solution@)));
    r
}

} // verus!
