//! Fixed-size bit sets backed by the `bitmaps` crate.
//!
//! Verus cannot be told about `bitmaps::Bitmap` directly (its size bound goes
//! through a trait of that crate), so each size used here is held in a small
//! opaque struct. What a map holds is named by `bits9` / `bits81`; the wrappers
//! below state what each `Bitmap` method does to that set.

use bitmaps::Bitmap;
use vstd::prelude::*;

verus! {

/// A `bitmaps::Bitmap<9>`: nine positions, one per Sudoku digit. Opaque to
/// Verus; what it holds is `bits9`.
#[verifier::external_body]
#[derive(Copy)]
pub struct Bitmap9 {
    bits: Bitmap<9>,
}

/// A `bitmaps::Bitmap<81>`: one position per square of the board. Opaque to
/// Verus; what it holds is `bits81`.
#[verifier::external_body]
#[derive(Copy)]
pub struct Bitmap81 {
    bits: Bitmap<81>,
}

impl Clone for Bitmap9 {
    fn clone(&self) -> (r: Self)
        ensures
            r == *self,
    {
        *self
    }
}

impl Clone for Bitmap81 {
    fn clone(&self) -> (r: Self)
        ensures
            r == *self,
    {
        *self
    }
}

/// The indices whose bit is set in a nine-bit map.
pub uninterp spec fn bits9(b: Bitmap9) -> Set<int>;

/// The indices whose bit is set in an 81-bit map.
pub uninterp spec fn bits81(b: Bitmap81) -> Set<int>;

/// Relies on `Bitmap::<9>::mask`: exactly the bits below `n` are set.
#[verifier::external_body]
pub(crate) fn mask9(n: usize) -> (r: Bitmap9)
    requires
        n <= 9,
    ensures
        bits9(r) == vstd::set_lib::set_int_range(0, n as int),
{
    Bitmap9 { bits: Bitmap::mask(n) }
}

/// Relies on `Bitmap::<9>::get`: whether bit `i` is set.
#[verifier::external_body]
pub(crate) fn get9(b: &Bitmap9, i: usize) -> (r: bool)
    requires
        i < 9,
    ensures
        r == bits9(*b).contains(i as int),
{
    b.bits.get(i)
}

/// Relies on `Bitmap::<9>::set`: bit `i` takes `value`, the others stay;
/// the previous value of bit `i` is returned.
#[verifier::external_body]
pub(crate) fn set9(b: &mut Bitmap9, i: usize, value: bool) -> (r: bool)
    requires
        i < 9,
    ensures
        r == bits9(*old(b)).contains(i as int),
        bits9(*final(b)) == (if value {
            bits9(*old(b)).insert(i as int)
        } else {
            bits9(*old(b)).remove(i as int)
        }),
{
    b.bits.set(i, value)
}

/// Relies on `Bitmap::<9>::len`: the number of set bits.
#[verifier::external_body]
pub(crate) fn len9(b: &Bitmap9) -> (r: usize)
    ensures
        r == bits9(*b).len(),
{
    b.bits.len()
}

/// Relies on `Bitmap::<9>::first_index`: the lowest set bit, if any.
#[verifier::external_body]
pub(crate) fn first_index9(b: &Bitmap9) -> (r: Option<usize>)
    ensures
        r.is_none() <==> bits9(*b) == Set::<int>::empty(),
        r matches Some(i) ==> bits9(*b).contains(i as int) && (forall|j: int|
            #[trigger] bits9(*b).contains(j) ==> i <= j),
{
    b.bits.first_index()
}

/// Relies on `Bitmap::<81>::new`: no bit is set.
#[verifier::external_body]
pub(crate) fn new81() -> (r: Bitmap81)
    ensures
        bits81(r) == Set::<int>::empty(),
{
    Bitmap81 { bits: Bitmap::new() }
}

/// Relies on `Bitmap::<81>::get`: whether bit `i` is set.
#[verifier::external_body]
pub(crate) fn get81(b: &Bitmap81, i: usize) -> (r: bool)
    requires
        i < 81,
    ensures
        r == bits81(*b).contains(i as int),
{
    b.bits.get(i)
}

/// Relies on `Bitmap::<81>::set`: bit `i` takes `value`, the others stay;
/// the previous value of bit `i` is returned.
#[verifier::external_body]
pub(crate) fn set81(b: &mut Bitmap81, i: usize, value: bool) -> (r: bool)
    requires
        i < 81,
    ensures
        r == bits81(*old(b)).contains(i as int),
        bits81(*final(b)) == (if value {
            bits81(*old(b)).insert(i as int)
        } else {
            bits81(*old(b)).remove(i as int)
        }),
{
    b.bits.set(i, value)
}

/// Relies on `Bitmap::<81>::len`: the number of set bits.
#[verifier::external_body]
pub(crate) fn len81(b: &Bitmap81) -> (r: usize)
    ensures
        r == bits81(*b).len(),
{
    b.bits.len()
}

} // verus!
