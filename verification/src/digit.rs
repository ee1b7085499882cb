//! The digits 1 through 9 that fill a sudoku grid.

use vstd::prelude::*;
use crate::bitset::DigitSet;

verus! {

/// One of the nine sudoku digits, `1..=9`.
#[derive(Clone, Copy, PartialEq, Eq, Structural, Debug, Hash)]
pub struct Digit(u8);

impl Digit {
    /// The digit's value, as a mathematical integer.
    pub closed spec fn idx(self) -> int {
        self.0 as int
    }

    /// A valid digit holds a value in `1..=9`.
    pub open spec fn wf(self) -> bool {
        1 <= self.idx() && self.idx() <= 9
    }

    /// Construct a digit from its value. Values outside `1..=9` are a
    /// programming error.
    pub fn new(num: u8) -> (r: Digit)
        requires
            1 <= num <= 9,
        ensures
            r.wf(),
            r.idx() == num,
    {
        Digit(num)
    }

    /// Construct a digit from its value, or `None` if the value is outside
    /// `1..=9`.
    pub fn new_checked(num: u8) -> (r: Option<Digit>)
        ensures
            1 <= num <= 9 <==> r is Some,
            r is Some ==> r->0.wf() && r->0.idx() == num,
    {
        if 1 <= num && num <= 9 {
            Some(Digit(num))
        } else {
            None
        }
    }

    /// The digit's value, `1..=9`.
    pub fn get(self) -> (r: u8)
        ensures
            r == self.idx(),
    {
        self.0
    }

    /// The digit's zero-based index, `0..=8`.
    pub fn as_index(self) -> (r: usize)
        requires
            self.wf(),
        ensures
            r == self.idx() - 1,
    {
        (self.0 - 1) as usize
    }

    /// Digits with the same value are the same digit.
    pub proof fn lemma_digit_eq(a: Digit, b: Digit)
        requires
            a.idx() == b.idx(),
        ensures
            a == b,
    {
    }

    /// The set holding exactly this digit.
    pub fn as_set(self) -> (r: DigitSet)
        requires
            self.wf(),
        ensures
            forall|d: int| r@.contains(d) <==> d == self.idx(),
    {
        DigitSet::empty().insert(self)
    }
}

} // verus!
