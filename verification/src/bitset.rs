//! Fixed-width bit-set primitives.
//!
//! A set of cells is a mask of 81 bits, a set of digits a mask of 9 bits and
//! a set of positions within a 9-cell grouping a mask of 9 bits. Union,
//! intersection, difference and membership are single bitwise operations;
//! every set is a plain value that is copied freely.

use vstd::prelude::*;
use vstd::set_lib::lemma_int_range;
use vstd::set_lib::lemma_len_subset;
use vstd::set_lib::set_int_range;
use crate::digit::Digit;
use crate::positions::Cell;
use crate::positions::Line;
use crate::positions::Position;

verus! {

/// True iff bit `i` of `b` is set.
pub open spec fn bit128(b: u128, i: u128) -> bool {
    (b >> i) & 1 == 1
}

/// True iff bit `i` of `b` is set.
pub open spec fn bit16(b: u16, i: u16) -> bool {
    (b >> i) & 1 == 1
}

/// The cells an 81-bit mask holds.
pub open spec fn mask_view(bits: u128) -> Set<int> {
    Set::new(|i: int| 0 <= i < 81 && bit128(bits, i as u128))
}

/// The digits a 9-bit mask holds (bit `d - 1` stands for digit `d`).
pub open spec fn digit_mask_view(bits: u16) -> Set<int> {
    Set::new(|d: int| 1 <= d <= 9 && bit16(bits, (d - 1) as u16))
}

/// The positions a 9-bit mask holds.
pub open spec fn pos_mask_view(bits: u16) -> Set<int> {
    Set::new(|p: int| 0 <= p < 9 && bit16(bits, p as u16))
}

/// The whole domain of cell indices.
pub open spec fn cell_domain() -> Set<int> {
    set_int_range(0, 81)
}

/// The whole domain of digits.
pub open spec fn digit_domain() -> Set<int> {
    set_int_range(1, 10)
}

pub proof fn lemma_bit128_zero()
    by (bit_vector)
    ensures
        forall|i: u128| i < 128 ==> !(#[trigger] bit128(0u128, i)),
{
}

pub proof fn lemma_bit128_single(c: u128)
    by (bit_vector)
    requires
        c < 128,
    ensures
        forall|i: u128| i < 128 ==> (#[trigger] bit128(1u128 << c, i) <==> i == c),
{
}

pub proof fn lemma_bit128_or(a: u128, b: u128)
    by (bit_vector)
    ensures
        forall|i: u128|
            i < 128 ==> (#[trigger] bit128(a | b, i) <==> bit128(a, i) || bit128(b, i)),
{
}

pub proof fn lemma_bit128_and(a: u128, b: u128)
    by (bit_vector)
    ensures
        forall|i: u128|
            i < 128 ==> (#[trigger] bit128(a & b, i) <==> bit128(a, i) && bit128(b, i)),
{
}

pub proof fn lemma_bit128_xor(a: u128, b: u128)
    by (bit_vector)
    ensures
        forall|i: u128|
            i < 128 ==> (#[trigger] bit128(a ^ b, i) <==> (bit128(a, i) != bit128(b, i))),
{
}

pub proof fn lemma_bit128_andnot(a: u128, b: u128)
    by (bit_vector)
    ensures
        forall|i: u128|
            i < 128 ==> (#[trigger] bit128(a & !b, i) <==> bit128(a, i) && !bit128(b, i)),
{
}

pub proof fn lemma_bit128_all81()
    by (bit_vector)
    ensures
        forall|i: u128|
            i < 128 ==> (#[trigger] bit128(0x1_ffff_ffff_ffff_ffff_ffffu128, i) <==> i < 81),
{
}

pub proof fn lemma_bit16_zero()
    by (bit_vector)
    ensures
        forall|i: u16| i < 16 ==> !(#[trigger] bit16(0u16, i)),
{
}

pub proof fn lemma_bit16_single(c: u16)
    by (bit_vector)
    requires
        c < 16,
    ensures
        forall|i: u16| i < 16 ==> (#[trigger] bit16(1u16 << c, i) <==> i == c),
{
}

pub proof fn lemma_bit16_or(a: u16, b: u16)
    by (bit_vector)
    ensures
        forall|i: u16| i < 16 ==> (#[trigger] bit16(a | b, i) <==> bit16(a, i) || bit16(b, i)),
{
}

pub proof fn lemma_bit16_and(a: u16, b: u16)
    by (bit_vector)
    ensures
        forall|i: u16| i < 16 ==> (#[trigger] bit16(a & b, i) <==> bit16(a, i) && bit16(b, i)),
{
}

pub proof fn lemma_bit16_andnot(a: u16, b: u16)
    by (bit_vector)
    ensures
        forall|i: u16|
            i < 16 ==> (#[trigger] bit16(a & !b, i) <==> bit16(a, i) && !bit16(b, i)),
{
}

pub proof fn lemma_bit16_xor(a: u16, b: u16)
    by (bit_vector)
    ensures
        forall|i: u16| i < 16 ==> (#[trigger] bit16(a ^ b, i) <==> (bit16(a, i) != bit16(b, i))),
{
}

pub proof fn lemma_bit16_all9()
    by (bit_vector)
    ensures
        forall|i: u16| i < 16 ==> (#[trigger] bit16(0x1ffu16, i) <==> i < 9),
{
}

/// A set of cells of the grid, stored as an 81-bit mask.
#[derive(Clone, Copy, Debug)]
pub struct CellSet {
    bits: u128,
}

/// What a digit set holds always lies in `1..=9`.
pub proof fn lemma_digit_set_view_bounds(s: DigitSet)
    ensures
        forall|d: int| #[trigger] s@.contains(d) ==> 1 <= d <= 9,
{
}

/// What a position set holds always lies in `0..9`.
pub proof fn lemma_position_set_view_bounds<IN>(s: PositionSet<IN>)
    ensures
        forall|p: int| #[trigger] s@.contains(p) ==> 0 <= p < 9,
{
}

/// A finite set of size one holding `d` is exactly the singleton of `d`.
pub proof fn lemma_singleton_view(s: Set<int>, d: int)
    requires
        s.finite(),
        s.len() == 1,
        s.contains(d),
    ensures
        s == Set::<int>::empty().insert(d),
{
    broadcast use vstd::set::group_set_axioms;

    assert(s.remove(d).len() == 0);
    s.remove(d).lemma_len0_is_empty();
    assert forall|x: int| s.contains(x) implies x == d by {
        if x != d {
            assert(s.remove(d).contains(x));
        }
    }
    assert(s =~= Set::<int>::empty().insert(d));
}

/// Every cell set is a finite subset of the 81 cell indices.
pub proof fn lemma_cell_set_finite(s: Set<int>)
    requires
        forall|i: int| s.contains(i) ==> 0 <= i < 81,
    ensures
        s.finite(),
        s.len() <= 81,
{
    lemma_int_range(0, 81);
    lemma_len_subset(s, set_int_range(0, 81));
}

/// Every digit set is a finite subset of the 9 digits.
pub proof fn lemma_digit_set_finite(s: Set<int>)
    requires
        forall|d: int| s.contains(d) ==> 1 <= d <= 9,
    ensures
        s.finite(),
        s.len() <= 9,
{
    lemma_int_range(1, 10);
    lemma_len_subset(s, set_int_range(1, 10));
}

impl View for CellSet {
    type V = Set<int>;

    closed spec fn view(&self) -> Set<int> {
        mask_view(self.bits)
    }
}

impl CellSet {
    /// The set with no cells.
    pub fn empty() -> (r: CellSet)
        ensures
            r@ == Set::<int>::empty(),
    {
        proof {
            lemma_bit128_zero();
            assert(mask_view(0u128) =~= Set::<int>::empty());
        }
        CellSet { bits: 0 }
    }

    /// The set of all 81 cells.
    pub fn full() -> (r: CellSet)
        ensures
            r@ == cell_domain(),
    {
        proof {
            lemma_bit128_all81();
            assert(mask_view(0x1_ffff_ffff_ffff_ffff_ffffu128) =~= cell_domain());
        }
        CellSet { bits: 0x1_ffff_ffff_ffff_ffff_ffff }
    }

    /// Build a cell set from a raw 81-bit mask.
    pub(crate) fn from_bits(bits: u128) -> (r: CellSet)
        ensures
            r@ == mask_view(bits),
    {
        CellSet { bits }
    }

    /// The set holding exactly the given cell.
    pub fn singleton(c: Cell) -> (r: CellSet)
        requires
            c.wf(),
        ensures
            r@ == Set::<int>::empty().insert(c.idx()),
    {
        let bits: u128 = 1u128 << (c.get() as u128);
        proof {
            lemma_bit128_single(c.idx() as u128);
            assert(mask_view(bits) =~= Set::<int>::empty().insert(c.idx()));
        }
        CellSet { bits }
    }

    /// Membership test for a cell.
    pub fn contains(self, c: Cell) -> (r: bool)
        requires
            c.wf(),
        ensures
            r == self@.contains(c.idx()),
    {
        (self.bits >> (c.get() as u128)) & 1 == 1
    }

    /// Membership test by raw cell index.
    pub fn contains_index(self, i: u8) -> (r: bool)
        requires
            i < 81,
        ensures
            r == self@.contains(i as int),
    {
        (self.bits >> (i as u128)) & 1 == 1
    }

    /// Union of two cell sets.
    pub fn union(self, other: CellSet) -> (r: CellSet)
        ensures
            r@ == self@.union(other@),
    {
        proof {
            lemma_bit128_or(self.bits, other.bits);
            assert(mask_view(self.bits | other.bits) =~= mask_view(self.bits).union(
                mask_view(other.bits),
            ));
        }
        CellSet { bits: self.bits | other.bits }
    }

    /// Intersection of two cell sets.
    pub fn intersect(self, other: CellSet) -> (r: CellSet)
        ensures
            r@ == self@.intersect(other@),
    {
        proof {
            lemma_bit128_and(self.bits, other.bits);
            assert(mask_view(self.bits & other.bits) =~= mask_view(self.bits).intersect(
                mask_view(other.bits),
            ));
        }
        CellSet { bits: self.bits & other.bits }
    }

    /// The cells of `self` that are not in `other`.
    pub fn difference(self, other: CellSet) -> (r: CellSet)
        ensures
            r@ == self@.difference(other@),
    {
        proof {
            lemma_bit128_andnot(self.bits, other.bits);
            assert(mask_view(self.bits & !other.bits) =~= mask_view(self.bits).difference(
                mask_view(other.bits),
            ));
        }
        CellSet { bits: self.bits & !other.bits }
    }

    /// The cells in exactly one of the two sets.
    pub fn symmetric_difference(self, other: CellSet) -> (r: CellSet)
        ensures
            r@ == self@.difference(other@).union(other@.difference(self@)),
    {
        proof {
            lemma_bit128_xor(self.bits, other.bits);
            assert(mask_view(self.bits ^ other.bits) =~= mask_view(self.bits).difference(
                mask_view(other.bits),
            ).union(mask_view(other.bits).difference(mask_view(self.bits))));
        }
        CellSet { bits: self.bits ^ other.bits }
    }

    /// The cells of the grid not in this set.
    pub fn complement(self) -> (r: CellSet)
        ensures
            r@ == cell_domain().difference(self@),
    {
        proof {
            lemma_bit128_all81();
            lemma_bit128_andnot(0x1_ffff_ffff_ffff_ffff_ffffu128, self.bits);
            assert(mask_view(0x1_ffff_ffff_ffff_ffff_ffffu128 & !self.bits)
                =~= cell_domain().difference(mask_view(self.bits)));
        }
        CellSet { bits: 0x1_ffff_ffff_ffff_ffff_ffff & !self.bits }
    }

    /// True iff the set has no cells.
    pub fn is_empty(self) -> (r: bool)
        ensures
            r == (self@ == Set::<int>::empty()),
    {
        let n = self.count();
        proof {
            broadcast use vstd::set::group_set_axioms;

            lemma_cell_set_finite(self@);
            if n == 0 {
                self@.lemma_len0_is_empty();
            }
        }
        n == 0
    }

    /// How many cells the set holds.
    pub fn count(self) -> (n: u8)
        ensures
            n == self@.len(),
    {
        let mut n: u8 = 0;
        proof {
            broadcast use vstd::set::group_set_axioms;

            assert(self@.intersect(set_int_range(0, 0)) =~= Set::<int>::empty());
        }
        for i in 0..81u8
            invariant
                n <= i,
                n == self@.intersect(set_int_range(0, i as int)).len(),
                self@.intersect(set_int_range(0, i as int)).finite(),
        {
            proof {
                broadcast use vstd::set::group_set_axioms;

                let s0 = self@.intersect(set_int_range(0, i as int));
                let s1 = self@.intersect(set_int_range(0, i as int + 1));
                if self@.contains(i as int) {
                    assert(s1 =~= s0.insert(i as int));
                } else {
                    assert(s1 =~= s0);
                }
            }
            if self.contains_index(i) {
                n = n + 1;
            }
        }
        proof {
            assert(self@.intersect(set_int_range(0, 81)) =~= self@);
        }
        n
    }

    /// The cells of the set, in ascending index order.
    pub fn items(self) -> (v: Vec<Cell>)
        ensures
            v@.len() == self@.len(),
            forall|k: int|
                0 <= k < v@.len() ==> (#[trigger] v@[k]).wf() && self@.contains(v@[k].idx()),
            forall|k1: int, k2: int| 0 <= k1 < k2 < v@.len() ==> v@[k1].idx() < v@[k2].idx(),
            forall|i: int|
                #[trigger] self@.contains(i) ==> exists|k: int| 0 <= k < v@.len() && v@[k].idx() == i,
    {
        let mut v: Vec<Cell> = Vec::new();
        proof {
            broadcast use vstd::set::group_set_axioms;

            assert(self@.intersect(set_int_range(0, 0)) =~= Set::<int>::empty());
        }
        for i in 0..81u8
            invariant
                v@.len() == self@.intersect(set_int_range(0, i as int)).len(),
                self@.intersect(set_int_range(0, i as int)).finite(),
                forall|k: int|
                    0 <= k < v@.len() ==> (#[trigger] v@[k]).wf() && self@.contains(v@[k].idx())
                        && v@[k].idx() < i,
                forall|k1: int, k2: int| 0 <= k1 < k2 < v@.len() ==> v@[k1].idx() < v@[k2].idx(),
                forall|j: int|
                    0 <= j < i && #[trigger] self@.contains(j) ==> exists|k: int|
                        0 <= k < v@.len() && v@[k].idx() == j,
        {
            proof {
                broadcast use vstd::set::group_set_axioms;

                let s0 = self@.intersect(set_int_range(0, i as int));
                let s1 = self@.intersect(set_int_range(0, i as int + 1));
                if self@.contains(i as int) {
                    assert(s1 =~= s0.insert(i as int));
                } else {
                    assert(s1 =~= s0);
                }
            }
            if self.contains_index(i) {
                let ghost old_v = v@;
                v.push(Cell::new(i));
                proof {
                    assert forall|j: int|
                        0 <= j < i as int + 1 && #[trigger] self@.contains(j) implies exists|
                        k: int,
                    | 0 <= k < v@.len() && v@[k].idx() == j by {
                        if j < i as int {
                            let k = choose|k: int| 0 <= k < old_v.len() && old_v[k].idx() == j;
                            assert(v@[k].idx() == j);
                        } else {
                            assert(v@[old_v.len() as int].idx() == j);
                        }
                    }
                }
            } else {
                proof {
                    assert forall|j: int|
                        0 <= j < i as int + 1 && #[trigger] self@.contains(j) implies exists|
                        k: int,
                    | 0 <= k < v@.len() && v@[k].idx() == j by {
                        if j == i as int {
                            assert(!self@.contains(i as int));
                        }
                    }
                }
            }
        }
        proof {
            assert(self@.intersect(set_int_range(0, 81)) =~= self@);
        }
        v
    }
}

/// A set of digits, stored as a 9-bit mask.
#[derive(Clone, Copy, Debug)]
pub struct DigitSet {
    bits: u16,
}

impl View for DigitSet {
    type V = Set<int>;

    closed spec fn view(&self) -> Set<int> {
        digit_mask_view(self.bits)
    }
}

impl DigitSet {
    /// The set with no digits.
    pub fn empty() -> (r: DigitSet)
        ensures
            r@ == Set::<int>::empty(),
    {
        proof {
            lemma_bit16_zero();
            assert(digit_mask_view(0u16) =~= Set::<int>::empty());
        }
        DigitSet { bits: 0 }
    }

    /// The set of all nine digits.
    pub fn full() -> (r: DigitSet)
        ensures
            r@ == digit_domain(),
    {
        proof {
            lemma_bit16_all9();
            assert(digit_mask_view(0x1ffu16) =~= digit_domain());
        }
        DigitSet { bits: 0x1ff }
    }

    /// Membership test for a digit.
    pub fn contains(self, d: Digit) -> (r: bool)
        requires
            d.wf(),
        ensures
            r == self@.contains(d.idx()),
    {
        (self.bits >> ((d.get() - 1) as u16)) & 1 == 1
    }

    /// The set with the given digit added.
    pub fn insert(self, d: Digit) -> (r: DigitSet)
        requires
            d.wf(),
        ensures
            r@ == self@.insert(d.idx()),
    {
        let bits: u16 = self.bits | (1u16 << ((d.get() - 1) as u16));
        proof {
            lemma_bit16_or(self.bits, 1u16 << ((d.idx() - 1) as u16));
            lemma_bit16_single((d.idx() - 1) as u16);
            assert(digit_mask_view(bits) =~= digit_mask_view(self.bits).insert(d.idx()));
        }
        DigitSet { bits }
    }

    /// The set with the given digit removed.
    pub fn remove(self, d: Digit) -> (r: DigitSet)
        requires
            d.wf(),
        ensures
            r@ == self@.remove(d.idx()),
    {
        let bits: u16 = self.bits & !(1u16 << ((d.get() - 1) as u16));
        proof {
            lemma_bit16_andnot(self.bits, 1u16 << ((d.idx() - 1) as u16));
            lemma_bit16_single((d.idx() - 1) as u16);
            assert(digit_mask_view(bits) =~= digit_mask_view(self.bits).remove(d.idx()));
        }
        DigitSet { bits }
    }

    /// Union of two digit sets.
    pub fn union(self, other: DigitSet) -> (r: DigitSet)
        ensures
            r@ == self@.union(other@),
    {
        proof {
            lemma_bit16_or(self.bits, other.bits);
            assert(digit_mask_view(self.bits | other.bits) =~= digit_mask_view(self.bits).union(
                digit_mask_view(other.bits),
            ));
        }
        DigitSet { bits: self.bits | other.bits }
    }

    /// Intersection of two digit sets.
    pub fn intersect(self, other: DigitSet) -> (r: DigitSet)
        ensures
            r@ == self@.intersect(other@),
    {
        proof {
            lemma_bit16_and(self.bits, other.bits);
            assert(digit_mask_view(self.bits & other.bits) =~= digit_mask_view(
                self.bits,
            ).intersect(digit_mask_view(other.bits)));
        }
        DigitSet { bits: self.bits & other.bits }
    }

    /// The digits of `self` that are not in `other`.
    pub fn difference(self, other: DigitSet) -> (r: DigitSet)
        ensures
            r@ == self@.difference(other@),
    {
        proof {
            lemma_bit16_andnot(self.bits, other.bits);
            assert(digit_mask_view(self.bits & !other.bits) =~= digit_mask_view(
                self.bits,
            ).difference(digit_mask_view(other.bits)));
        }
        DigitSet { bits: self.bits & !other.bits }
    }

    /// The digits in exactly one of the two sets.
    pub fn symmetric_difference(self, other: DigitSet) -> (r: DigitSet)
        ensures
            r@ == self@.difference(other@).union(other@.difference(self@)),
    {
        proof {
            lemma_bit16_xor(self.bits, other.bits);
            assert(digit_mask_view(self.bits ^ other.bits) =~= digit_mask_view(
                self.bits,
            ).difference(digit_mask_view(other.bits)).union(
                digit_mask_view(other.bits).difference(digit_mask_view(self.bits)),
            ));
        }
        DigitSet { bits: self.bits ^ other.bits }
    }

    /// The digits missing from this set.
    pub fn complement(self) -> (r: DigitSet)
        ensures
            r@ == digit_domain().difference(self@),
    {
        proof {
            lemma_bit16_all9();
            lemma_bit16_andnot(0x1ffu16, self.bits);
            assert(digit_mask_view(0x1ffu16 & !self.bits) =~= digit_domain().difference(
                digit_mask_view(self.bits),
            ));
        }
        DigitSet { bits: 0x1ff & !self.bits }
    }

    /// True iff the set has no digits.
    pub fn is_empty(self) -> (r: bool)
        ensures
            r == (self@ == Set::<int>::empty()),
    {
        let n = self.count();
        proof {
            broadcast use vstd::set::group_set_axioms;

            lemma_digit_set_finite(self@);
            if n == 0 {
                self@.lemma_len0_is_empty();
            }
        }
        n == 0
    }

    /// How many digits the set holds.
    pub fn count(self) -> (n: u8)
        ensures
            n == self@.len(),
    {
        let mut n: u8 = 0;
        proof {
            broadcast use vstd::set::group_set_axioms;

            assert(self@.intersect(set_int_range(1, 1)) =~= Set::<int>::empty());
        }
        for i in 1..10u8
            invariant
                n < i,
                n == self@.intersect(set_int_range(1, i as int)).len(),
                self@.intersect(set_int_range(1, i as int)).finite(),
        {
            proof {
                broadcast use vstd::set::group_set_axioms;

                let s0 = self@.intersect(set_int_range(1, i as int));
                let s1 = self@.intersect(set_int_range(1, i as int + 1));
                if self@.contains(i as int) {
                    assert(s1 =~= s0.insert(i as int));
                } else {
                    assert(s1 =~= s0);
                }
            }
            if (self.bits >> ((i - 1) as u16)) & 1 == 1 {
                n = n + 1;
            }
        }
        proof {
            assert(self@.intersect(set_int_range(1, 10)) =~= self@);
        }
        n
    }

    /// The digits of the set, in ascending order.
    pub fn items(self) -> (v: Vec<Digit>)
        ensures
            v@.len() == self@.len(),
            forall|k: int|
                0 <= k < v@.len() ==> (#[trigger] v@[k]).wf() && self@.contains(v@[k].idx()),
            forall|k1: int, k2: int| 0 <= k1 < k2 < v@.len() ==> v@[k1].idx() < v@[k2].idx(),
            forall|d: int|
                #[trigger] self@.contains(d) ==> exists|k: int| 0 <= k < v@.len() && v@[k].idx() == d,
    {
        let mut v: Vec<Digit> = Vec::new();
        proof {
            broadcast use vstd::set::group_set_axioms;

            assert(self@.intersect(set_int_range(1, 1)) =~= Set::<int>::empty());
        }
        for i in 1..10u8
            invariant
                v@.len() == self@.intersect(set_int_range(1, i as int)).len(),
                self@.intersect(set_int_range(1, i as int)).finite(),
                forall|k: int|
                    0 <= k < v@.len() ==> (#[trigger] v@[k]).wf() && self@.contains(v@[k].idx())
                        && v@[k].idx() < i,
                forall|k1: int, k2: int| 0 <= k1 < k2 < v@.len() ==> v@[k1].idx() < v@[k2].idx(),
                forall|d: int|
                    1 <= d < i && #[trigger] self@.contains(d) ==> exists|k: int|
                        0 <= k < v@.len() && v@[k].idx() == d,
        {
            proof {
                broadcast use vstd::set::group_set_axioms;

                let s0 = self@.intersect(set_int_range(1, i as int));
                let s1 = self@.intersect(set_int_range(1, i as int + 1));
                if self@.contains(i as int) {
                    assert(s1 =~= s0.insert(i as int));
                } else {
                    assert(s1 =~= s0);
                }
            }
            if (self.bits >> ((i - 1) as u16)) & 1 == 1 {
                proof {
                    assert(self@.contains(i as int));
                }
                let ghost old_v = v@;
                v.push(Digit::new(i));
                proof {
                    assert forall|d: int|
                        1 <= d < i as int + 1 && #[trigger] self@.contains(d) implies exists|
                        k: int,
                    | 0 <= k < v@.len() && v@[k].idx() == d by {
                        if d < i as int {
                            let k = choose|k: int| 0 <= k < old_v.len() && old_v[k].idx() == d;
                            assert(v@[k].idx() == d);
                        } else {
                            assert(v@[old_v.len() as int].idx() == d);
                        }
                    }
                }
            } else {
                proof {
                    assert forall|d: int|
                        1 <= d < i as int + 1 && #[trigger] self@.contains(d) implies exists|
                        k: int,
                    | 0 <= k < v@.len() && v@[k].idx() == d by {
                        if d == i as int {
                            assert(!self@.contains(i as int));
                        }
                    }
                }
            }
        }
        proof {
            assert(self@.intersect(set_int_range(1, 10)) =~= self@);
        }
        v
    }
}

/// A set of positions within one 9-cell grouping, stored as a 9-bit mask.
#[derive(Debug)]
pub struct PositionSet<IN> {
    bits: u16,
    _marker: core::marker::PhantomData<IN>,
}

impl<IN> Clone for PositionSet<IN> {
    fn clone(&self) -> (r: Self)
        ensures
            r@ == self@,
    {
        PositionSet { bits: self.bits, _marker: core::marker::PhantomData }
    }
}

impl<IN> Copy for PositionSet<IN> {

}

impl<IN> View for PositionSet<IN> {
    type V = Set<int>;

    closed spec fn view(&self) -> Set<int> {
        pos_mask_view(self.bits)
    }
}

impl<IN> PositionSet<IN> {
    /// The set with no positions.
    pub fn empty() -> (r: PositionSet<IN>)
        ensures
            r@ == Set::<int>::empty(),
    {
        proof {
            lemma_bit16_zero();
            assert(pos_mask_view(0u16) =~= Set::<int>::empty());
        }
        PositionSet { bits: 0, _marker: core::marker::PhantomData }
    }

    /// The set of all nine positions.
    pub fn full() -> (r: PositionSet<IN>)
        ensures
            r@ == set_int_range(0, 9),
    {
        proof {
            lemma_bit16_all9();
            assert(pos_mask_view(0x1ffu16) =~= set_int_range(0, 9));
        }
        PositionSet { bits: 0x1ff, _marker: core::marker::PhantomData }
    }

    /// The set holding exactly the given position.
    pub fn singleton(p: Position<IN>) -> (r: PositionSet<IN>)
        requires
            0 <= p.idx() < 9,
        ensures
            r@ == Set::<int>::empty().insert(p.idx()),
    {
        let bits: u16 = 1u16 << (p.get() as u16);
        proof {
            lemma_bit16_single(p.idx() as u16);
            assert(pos_mask_view(bits) =~= Set::<int>::empty().insert(p.idx()));
        }
        PositionSet { bits, _marker: core::marker::PhantomData }
    }

    /// Membership test for a position.
    pub fn contains(self, p: Position<IN>) -> (r: bool)
        requires
            0 <= p.idx() < 9,
        ensures
            r == self@.contains(p.idx()),
    {
        (self.bits >> (p.get() as u16)) & 1 == 1
    }

    /// Membership test by raw position index.
    pub fn contains_index(self, i: u8) -> (r: bool)
        requires
            i < 9,
        ensures
            r == self@.contains(i as int),
    {
        (self.bits >> (i as u16)) & 1 == 1
    }

    /// Union of two position sets.
    pub fn union(self, other: PositionSet<IN>) -> (r: PositionSet<IN>)
        ensures
            r@ == self@.union(other@),
    {
        proof {
            lemma_bit16_or(self.bits, other.bits);
            assert(pos_mask_view(self.bits | other.bits) =~= pos_mask_view(self.bits).union(
                pos_mask_view(other.bits),
            ));
        }
        PositionSet { bits: self.bits | other.bits, _marker: core::marker::PhantomData }
    }
}

impl PositionSet<crate::positions::House> {
    /// Reinterpret a set of house positions as a set of line positions; the
    /// positions themselves are unchanged.
    pub fn as_line_set(self) -> (r: PositionSet<Line>)
        ensures
            r@ == self@,
    {
        proof {
            assert(pos_mask_view(self.bits) =~= pos_mask_view(self.bits));
        }
        PositionSet { bits: self.bits, _marker: core::marker::PhantomData }
    }
}

} // verus!
