//! The mutable board state of the solver.
//!
//! Each of the 81 cells holds either a placed digit or the set of digits it
//! could still take. `place` writes a digit and strikes it from every
//! neighbor; `eliminate` strikes one candidate. Both detect the states with
//! no legal completion and report them as [`Unsolvable`], leaving the board
//! unchanged.

use vstd::prelude::*;
use crate::bitset::DigitSet;
use crate::bitset::digit_domain;
use crate::bitset::lemma_digit_set_finite;
use crate::bitset::lemma_digit_set_view_bounds;
use crate::bitset::lemma_singleton_view;
use crate::board::Sudoku;
use crate::board::grid_extends;
use crate::board::house_has_digit;
use crate::board::lemma_solved_distinct;
use crate::board::spec_solved;
use crate::digit::Digit;
use crate::errors::Unsolvable;
use crate::positions::Cell;
use crate::positions::House;
use crate::positions::Position;
use crate::positions::CellAt;
use crate::positions::house_cell_at;
use crate::positions::lemma_cell_div_mod;
use crate::positions::lemma_cell_houses;
use crate::positions::lemma_house_enum;
use crate::positions::same_house;
use crate::positions::same_house_ex;
use crate::positions::spec_block;
use crate::positions::spec_col;
use crate::positions::spec_row;

verus! {

/// One cell of the board: a placed digit, or the candidates that remain.
/// A placed cell carries no candidate set, by construction.
#[derive(Clone, Copy, Debug)]
pub enum CellState {
    Placed(Digit),
    Open(DigitSet),
}

/// Whether the cell holds a placed digit.
pub open spec fn is_placed(s: CellState) -> bool {
    s is Placed
}

/// The placed digit's value (meaningful only for a placed cell).
pub open spec fn placed_digit(s: CellState) -> int {
    s->Placed_0.idx()
}

/// The candidate digits of an open cell (meaningful only for an open cell).
pub open spec fn cands(s: CellState) -> Set<int> {
    s->Open_0@
}

/// A placed cell holds a digit `1..=9`.
pub open spec fn state_wf(s: CellState) -> bool {
    is_placed(s) ==> 1 <= placed_digit(s) <= 9
}

/// No two placed cells of one house hold the same digit.
pub open spec fn no_conflicts(b: Seq<CellState>) -> bool {
    forall|i: int, j: int|
        0 <= i < 81 && 0 <= j < 81 && i != j && same_house(i, j) && is_placed(#[trigger] b[i])
            && is_placed(#[trigger] b[j]) ==> placed_digit(b[i]) != placed_digit(b[j])
}

/// An open cell never lists a digit already placed in one of its houses.
pub open spec fn cand_consistent(b: Seq<CellState>) -> bool {
    forall|i: int, j: int|
        0 <= i < 81 && 0 <= j < 81 && i != j && same_house(i, j) && is_placed(#[trigger] b[i])
            && !is_placed(#[trigger] b[j]) ==> !cands(b[j]).contains(placed_digit(b[i]))
}

/// The board invariant: 81 well-formed cells, no duplicate in any house, and
/// candidate sets consistent with the placements.
pub open spec fn board_wf(b: Seq<CellState>) -> bool {
    &&& b.len() == 81
    &&& forall|i: int| 0 <= i < 81 ==> state_wf(#[trigger] b[i])
    &&& no_conflicts(b)
    &&& cand_consistent(b)
}

/// Placements only grow from `b0` to `b1`, and keep their digits.
pub open spec fn placed_preserved(b0: Seq<CellState>, b1: Seq<CellState>) -> bool {
    forall|i: int|
        0 <= i < 81 && is_placed(#[trigger] b0[i]) ==> is_placed(#[trigger] b1[i]) && placed_digit(
            b1[i],
        ) == placed_digit(b0[i])
}

/// Preservation of placements is transitive.
pub proof fn lemma_placed_preserved_trans(a: Seq<CellState>, b: Seq<CellState>, c: Seq<CellState>)
    requires
        placed_preserved(a, b),
        placed_preserved(b, c),
    ensures
        placed_preserved(a, c),
{
    assert forall|i: int|
        0 <= i < 81 && is_placed(#[trigger] a[i]) implies is_placed(#[trigger] c[i])
        && placed_digit(c[i]) == placed_digit(a[i]) by {
        assert(is_placed(b[i]) && placed_digit(b[i]) == placed_digit(a[i]));
    }
}

/// Every cell is placed.
pub open spec fn all_placed(b: Seq<CellState>) -> bool {
    forall|i: int| 0 <= i < 81 ==> is_placed(#[trigger] b[i])
}

/// Cell `x` of a house can still supply digit `d` after `d` is placed in
/// cell `c`: it is `c` itself, a cell already holding `d`, or an open cell
/// listing `d` that is no neighbor of `c`.
pub open spec fn place_digit_source(b: Seq<CellState>, c: int, d: int, x: int) -> bool {
    ||| x == c
    ||| is_placed(b[x]) && placed_digit(b[x]) == d
    ||| !is_placed(b[x]) && cands(b[x]).contains(d) && !same_house(x, c)
}

/// Cell `x` of a house can supply digit `d` on the present board.
pub open spec fn digit_source(b: Seq<CellState>, d: int, x: int) -> bool {
    ||| is_placed(b[x]) && placed_digit(b[x]) == d
    ||| !is_placed(b[x]) && cands(b[x]).contains(d)
}

/// House `h` keeps a supply of digit `d` once `d` is placed in cell `c`.
pub open spec fn place_house_ok(b: Seq<CellState>, c: int, d: int, h: int) -> bool {
    exists|j: int| 0 <= j < 9 && place_digit_source(b, c, d, #[trigger] house_cell_at(h, j))
}

/// House `h` has no supply of digit `d` at all.
pub open spec fn house_no_source(b: Seq<CellState>, d: int, h: int) -> bool {
    forall|j: int| 0 <= j < 9 ==> !digit_source(b, d, #[trigger] house_cell_at(h, j))
}

/// Placing digit `d` in cell `c` succeeds: the cell admits the digit, no
/// neighbor holds it, no open neighbor would be left without candidates,
/// and no house that could supply `d` loses its last supply.
pub open spec fn place_ok(b: Seq<CellState>, c: int, d: int) -> bool {
    &&& (is_placed(b[c]) ==> placed_digit(b[c]) == d)
    &&& (!is_placed(b[c]) ==> cands(b[c]).contains(d))
    &&& (forall|j: int|
        0 <= j < 81 && j != c && same_house(j, c) ==> !(is_placed(#[trigger] b[j]) && placed_digit(
            b[j],
        ) == d))
    &&& (forall|j: int|
        0 <= j < 81 && j != c && same_house(j, c) && !is_placed(#[trigger] b[j]) ==> cands(b[j])
            != Set::<int>::empty().insert(d))
    &&& (forall|h: int|
        0 <= h < 27 ==> #[trigger] place_house_ok(b, c, d, h) || house_no_source(b, d, h))
}

/// How one cell changes when digit `d` is placed in cell `c`: the cell
/// itself is placed, open neighbors lose the candidate, everything else is
/// untouched.
pub open spec fn place_cell_rel(b0: Seq<CellState>, s1: CellState, c: int, d: int, i: int) -> bool {
    if i == c {
        is_placed(s1) && placed_digit(s1) == d
    } else if same_house(i, c) && !is_placed(b0[i]) {
        !is_placed(s1) && cands(s1) == cands(b0[i]).remove(d)
    } else {
        s1 == b0[i]
    }
}

/// The whole board after digit `d` is placed in cell `c`.
pub open spec fn place_applied(b0: Seq<CellState>, b1: Seq<CellState>, c: int, d: int) -> bool {
    b1.len() == 81 && forall|i: int| 0 <= i < 81 ==> place_cell_rel(b0, #[trigger] b1[i], c, d, i)
}

/// House `h` keeps a supply of digit `d` once `d` is struck from cell `c`.
pub open spec fn elim_house_ok(b: Seq<CellState>, c: int, d: int, h: int) -> bool {
    exists|j: int|
        0 <= j < 9 && #[trigger] house_cell_at(h, j) != c && digit_source(
            b,
            d,
            house_cell_at(h, j),
        )
}

/// Striking digit `d` from cell `c` succeeds: it does not contradict a
/// placement, does not empty the cell, and leaves each of the cell's houses
/// a supply of `d`.
pub open spec fn elim_ok(b: Seq<CellState>, c: int, d: int) -> bool {
    &&& (is_placed(b[c]) ==> placed_digit(b[c]) != d)
    &&& (!is_placed(b[c]) && cands(b[c]).contains(d) ==> cands(b[c]) != Set::<int>::empty().insert(
        d,
    ))
    &&& (!is_placed(b[c]) && cands(b[c]).contains(d) ==> elim_house_ok(b, c, d, spec_row(c))
        && elim_house_ok(b, c, d, spec_col(c) + 9) && elim_house_ok(b, c, d, spec_block(c) + 18))
}

/// The whole board after digit `d` is struck from cell `c`: only the cell
/// changes, and only if it was open and listed `d`.
pub open spec fn elim_applied(b0: Seq<CellState>, b1: Seq<CellState>, c: int, d: int) -> bool {
    &&& b1.len() == 81
    &&& (if !is_placed(b0[c]) && cands(b0[c]).contains(d) {
        !is_placed(b1[c]) && cands(b1[c]) == cands(b0[c]).remove(d)
    } else {
        b1[c] == b0[c]
    })
    &&& (forall|i: int| 0 <= i < 81 && i != c ==> #[trigger] b1[i] == b0[i])
}

/// The mutable grid of the solver: 81 cells, each placed or open.
#[derive(Debug)]
pub struct Board {
    cells: Vec<CellState>,
}

impl View for Board {
    type V = Seq<CellState>;

    closed spec fn view(&self) -> Seq<CellState> {
        self.cells@
    }
}

/// Placing a digit on a well-formed board keeps the board well formed.
proof fn lemma_place_preserves_wf(b0: Seq<CellState>, b1: Seq<CellState>, c: int, d: int)
    requires
        board_wf(b0),
        0 <= c < 81,
        1 <= d <= 9,
        place_ok(b0, c, d),
        place_applied(b0, b1, c, d),
    ensures
        board_wf(b1),
{
    assert forall|i: int| 0 <= i < 81 implies state_wf(#[trigger] b1[i]) by {
        assert(place_cell_rel(b0, b1[i], c, d, i));
    }
    assert forall|i: int, j: int|
        0 <= i < 81 && 0 <= j < 81 && i != j && same_house(i, j) && is_placed(#[trigger] b1[i])
            && is_placed(#[trigger] b1[j]) implies placed_digit(b1[i]) != placed_digit(b1[j]) by {
        assert(place_cell_rel(b0, b1[i], c, d, i));
        assert(place_cell_rel(b0, b1[j], c, d, j));
        if i == c {
            assert(is_placed(b0[j]));
            assert(b1[j] == b0[j]);
        } else if j == c {
            assert(b1[i] == b0[i]);
        } else {
            assert(b1[i] == b0[i] && b1[j] == b0[j]);
        }
    }
    assert forall|i: int, j: int|
        0 <= i < 81 && 0 <= j < 81 && i != j && same_house(i, j) && is_placed(#[trigger] b1[i])
            && !is_placed(#[trigger] b1[j]) implies !cands(b1[j]).contains(placed_digit(b1[i])) by {
        assert(place_cell_rel(b0, b1[i], c, d, i));
        assert(place_cell_rel(b0, b1[j], c, d, j));
        if i == c {
            if same_house(j, c) && !is_placed(b0[j]) {
                assert(cands(b1[j]) == cands(b0[j]).remove(d));
            }
        } else {
            assert(b1[i] == b0[i]);
            if same_house(j, c) && !is_placed(b0[j]) {
                assert(cands(b1[j]) == cands(b0[j]).remove(d));
                assert(!cands(b0[j]).contains(placed_digit(b0[i])));
            } else {
                assert(b1[j] == b0[j]);
            }
        }
    }
}

impl Board {
    /// The board invariant.
    pub open spec fn wf(self) -> bool {
        board_wf(self@)
    }

    /// The empty board: every cell open with all nine candidates.
    pub fn empty() -> (r: Board)
        ensures
            r.wf(),
            forall|i: int| 0 <= i < 81 ==> !is_placed(#[trigger] r@[i]),
            forall|i: int| 0 <= i < 81 ==> cands(#[trigger] r@[i]) == digit_domain(),
    {
        let full = DigitSet::full();
        let mut cells: Vec<CellState> = Vec::new();
        for k in 0..81usize
            invariant
                full@ == digit_domain(),
                cells@.len() == k,
                forall|i: int|
                    0 <= i < k ==> !is_placed(#[trigger] cells@[i]) && cands(cells@[i])
                        == digit_domain(),
        {
            cells.push(CellState::Open(full));
        }
        Board { cells }
    }

    /// The state of one cell.
    pub fn state(&self, i: u8) -> (r: CellState)
        requires
            i < 81,
            self@.len() == 81,
        ensures
            r == self@[i as int],
    {
        self.cells[i as usize]
    }

    /// An independent copy of this board.
    pub fn duplicate(&self) -> (r: Board)
        requires
            self@.len() == 81,
        ensures
            r@ == self@,
    {
        let mut cells: Vec<CellState> = Vec::new();
        for k in 0..81usize
            invariant
                self@.len() == 81,
                cells@.len() == k,
                forall|i: int| 0 <= i < k ==> #[trigger] cells@[i] == self@[i],
        {
            cells.push(self.cells[k]);
        }
        proof {
            assert(cells@ =~= self@);
        }
        Board { cells }
    }

    /// Set the cell to the digit and strike the digit from every neighbor.
    /// Fails, leaving the board unchanged, iff the cell or a neighbor or a
    /// house cannot accommodate the digit; placing an already-placed digit
    /// again is a no-op.
    pub fn place(&mut self, cell: Cell, digit: Digit) -> (r: Result<(), Unsolvable>)
        requires
            old(self).wf(),
            cell.wf(),
            digit.wf(),
        ensures
            final(self).wf(),
            r is Ok <==> place_ok(old(self)@, cell.idx(), digit.idx()),
            r is Ok ==> place_applied(old(self)@, final(self)@, cell.idx(), digit.idx()),
            r is Ok ==> placed_preserved(old(self)@, final(self)@),
            r is Ok && is_placed(old(self)@[cell.idx()]) ==> final(self)@ == old(self)@,
            r is Err ==> final(self)@ == old(self)@,
    {
        let ghost b0 = self@;
        let ghost c = cell.idx();
        let ghost d = digit.idx();
        let cu = cell.get();
        let ci = cell.as_index();
        let st = self.cells[ci];
        match st {
            CellState::Placed(p) => {
                if p.get() == digit.get() {
                    proof {
                        Digit::lemma_digit_eq(p, digit);
                        lemma_place_ok_on_placed(b0, c, d);
                        assert forall|i: int| 0 <= i < 81 implies place_cell_rel(
                            b0,
                            #[trigger] b0[i],
                            c,
                            d,
                            i,
                        ) by {
                            if i != c && same_house(i, c) && !is_placed(b0[i]) {
                                assert(!cands(b0[i]).contains(d));
                                assert(cands(b0[i]).remove(d) =~= cands(b0[i]));
                            }
                            if i == c {
                                assert(is_placed(b0[c]) && placed_digit(b0[c]) == d);
                            }
                        }
                    }
                    return Ok(());
                } else {
                    return Err(Unsolvable);
                }
            }
            CellState::Open(s) => {
                if !s.contains(digit) {
                    return Err(Unsolvable);
                }
            }
        }
        // No neighbor may hold the digit, and no open neighbor may be left
        // with an empty candidate set.
        for j in 0..81u8
            invariant
                self@ == b0,
                self.wf(),
                cell.wf(),
                digit.wf(),
                c == cell.idx(),
                d == digit.idx(),
                cu == c,
                forall|j2: int|
                    0 <= j2 < j && j2 != c && same_house(j2, c) ==> !(is_placed(#[trigger] b0[j2])
                        && placed_digit(b0[j2]) == d),
                forall|j2: int|
                    0 <= j2 < j && j2 != c && same_house(j2, c) && !is_placed(#[trigger] b0[j2])
                        ==> cands(b0[j2]) != Set::<int>::empty().insert(d),
        {
            if j != cu && same_house_ex(j, cu) {
                match self.cells[j as usize] {
                    CellState::Placed(q) => {
                        if q.get() == digit.get() {
                            return Err(Unsolvable);
                        }
                    }
                    CellState::Open(t) => {
                        if t.contains(digit) && t.count() == 1 {
                            proof {
                                lemma_digit_set_view_bounds(t);
                                lemma_digit_set_finite(t@);
                                lemma_singleton_view(t@, d);
                            }
                            return Err(Unsolvable);
                        }
                        proof {
                            if cands(b0[j as int]) == Set::<int>::empty().insert(d) {
                                broadcast use vstd::set::group_set_axioms;

                                lemma_digit_set_finite(t@);
                                assert(t@.contains(d));
                                assert(t@.len() == 1);
                            }
                        }
                    }
                }
            }
        }
        // Every house must keep a supply of the digit, unless it never had
        // one.
        for h in 0..27u8
            invariant
                self@ == b0,
                self.wf(),
                cell.wf(),
                digit.wf(),
                c == cell.idx(),
                d == digit.idx(),
                cu == c,
                forall|h2: int|
                    0 <= h2 < h ==> #[trigger] place_house_ok(b0, c, d, h2) || house_no_source(
                        b0,
                        d,
                        h2,
                    ),
        {
            let house = House::new(h);
            proof {
                lemma_house_enum(h as int);
            }
            let mut found_after = false;
            for jj in 0..9u8
                invariant
                    self@ == b0,
                    self.wf(),
                    cell.wf(),
                    digit.wf(),
                    c == cell.idx(),
                    d == digit.idx(),
                    cu == c,
                    h < 27,
                    house.wf(),
                    house.idx() == h as int,
                    found_after == exists|j2: int|
                        0 <= j2 < jj && place_digit_source(
                            b0,
                            c,
                            d,
                            #[trigger] house_cell_at(h as int, j2),
                        ),
            {
                proof {
                    lemma_house_enum(h as int);
                }
                let x = house.cell_at(Position::new(jj));
                let xu = x.get();
                let mut src = xu == cu;
                if !src {
                    match self.cells[x.as_index()] {
                        CellState::Placed(q) => {
                            if q.get() == digit.get() {
                                src = true;
                            }
                        }
                        CellState::Open(t) => {
                            if t.contains(digit) && !same_house_ex(xu, cu) {
                                src = true;
                            }
                        }
                    }
                }
                if src {
                    found_after = true;
                }
            }
            if !found_after {
                let mut found_before = false;
                for jj in 0..9u8
                    invariant
                        self@ == b0,
                        self.wf(),
                        cell.wf(),
                        digit.wf(),
                        c == cell.idx(),
                        d == digit.idx(),
                        cu == c,
                        h < 27,
                        house.wf(),
                        house.idx() == h as int,
                        found_before == exists|j2: int|
                            0 <= j2 < jj && digit_source(
                                b0,
                                d,
                                #[trigger] house_cell_at(h as int, j2),
                            ),
                {
                    proof {
                        lemma_house_enum(h as int);
                    }
                    let x = house.cell_at(Position::new(jj));
                    match self.cells[x.as_index()] {
                        CellState::Placed(q) => {
                            if q.get() == digit.get() {
                                found_before = true;
                            }
                        }
                        CellState::Open(t) => {
                            if t.contains(digit) {
                                found_before = true;
                            }
                        }
                    }
                }
                if found_before {
                    proof {
                        assert(!place_house_ok(b0, c, d, h as int));
                        assert(!house_no_source(b0, d, h as int));
                    }
                    return Err(Unsolvable);
                }
            }
        }
        // All checks passed: rebuild the cell array.
        let mut v: Vec<CellState> = Vec::new();
        for i in 0..81u8
            invariant
                self@ == b0,
                self.wf(),
                cell.wf(),
                digit.wf(),
                c == cell.idx(),
                d == digit.idx(),
                cu == c,
                v@.len() == i as int,
                forall|i2: int| 0 <= i2 < i ==> place_cell_rel(b0, #[trigger] v@[i2], c, d, i2),
        {
            let cur = self.cells[i as usize];
            if i == cu {
                v.push(CellState::Placed(digit));
            } else if same_house_ex(i, cu) {
                match cur {
                    CellState::Open(t) => {
                        v.push(CellState::Open(t.remove(digit)));
                    }
                    CellState::Placed(_) => {
                        v.push(cur);
                    }
                }
            } else {
                v.push(cur);
            }
        }
        self.cells = v;
        proof {
            assert(place_applied(b0, self@, c, d));
            lemma_place_preserves_wf(b0, self@, c, d);
            assert forall|i: int|
                0 <= i < 81 && is_placed(#[trigger] b0[i]) implies is_placed(#[trigger] self@[i])
                && placed_digit(self@[i]) == placed_digit(b0[i]) by {
                assert(place_cell_rel(b0, self@[i], c, d, i));
            }
        }
        Ok(())
    }

    /// Strike one candidate digit from the cell. Fails, leaving the board
    /// unchanged, iff the digit is the cell's placed digit, or the removal
    /// would leave the cell without candidates or one of its houses without
    /// a supply of the digit. Striking an absent candidate is a no-op.
    pub fn eliminate(&mut self, cell: Cell, digit: Digit) -> (r: Result<(), Unsolvable>)
        requires
            old(self).wf(),
            cell.wf(),
            digit.wf(),
        ensures
            final(self).wf(),
            r is Ok <==> elim_ok(old(self)@, cell.idx(), digit.idx()),
            r is Ok ==> elim_applied(old(self)@, final(self)@, cell.idx(), digit.idx()),
            r is Ok ==> placed_preserved(old(self)@, final(self)@),
            r is Ok && !(!is_placed(old(self)@[cell.idx()]) && cands(old(self)@[cell.idx()]).contains(
                digit.idx(),
            )) ==> final(self)@ == old(self)@,
            r is Err ==> final(self)@ == old(self)@,
    {
        let ghost b0 = self@;
        let ghost c = cell.idx();
        let ghost d = digit.idx();
        let cu = cell.get();
        let ci = cell.as_index();
        let st = self.cells[ci];
        let s = match st {
            CellState::Placed(p) => {
                if p.get() == digit.get() {
                    return Err(Unsolvable);
                }
                return Ok(());
            }
            CellState::Open(s) => s,
        };
        if !s.contains(digit) {
            return Ok(());
        }
        if s.count() == 1 {
            proof {
                lemma_digit_set_view_bounds(s);
                lemma_digit_set_finite(s@);
                lemma_singleton_view(s@, d);
            }
            return Err(Unsolvable);
        }
        proof {
            if cands(b0[c]) == Set::<int>::empty().insert(d) {
                broadcast use vstd::set::group_set_axioms;

                lemma_digit_set_finite(s@);
                assert(s@.len() == 1);
            }
        }
        // Each of the cell's three houses must keep a supply of the digit.
        let houses = cell.houses();
        proof {
            lemma_cell_houses(c);
        }
        let mut k: usize = 0;
        while k < 3
            invariant
                self@ == b0,
                self.wf(),
                cell.wf(),
                digit.wf(),
                c == cell.idx(),
                d == digit.idx(),
                cu == c,
                b0[c] == CellState::Open(s),
                !is_placed(b0[c]),
                cands(b0[c]).contains(d),
                houses@.len() == 3,
                houses@[0].wf() && houses@[0].idx() == spec_row(c),
                houses@[1].wf() && houses@[1].idx() == spec_col(c) + 9,
                houses@[2].wf() && houses@[2].idx() == spec_block(c) + 18,
                k <= 3,
                forall|k2: int| 0 <= k2 < k ==> elim_house_ok(b0, c, d, (#[trigger] houses@[k2]).idx()),
            decreases 3 - k,
        {
            let house = houses[k];
            let ghost hv = house.idx();
            proof {
                lemma_house_enum(hv);
            }
            let mut found = false;
            for jj in 0..9u8
                invariant
                    self@ == b0,
                    self.wf(),
                    cell.wf(),
                    digit.wf(),
                    c == cell.idx(),
                    d == digit.idx(),
                    cu == c,
                    house.wf(),
                    house.idx() == hv,
                    found == exists|j2: int|
                        0 <= j2 < jj && #[trigger] house_cell_at(hv, j2) != c && digit_source(
                            b0,
                            d,
                            house_cell_at(hv, j2),
                        ),
            {
                proof {
                    lemma_house_enum(hv);
                }
                let x = house.cell_at(Position::new(jj));
                if x.get() != cu {
                    match self.cells[x.as_index()] {
                        CellState::Placed(q) => {
                            if q.get() == digit.get() {
                                found = true;
                            }
                        }
                        CellState::Open(t) => {
                            if t.contains(digit) {
                                found = true;
                            }
                        }
                    }
                }
            }
            if !found {
                proof {
                    assert(!elim_house_ok(b0, c, d, hv));
                }
                return Err(Unsolvable);
            }
            k = k + 1;
        }
        self.cells.set(ci, CellState::Open(s.remove(digit)));
        proof {
            assert(elim_applied(b0, self@, c, d));
            assert forall|i: int, j: int|
                0 <= i < 81 && 0 <= j < 81 && i != j && same_house(i, j) && is_placed(
                    #[trigger] self@[i],
                ) && !is_placed(#[trigger] self@[j]) implies !cands(self@[j]).contains(
                placed_digit(self@[i]),
            ) by {
                assert(self@[i] == b0[i]);
                if j == c {
                    assert(cands(self@[j]) == cands(b0[j]).remove(d));
                } else {
                    assert(self@[j] == b0[j]);
                }
            }
            assert forall|i: int, j: int|
                0 <= i < 81 && 0 <= j < 81 && i != j && same_house(i, j) && is_placed(
                    #[trigger] self@[i],
                ) && is_placed(#[trigger] self@[j]) implies placed_digit(self@[i]) != placed_digit(
                self@[j],
            ) by {
                assert(self@[i] == b0[i] && self@[j] == b0[j]);
            }
        }
        Ok(())
    }
}

/// Solved grid `g` is still reachable from board `b`: every placement
/// agrees with `g` and every open cell still lists `g`'s digit.
pub open spec fn consistent(b: Seq<CellState>, g: Seq<u8>) -> bool {
    &&& spec_solved(g)
    &&& forall|i: int| 0 <= i < 81 && is_placed(#[trigger] b[i]) ==> g[i] == placed_digit(b[i])
    &&& forall|i: int|
        0 <= i < 81 && !is_placed(#[trigger] b[i]) ==> cands(b[i]).contains(g[i] as int)
}

/// On a board from which `g` is still reachable, placing `g`'s own digit
/// in any cell satisfies every check of `place`.
pub proof fn lemma_place_ok_consistent(b: Seq<CellState>, g: Seq<u8>, c: int)
    requires
        board_wf(b),
        consistent(b, g),
        0 <= c < 81,
    ensures
        place_ok(b, c, g[c] as int),
{
    let d = g[c] as int;
    assert forall|j: int|
        0 <= j < 81 && j != c && same_house(j, c) implies !(is_placed(#[trigger] b[j])
        && placed_digit(b[j]) == d) by {
        if is_placed(b[j]) && placed_digit(b[j]) == d {
            lemma_solved_distinct(g, j, c);
        }
    }
    assert forall|j: int|
        0 <= j < 81 && j != c && same_house(j, c) && !is_placed(#[trigger] b[j]) implies cands(
        b[j],
    ) != Set::<int>::empty().insert(d) by {
        if cands(b[j]) == Set::<int>::empty().insert(d) {
            assert(cands(b[j]).contains(g[j] as int));
            lemma_solved_distinct(g, j, c);
        }
    }
    assert forall|h: int| 0 <= h < 27 implies #[trigger] place_house_ok(b, c, d, h)
        || house_no_source(b, d, h) by {
        assert(house_has_digit(g, h, d));
        let j = choose|j: int| 0 <= j < 9 && g[#[trigger] house_cell_at(h, j)] == d;
        lemma_house_enum(h);
        let x = house_cell_at(h, j);
        if x != c {
            if is_placed(b[x]) {
                assert(place_digit_source(b, c, d, x));
            } else {
                assert(cands(b[x]).contains(d));
                if same_house(x, c) {
                    lemma_solved_distinct(g, x, c);
                }
                assert(place_digit_source(b, c, d, x));
            }
        }
        assert(place_house_ok(b, c, d, h));
    }
}

/// Placing `g`'s own digit keeps `g` reachable.
pub proof fn lemma_place_preserves_consistent(
    b0: Seq<CellState>,
    b1: Seq<CellState>,
    g: Seq<u8>,
    c: int,
)
    requires
        board_wf(b0),
        consistent(b0, g),
        0 <= c < 81,
        place_applied(b0, b1, c, g[c] as int),
    ensures
        consistent(b1, g),
{
    let d = g[c] as int;
    assert forall|i: int|
        0 <= i < 81 && is_placed(#[trigger] b1[i]) implies g[i] == placed_digit(b1[i]) by {
        assert(place_cell_rel(b0, b1[i], c, d, i));
    }
    assert forall|i: int|
        0 <= i < 81 && !is_placed(#[trigger] b1[i]) implies cands(b1[i]).contains(g[i] as int) by {
        assert(place_cell_rel(b0, b1[i], c, d, i));
        if i != c && same_house(i, c) && !is_placed(b0[i]) {
            assert(cands(b1[i]) == cands(b0[i]).remove(d));
            lemma_solved_distinct(g, i, c);
        }
    }
}

/// Re-placing a digit that already stands in the cell succeeds on any
/// well-formed board.
proof fn lemma_place_ok_on_placed(b: Seq<CellState>, c: int, d: int)
    requires
        board_wf(b),
        0 <= c < 81,
        is_placed(b[c]),
        placed_digit(b[c]) == d,
    ensures
        place_ok(b, c, d),
{
    assert forall|h: int| 0 <= h < 27 implies #[trigger] place_house_ok(b, c, d, h)
        || house_no_source(b, d, h) by {
        lemma_house_enum(h);
        if !house_no_source(b, d, h) {
            let j = choose|j: int|
                0 <= j < 9 && digit_source(b, d, #[trigger] house_cell_at(h, j));
            let x = house_cell_at(h, j);
            if is_placed(b[x]) {
                assert(place_digit_source(b, c, d, x));
            } else {
                if same_house(x, c) && x != c {
                    assert(!cands(b[x]).contains(d));
                    assert(false);
                }
                if x == c {
                    assert(place_digit_source(b, c, d, x));
                } else {
                    assert(place_digit_source(b, c, d, x));
                }
            }
            assert(place_house_ok(b, c, d, h));
        }
    }
}


impl Board {
    /// The grid of this board: placed digits, 0 for open cells.
    pub fn to_sudoku(&self) -> (r: Sudoku)
        requires
            self.wf(),
        ensures
            r.wf(),
            forall|i: int|
                0 <= i < 81 && is_placed(#[trigger] self@[i]) ==> r@[i] == placed_digit(self@[i]),
            forall|i: int| 0 <= i < 81 && !is_placed(#[trigger] self@[i]) ==> r@[i] == 0,
    {
        let mut out = Sudoku::new_empty();
        for i in 0..81u8
            invariant
                self.wf(),
                out.wf(),
                forall|i2: int|
                    0 <= i2 < i && is_placed(#[trigger] self@[i2]) ==> out@[i2] == placed_digit(
                        self@[i2],
                    ),
                forall|i2: int|
                    0 <= i2 < 81 && !(0 <= i2 < i && is_placed(self@[i2])) ==> #[trigger] out@[i2]
                        == 0,
        {
            match self.cells[i as usize] {
                CellState::Placed(p) => {
                    out.set_cell(i, p.get());
                }
                CellState::Open(_) => {
                }
            }
        }
        out
    }

    /// Build a board from a grid's clues, placing each in turn. Fails iff
    /// some placement does, that is, iff the clues contradict one another
    /// under the placement rules; a grid with a solved completion never
    /// fails, and every solved completion remains reachable from the board.
    pub fn from_grid(s: &Sudoku) -> (r: Result<Board, Unsolvable>)
        requires
            s.wf(),
        ensures
            r matches Ok(b) ==> b.wf(),
            r matches Ok(b) ==> forall|i: int|
                0 <= i < 81 && #[trigger] s@[i] != 0 ==> is_placed(b@[i]) && placed_digit(b@[i])
                    == s@[i],
            r matches Ok(b) ==> forall|i: int|
                0 <= i < 81 && is_placed(#[trigger] b@[i]) ==> s@[i] != 0,
            r matches Ok(b) ==> forall|g: Seq<u8>|
                spec_solved(g) && grid_extends(s@, g) ==> consistent(b@, g),
            r is Err ==> forall|g: Seq<u8>| !(spec_solved(g) && grid_extends(s@, g)),
    {
        let mut b = Board::empty();
        proof {
            assert forall|g: Seq<u8>|
                spec_solved(g) && grid_extends(s@, g) implies consistent(b@, g) by {
            }
        }
        for i in 0..81u8
            invariant
                s.wf(),
                b.wf(),
                forall|i2: int|
                    0 <= i2 < i && #[trigger] s@[i2] != 0 ==> is_placed(b@[i2]) && placed_digit(
                        b@[i2],
                    ) == s@[i2],
                forall|i2: int|
                    0 <= i2 < 81 && is_placed(#[trigger] b@[i2]) ==> 0 <= i2 < i && s@[i2] != 0,
                forall|g: Seq<u8>| spec_solved(g) && grid_extends(s@, g) ==> consistent(b@, g),
        {
            let v = s.get_cell(i);
            if v != 0 {
                let ghost prev = b@;
                match b.place(Cell::new(i), Digit::new(v)) {
                    Ok(()) => {
                        proof {
                            assert forall|i2: int|
                                0 <= i2 < 81 && is_placed(#[trigger] b@[i2]) implies (0 <= i2 < i
                                + 1 && s@[i2] != 0) by {
                                assert(place_cell_rel(prev, b@[i2], i as int, v as int, i2));
                            }
                            assert forall|g: Seq<u8>|
                                spec_solved(g) && grid_extends(s@, g) implies consistent(
                                b@,
                                g,
                            ) by {
                                assert(g[i as int] == s@[i as int]);
                                lemma_place_preserves_consistent(prev, b@, g, i as int);
                            }
                        }
                    }
                    Err(e) => {
                        proof {
                            assert forall|g: Seq<u8>|
                                !(spec_solved(g) && grid_extends(s@, g)) by {
                                if spec_solved(g) && grid_extends(s@, g) {
                                    assert(g[i as int] == s@[i as int]);
                                    lemma_place_ok_consistent(prev, g, i as int);
                                }
                            }
                        }
                        return Err(e);
                    }
                }
            }
        }
        Ok(b)
    }

    /// The open cell with the fewest remaining candidates, ties broken by
    /// the lowest cell index; `None` iff every cell is placed.
    pub fn best_open_cell(&self) -> (r: Option<Cell>)
        requires
            self.wf(),
        ensures
            r matches Some(cl) ==> cl.wf() && !is_placed(self@[cl.idx()]),
            r matches Some(cl) ==> forall|j: int|
                0 <= j < 81 && !is_placed(#[trigger] self@[j]) ==> cands(self@[cl.idx()]).len()
                    < cands(self@[j]).len() || (cands(self@[cl.idx()]).len() == cands(
                    self@[j],
                ).len() && cl.idx() <= j),
            r is None ==> all_placed(self@),
    {
        let mut best: Option<(u8, u8)> = None;
        for i in 0..81u8
            invariant
                self.wf(),
                best is None ==> forall|j: int| 0 <= j < i ==> is_placed(#[trigger] self@[j]),
                best matches Some((bi, bn)) ==> bi < 81 && bi <= i && !is_placed(
                    self@[bi as int],
                ) && bn == cands(self@[bi as int]).len(),
                best matches Some((bi, bn)) ==> forall|j: int|
                    0 <= j < i && !is_placed(#[trigger] self@[j]) ==> bn < cands(self@[j]).len() || (
                    bn == cands(self@[j]).len() && bi <= j),
        {
            match self.cells[i as usize] {
                CellState::Placed(_) => {
                }
                CellState::Open(t) => {
                    let n = t.count();
                    match best {
                        None => {
                            best = Some((i, n));
                        }
                        Some((_, bn)) => {
                            if n < bn {
                                best = Some((i, n));
                            }
                        }
                    }
                }
            }
        }
        match best {
            None => None,
            Some((bi, _)) => Some(Cell::new(bi)),
        }
    }
}

} // verus!
