//! Logical deduction rules over the board state.
//!
//! Each strategy is a pure function of the board: it yields forced
//! placements, annotated with the rule that justifies them, and never
//! changes the board itself. Strategies are tried cheapest first: naked
//! singles before hidden singles. A house that cannot supply a missing
//! digit at all is a contradiction and is reported as [`Unsolvable`].

use vstd::prelude::*;
use crate::bitset::lemma_digit_set_finite;
use crate::bitset::lemma_digit_set_view_bounds;
use crate::bitset::lemma_singleton_view;
use crate::candidates::Board;
use crate::candidates::CellState;
use crate::candidates::cands;
use crate::candidates::digit_source;
use crate::candidates::house_no_source;
use crate::candidates::is_placed;
use crate::candidates::placed_digit;
use crate::digit::Digit;
use crate::errors::Unsolvable;
use crate::positions::Cell;
use crate::positions::House;
use crate::positions::Position;
use crate::positions::CellAt;
use crate::positions::house_cell_at;
use crate::positions::lemma_house_enum;

verus! {

/// The deduction rule that justifies a forced placement.
#[derive(Clone, Copy, PartialEq, Eq, Structural, Debug)]
pub enum Strategy {
    /// The cell has exactly one candidate left.
    NakedSingle,
    /// The digit has exactly one open cell left within some house.
    HiddenSingle,
}

/// One forced placement, with its justification.
#[derive(Clone, Copy, Debug)]
pub struct Deduction {
    pub strategy: Strategy,
    pub cell: Cell,
    pub digit: Digit,
}

/// Cell `c` is open and `d` is its only candidate.
pub open spec fn naked_single_at(b: Seq<CellState>, c: int, d: int) -> bool {
    &&& 0 <= c < 81
    &&& 1 <= d <= 9
    &&& !is_placed(b[c])
    &&& cands(b[c]) == Set::<int>::empty().insert(d)
}

/// Within house `h`, cell `c` is the only remaining source of digit `d`.
pub open spec fn hidden_single_at(b: Seq<CellState>, h: int, c: int, d: int) -> bool {
    &&& 0 <= h < 27
    &&& 0 <= c < 81
    &&& 1 <= d <= 9
    &&& exists|j: int| 0 <= j < 9 && #[trigger] house_cell_at(h, j) == c
    &&& !is_placed(b[c])
    &&& cands(b[c]).contains(d)
    &&& forall|j: int|
        0 <= j < 9 && #[trigger] house_cell_at(h, j) != c ==> !digit_source(
            b,
            d,
            house_cell_at(h, j),
        )
}

/// The deduction is forced on this board by the rule it names.
pub open spec fn deduction_justified(b: Seq<CellState>, dd: Deduction) -> bool {
    &&& dd.cell.wf()
    &&& dd.digit.wf()
    &&& match dd.strategy {
        Strategy::NakedSingle => naked_single_at(b, dd.cell.idx(), dd.digit.idx()),
        Strategy::HiddenSingle => exists|h: int|
            #[trigger] hidden_single_at(b, h, dd.cell.idx(), dd.digit.idx()),
    }
}

/// No deduction strategy applies to the board: no open cell is down to a
/// single candidate, and no house is down to a single source for any
/// digit. This is the fixed point that propagation drives toward.
pub open spec fn no_singles(b: Seq<CellState>) -> bool {
    &&& forall|c: int, d: int| !(#[trigger] naked_single_at(b, c, d))
    &&& forall|h: int, c: int, d: int| !(#[trigger] hidden_single_at(b, h, c, d))
}

/// Find the forced placements of the cheapest strategy that yields any:
/// first naked singles, then hidden singles. An empty result means no
/// single applies. Fails iff a house can no longer supply a missing digit
/// anywhere, which is a contradiction.
pub fn find_deductions(board: &Board) -> (r: Result<Vec<Deduction>, Unsolvable>)
    requires
        board.wf(),
    ensures
        r matches Ok(v) ==> forall|k: int|
            0 <= k < v@.len() ==> deduction_justified(board@, #[trigger] v@[k]),
        r matches Ok(v) && v@.len() == 0 ==> no_singles(board@),
        r is Err ==> exists|h: int, d: int|
            0 <= h < 27 && 1 <= d <= 9 && #[trigger] house_no_source(board@, d, h),
{
    let mut v: Vec<Deduction> = Vec::new();
    // Naked singles: open cells with one candidate left.
    for i in 0..81u8
        invariant
            board.wf(),
            forall|k: int| 0 <= k < v@.len() ==> deduction_justified(board@, #[trigger] v@[k]),
            forall|c: int, d: int|
                0 <= c < i && #[trigger] naked_single_at(board@, c, d) ==> v@.len() > 0,
    {
        let st = board.state(i);
        proof {
            if !is_placed(board@[i as int]) && cands(board@[i as int]).len() != 1 {
                broadcast use vstd::set::group_set_axioms;

                assert forall|d: int| !(#[trigger] naked_single_at(board@, i as int, d)) by {
                    if naked_single_at(board@, i as int, d) {
                        assert(Set::<int>::empty().insert(d).len() == 1);
                    }
                }
            }
        }
        match st {
            CellState::Placed(_) => {
            }
            CellState::Open(t) => {
                if t.count() == 1 {
                    let items = t.items();
                    proof {
                        lemma_digit_set_view_bounds(t);
                        lemma_digit_set_finite(t@);
                        broadcast use vstd::set::group_set_axioms;

                        let dd = t@.choose();
                        assert(t@.contains(dd));
                        assert(exists|k: int| 0 <= k < items@.len() && items@[k].idx() == dd);
                    }
                    let d0 = items[0];
                    proof {
                        lemma_singleton_view(t@, d0.idx());
                    }
                    v.push(Deduction { strategy: Strategy::NakedSingle, cell: Cell::new(i), digit: d0 });
                }
            }
        }
    }
    if v.len() > 0 {
        return Ok(v);
    }
    // Hidden singles: a digit with a single remaining source in a house.
    for h in 0..27u8
        invariant
            board.wf(),
            forall|k: int| 0 <= k < v@.len() ==> deduction_justified(board@, #[trigger] v@[k]),
            forall|c: int, d: int| !(#[trigger] naked_single_at(board@, c, d)),
            forall|h2: int, c2: int, d2: int|
                0 <= h2 < h && #[trigger] hidden_single_at(board@, h2, c2, d2) ==> v@.len() > 0,
    {
        let house = House::new(h);
        for d in 1..10u8
            invariant
                board.wf(),
                h < 27,
                house.wf(),
                house.idx() == h as int,
                forall|k: int| 0 <= k < v@.len() ==> deduction_justified(board@, #[trigger] v@[k]),
                forall|c: int, d2: int| !(#[trigger] naked_single_at(board@, c, d2)),
                forall|h2: int, c2: int, d2: int|
                    (0 <= h2 < h || (h2 == h as int && 1 <= d2 < d))
                        && #[trigger] hidden_single_at(board@, h2, c2, d2) ==> v@.len() > 0,
        {
            let digit = Digit::new(d);
            let mut placed_found = false;
            let mut spot_count: u8 = 0;
            let mut spot: u8 = 0;
            let ghost mut spot1g: int = 0;
            let ghost mut spot2g: int = 0;
            for jj in 0..9u8
                invariant
                    board.wf(),
                    h < 27,
                    1 <= d <= 9,
                    house.wf(),
                    house.idx() == h as int,
                    digit.wf(),
                    digit.idx() == d as int,
                    spot_count >= 2 ==> 0 <= spot1g < 81 && 0 <= spot2g < 81 && spot1g != spot2g
                        && (exists|j2: int|
                        0 <= j2 < jj && #[trigger] house_cell_at(h as int, j2) == spot1g) && (
                    exists|j2: int|
                        0 <= j2 < jj && #[trigger] house_cell_at(h as int, j2) == spot2g)
                        && !is_placed(board@[spot1g]) && cands(board@[spot1g]).contains(d as int)
                        && !is_placed(board@[spot2g]) && cands(board@[spot2g]).contains(d as int),
                    placed_found == exists|j2: int|
                        0 <= j2 < jj && is_placed(
                            board@[#[trigger] house_cell_at(h as int, j2)],
                        ) && placed_digit(board@[house_cell_at(h as int, j2)]) == d as int,
                    spot_count == 0 ==> forall|j2: int|
                        0 <= j2 < jj ==> !(!is_placed(
                            board@[#[trigger] house_cell_at(h as int, j2)],
                        ) && cands(board@[house_cell_at(h as int, j2)]).contains(d as int)),
                    spot_count == 1 ==> spot < 81 && !is_placed(board@[spot as int]) && cands(
                        board@[spot as int],
                    ).contains(d as int) && (exists|j2: int|
                        0 <= j2 < jj && #[trigger] house_cell_at(h as int, j2) == spot as int) && (
                    forall|j2: int|
                        0 <= j2 < jj && #[trigger] house_cell_at(h as int, j2) != spot as int ==> !(
                        !is_placed(board@[house_cell_at(h as int, j2)]) && cands(
                            board@[house_cell_at(h as int, j2)],
                        ).contains(d as int))),
            {
                proof {
                    lemma_house_enum(h as int);
                }
                let x = house.cell_at(Position::new(jj));
                match board.state(x.get()) {
                    CellState::Placed(q) => {
                        if q.get() == d {
                            placed_found = true;
                        }
                    }
                    CellState::Open(t) => {
                        if t.contains(digit) {
                            if spot_count == 0 {
                                spot_count = 1;
                                spot = x.get();
                            } else if spot_count == 1 {
                                if x.get() != spot {
                                    spot_count = 2;
                                    proof {
                                        spot1g = spot as int;
                                        spot2g = x.idx();
                                    }
                                }
                            }
                        }
                    }
                }
            }
            if placed_found {
                proof {
                    assert forall|c2: int| !(#[trigger] hidden_single_at(
                        board@,
                        h as int,
                        c2,
                        d as int,
                    )) by {
                        if hidden_single_at(board@, h as int, c2, d as int) {
                            let j2 = choose|j2: int|
                                0 <= j2 < 9 && is_placed(
                                    board@[#[trigger] house_cell_at(h as int, j2)],
                                ) && placed_digit(board@[house_cell_at(h as int, j2)])
                                    == d as int;
                            assert(digit_source(board@, d as int, house_cell_at(h as int, j2)));
                            assert(house_cell_at(h as int, j2) == c2);
                        }
                    }
                }
            }
            if !placed_found {
                if spot_count == 0 {
                    proof {
                        lemma_house_enum(h as int);
                        assert(house_no_source(board@, d as int, h as int));
                    }
                    return Err(Unsolvable);
                }
                if spot_count == 1 {
                    proof {
                        lemma_house_enum(h as int);
                        assert(hidden_single_at(board@, h as int, spot as int, d as int));
                    }
                    v.push(
                        Deduction {
                            strategy: Strategy::HiddenSingle,
                            cell: Cell::new(spot),
                            digit,
                        },
                    );
                } else {
                    proof {
                        assert forall|c2: int| !(#[trigger] hidden_single_at(
                            board@,
                            h as int,
                            c2,
                            d as int,
                        )) by {
                            if hidden_single_at(board@, h as int, c2, d as int) {
                                let j1 = choose|j2: int|
                                    0 <= j2 < 9 && #[trigger] house_cell_at(h as int, j2)
                                        == spot1g;
                                let j2 = choose|j2: int|
                                    0 <= j2 < 9 && #[trigger] house_cell_at(h as int, j2)
                                        == spot2g;
                                assert(digit_source(board@, d as int, spot1g));
                                assert(digit_source(board@, d as int, spot2g));
                                assert(spot1g == c2);
                                assert(spot2g == c2);
                            }
                        }
                    }
                }
            }
        }
    }
    Ok(v)
}

} // verus!
