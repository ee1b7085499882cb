//! The solver: propagation to a fixed point, then backtracking search.
//!
//! Propagation applies the deduction strategies until none yields anything.
//! Search then picks the open cell with the fewest candidates and tries its
//! digits in ascending order on a clone of the board. A returned solution
//! is always a fully placed, well-formed board that keeps every placement
//! of the input; counting mode reports solutions up to a caller-given cap.

use vstd::prelude::*;
use vstd::set_lib::lemma_int_range;
use vstd::set_lib::lemma_subset_equality;
use vstd::set_lib::set_int_range;
use crate::board::Sudoku;
use crate::board::grid_extends;
use crate::board::house_has_digit;
use crate::board::spec_solved;
use crate::candidates::Board;
use crate::candidates::CellState;
use crate::candidates::all_placed;
use crate::candidates::board_wf;
use crate::candidates::cands;
use crate::candidates::is_placed;
use crate::candidates::lemma_placed_preserved_trans;
use crate::candidates::placed_digit;
use crate::candidates::digit_source;
use crate::candidates::house_no_source;
use crate::candidates::placed_preserved;
use crate::candidates::consistent;
use crate::candidates::lemma_place_ok_consistent;
use crate::candidates::lemma_place_preserves_consistent;
use crate::errors::Unsolvable;
use crate::positions::house_cell_at;
use crate::positions::lemma_enum_card;
use crate::positions::lemma_house_enum;
use crate::positions::same_house;
use crate::strategy::Deduction;
use crate::strategy::Strategy;
use crate::strategy::hidden_single_at;
use crate::strategy::deduction_justified;
use crate::strategy::naked_single_at;
use crate::strategy::no_singles;
use crate::strategy::find_deductions;

verus! {

/// A forced placement names the digit that `g` itself holds there.
pub proof fn lemma_deduction_digit(b: Seq<CellState>, g: Seq<u8>, dd: Deduction)
    requires
        board_wf(b),
        consistent(b, g),
        deduction_justified(b, dd),
    ensures
        g[dd.cell.idx()] == dd.digit.idx(),
{
    let c = dd.cell.idx();
    let d = dd.digit.idx();
    match dd.strategy {
        Strategy::NakedSingle => {
            assert(cands(b[c]).contains(g[c] as int));
        }
        Strategy::HiddenSingle => {
            let h = choose|h: int| #[trigger] hidden_single_at(b, h, c, d);
            assert(house_has_digit(g, h, d));
            let j = choose|j: int| 0 <= j < 9 && g[#[trigger] house_cell_at(h, j)] == d;
            lemma_house_enum(h);
            let x = house_cell_at(h, j);
            if x != c {
                assert(!digit_source(b, d, x));
                if is_placed(b[x]) {
                    assert(g[x] == placed_digit(b[x]));
                } else {
                    assert(cands(b[x]).contains(g[x] as int));
                }
                assert(false);
            }
        }
    }
}

/// While a solved completion is reachable, every house keeps a supply of
/// every digit.
pub proof fn lemma_consistent_house_source(b: Seq<CellState>, g: Seq<u8>, h: int, d: int)
    requires
        consistent(b, g),
        0 <= h < 27,
        1 <= d <= 9,
        b.len() == 81,
    ensures
        !house_no_source(b, d, h),
{
    assert(house_has_digit(g, h, d));
    let j = choose|j: int| 0 <= j < 9 && g[#[trigger] house_cell_at(h, j)] == d;
    lemma_house_enum(h);
    let x = house_cell_at(h, j);
    if is_placed(b[x]) {
        assert(g[x] == placed_digit(b[x]));
        assert(digit_source(b, d, x));
    } else {
        assert(cands(b[x]).contains(g[x] as int));
        assert(digit_source(b, d, x));
    }
}

/// The open cells of the board.
pub open spec fn open_cells(b: Seq<CellState>) -> Set<int> {
    Set::new(|i: int| 0 <= i < 81 && !is_placed(b[i]))
}

/// How many cells are still open.
pub open spec fn num_open(b: Seq<CellState>) -> int {
    open_cells(b).len() as int
}

/// The open-cell count is finite and bounded by the grid size, only shrinks
/// as placements grow, and shrinks strictly when a cell gets placed.
pub proof fn lemma_num_open(b0: Seq<CellState>, b1: Seq<CellState>)
    requires
        placed_preserved(b0, b1),
    ensures
        open_cells(b0).finite(),
        open_cells(b1).finite(),
        0 <= num_open(b1) <= num_open(b0) <= 81,
        forall|c: int|
            0 <= c < 81 && !is_placed(b0[c]) && is_placed(#[trigger] b1[c]) ==> num_open(b1)
                < num_open(b0),
{
    broadcast use vstd::set::group_set_axioms;

    lemma_int_range(0, 81);
    lemma_subset_len(open_cells(b0), set_int_range(0, 81));
    lemma_subset_len(open_cells(b1), set_int_range(0, 81));
    lemma_subset_len(open_cells(b1), open_cells(b0));
    assert forall|c: int|
        0 <= c < 81 && !is_placed(b0[c]) && is_placed(#[trigger] b1[c]) implies num_open(b1)
        < num_open(b0) by {
        assert(open_cells(b1).subset_of(open_cells(b0).remove(c)));
        vstd::set_lib::lemma_len_subset(open_cells(b1), open_cells(b0).remove(c));
        assert(open_cells(b0).remove(c).len() < open_cells(b0).len());
    }
}

/// A subset of a finite set is finite and no larger.
proof fn lemma_subset_len(a: Set<int>, b: Set<int>)
    requires
        b.finite(),
        a.subset_of(b),
    ensures
        a.finite(),
        a.len() <= b.len(),
{
    vstd::set_lib::lemma_len_subset(a, b);
}

/// Grid `g` agrees with every placement of board `b`.
pub open spec fn board_grid_extends(b: Seq<CellState>, g: Seq<u8>) -> bool {
    forall|i: int|
        0 <= i < 81 && is_placed(#[trigger] b[i]) ==> g[i] == placed_digit(b[i])
}

/// A fully placed well-formed board reads back as a solved grid: the
/// placements are all digits, and since no house repeats a digit, each
/// house's nine cells carry all nine digits.
pub proof fn lemma_solved_board_grid(b: Seq<CellState>, g: Seq<u8>)
    requires
        board_wf(b),
        all_placed(b),
        g.len() == 81,
        forall|i: int| 0 <= i < 81 ==> g[i] == placed_digit(#[trigger] b[i]),
    ensures
        spec_solved(g),
{
    assert forall|i: int| 0 <= i < 81 implies 1 <= #[trigger] g[i] <= 9 by {
        assert(is_placed(b[i]));
    }
    assert forall|h: int, d: int| 0 <= h < 27 && 1 <= d <= 9 implies #[trigger] house_has_digit(
        g,
        h,
        d,
    ) by {
        lemma_house_enum(h);
        let e = |j: int| placed_digit(b[house_cell_at(h, j)]);
        let ds = Set::new(|x: int| exists|j: int| 0 <= j < 9 && x == #[trigger] e(j));
        assert forall|j1: int, j2: int| 0 <= j1 < j2 < 9 implies #[trigger] e(j1) != #[trigger] e(
            j2,
        ) by {
            let x1 = house_cell_at(h, j1);
            let x2 = house_cell_at(h, j2);
            assert(crate::positions::house_cells(h).contains(x1));
            assert(crate::positions::house_cells(h).contains(x2));
            assert(same_house(x1, x2));
            assert(x1 != x2);
            assert(is_placed(b[x1]) && is_placed(b[x2]));
        }
        lemma_enum_card(ds, e, 9);
        assert forall|x: int| #[trigger] ds.contains(x) implies set_int_range(1, 10).contains(
            x,
        ) by {
            let j = choose|j: int| 0 <= j < 9 && x == #[trigger] e(j);
            assert(is_placed(b[house_cell_at(h, j)]));
        }
        lemma_int_range(1, 10);
        lemma_subset_equality(ds, set_int_range(1, 10));
        assert(ds.contains(d));
        let j = choose|j: int| 0 <= j < 9 && d == #[trigger] e(j);
        assert(g[house_cell_at(h, j)] == d);
    }
}

/// Apply a list of forced placements in order. Fails iff one of them does;
/// on success every listed cell is placed. While a solved completion is
/// reachable, the placements cannot fail and keep it reachable.
fn apply_deductions(b: &mut Board, deds: &Vec<Deduction>) -> (r: Result<(), Unsolvable>)
    requires
        old(b).wf(),
        forall|k: int| 0 <= k < deds@.len() ==> deduction_justified(old(b)@, #[trigger] deds@[k]),
    ensures
        final(b).wf(),
        placed_preserved(old(b)@, final(b)@),
        r is Ok ==> forall|k: int|
            0 <= k < deds@.len() ==> is_placed(final(b)@[(#[trigger] deds@[k]).cell.idx()]),
        forall|g: Seq<u8>| consistent(old(b)@, g) ==> r is Ok && consistent(final(b)@, g),
{
    let n = deds.len();
    for k in 0..n
        invariant
            b.wf(),
            old(b).wf(),
            n == deds@.len(),
            forall|k2: int|
                0 <= k2 < deds@.len() ==> deduction_justified(old(b)@, #[trigger] deds@[k2]),
            placed_preserved(old(b)@, b@),
            forall|k2: int|
                0 <= k2 < k ==> is_placed(b@[(#[trigger] deds@[k2]).cell.idx()]),
            forall|g: Seq<u8>| consistent(old(b)@, g) ==> consistent(b@, g),
    {
        let dd = deds[k];
        let ghost bprev = b@;
        match b.place(dd.cell, dd.digit) {
            Ok(()) => {
                proof {
                    assert forall|g: Seq<u8>| consistent(old(b)@, g) implies consistent(
                        b@,
                        g,
                    ) by {
                        lemma_deduction_digit(old(b)@, g, dd);
                        lemma_place_preserves_consistent(bprev, b@, g, dd.cell.idx());
                    }
                }
            }
            Err(e) => {
                proof {
                    assert forall|g: Seq<u8>| !consistent(old(b)@, g) by {
                        if consistent(old(b)@, g) {
                            lemma_deduction_digit(old(b)@, g, dd);
                            lemma_place_ok_consistent(bprev, g, dd.cell.idx());
                        }
                    }
                }
                return Err(e);
            }
        }
    }
    Ok(())
}

/// Drive the strategies to a fixed point: apply the cheapest strategy that
/// yields a deduction, then start over, until none yields any. On success
/// the board has reached the fixed point: no single applies any more.
/// Fails iff a contradiction surfaces on the way; while a solved completion
/// is reachable, propagation cannot fail and keeps it reachable.
pub(crate) fn propagate(b: &mut Board) -> (r: Result<(), Unsolvable>)
    requires
        old(b).wf(),
    ensures
        final(b).wf(),
        placed_preserved(old(b)@, final(b)@),
        r is Ok ==> no_singles(final(b)@),
        forall|g: Seq<u8>| consistent(old(b)@, g) ==> r is Ok && consistent(final(b)@, g),
{
    proof {
        lemma_num_open(b@, b@);
    }
    // Each productive pass places at least one cell, so the fixed point is
    // reached before the pass counter can run out.
    for pass in 0..82u8
        invariant
            b.wf(),
            placed_preserved(old(b)@, b@),
            forall|g: Seq<u8>| consistent(old(b)@, g) ==> consistent(b@, g),
            num_open(b@) <= 81 - pass,
    {
        let deds = match find_deductions(b) {
            Ok(deds) => deds,
            Err(e) => {
                proof {
                    assert forall|g: Seq<u8>| !consistent(old(b)@, g) by {
                        if consistent(old(b)@, g) {
                            let (h, d) = choose|h: int, d: int|
                                0 <= h < 27 && 1 <= d <= 9 && #[trigger] house_no_source(
                                    b@,
                                    d,
                                    h,
                                );
                            lemma_consistent_house_source(b@, g, h, d);
                        }
                    }
                }
                return Err(e);
            }
        };
        if deds.len() == 0 {
            return Ok(());
        }
        let ghost bprev = b@;
        match apply_deductions(b, &deds) {
            Ok(()) => {
                proof {
                    lemma_placed_preserved_trans(old(b)@, bprev, b@);
                    // The first deduction's cell was open and is now placed,
                    // so the pass made progress.
                    let dd0 = deds@[0];
                    assert(deduction_justified(bprev, dd0));
                    assert(!is_placed(bprev[dd0.cell.idx()])) by {
                        match dd0.strategy {
                            Strategy::NakedSingle => {
                                assert(naked_single_at(bprev, dd0.cell.idx(), dd0.digit.idx()));
                            }
                            Strategy::HiddenSingle => {
                                let h = choose|h: int|
                                    #[trigger] hidden_single_at(
                                        bprev,
                                        h,
                                        dd0.cell.idx(),
                                        dd0.digit.idx(),
                                    );
                            }
                        }
                    }
                    assert(is_placed(b@[dd0.cell.idx()]));
                    lemma_num_open(bprev, b@);
                }
            }
            Err(e) => {
                proof {
                    lemma_placed_preserved_trans(old(b)@, bprev, b@);
                    assert forall|g: Seq<u8>| !consistent(old(b)@, g) by {
                        if consistent(old(b)@, g) {
                            assert(consistent(bprev, g));
                        }
                    }
                }
                return Err(e);
            }
        }
    }
    proof {
        lemma_num_open(b@, b@);
        assert(false);
    }
    Ok(())
}

/// Search for any completion of the board: propagate, and if the board is
/// not finished, branch on the open cell with the fewest candidates. A
/// returned board is fully placed, well formed and keeps every placement
/// of the input.
fn solve_rec(board: &Board, fuel: u8) -> (r: Option<Board>)
    requires
        board.wf(),
    ensures
        r matches Some(bb) ==> bb.wf() && all_placed(bb@) && placed_preserved(board@, bb@),
        (exists|g: Seq<u8>| consistent(board@, g)) && fuel > num_open(board@) ==> r is Some,
    decreases fuel,
{
    if fuel == 0 {
        return None;
    }
    let mut b = board.duplicate();
    match propagate(&mut b) {
        Ok(()) => {
        }
        Err(_) => {
            return None;
        }
    }
    let cell = match b.best_open_cell() {
        None => {
            return Some(b);
        },
        Some(cell) => cell,
    };
    let t = match b.state(cell.get()) {
        CellState::Open(t) => t,
        CellState::Placed(_) => {
            proof {
                assert(false);
            }
            return None;
        },
    };
    let ds = t.items();
    let n = ds.len();
    proof {
        assert forall|g: Seq<u8>|
            consistent(b@, g) && fuel > num_open(b@) implies exists|k2: int|
                0 <= k2 < ds@.len() && ds@[k2].idx() == g[cell.idx()] as int by {
            assert(cands(b@[cell.idx()]).contains(g[cell.idx()] as int));
            assert(t@.contains(g[cell.idx()] as int));
        }
    }
    for k in 0..n
        invariant
            b.wf(),
            board.wf(),
            placed_preserved(board@, b@),
            cell.wf(),
            !is_placed(b@[cell.idx()]),
            n == ds@.len(),
            fuel >= 1,
            forall|k2: int| 0 <= k2 < ds@.len() ==> (#[trigger] ds@[k2]).wf(),
            forall|g: Seq<u8>| consistent(board@, g) ==> consistent(b@, g),
            forall|g: Seq<u8>|
                consistent(b@, g) && fuel > num_open(b@) ==> exists|k2: int|
                    k <= k2 < ds@.len() && ds@[k2].idx() == g[cell.idx()] as int,
    {
        let d = ds[k];
        let mut bb = b.duplicate();
        match bb.place(cell, d) {
            Ok(()) => {
                match solve_rec(&bb, fuel - 1) {
                    Some(sol) => {
                        proof {
                            lemma_placed_preserved_trans(board@, b@, bb@);
                            lemma_placed_preserved_trans(board@, bb@, sol@);
                        }
                        return Some(sol);
                    }
                    None => {
                        proof {
                            assert forall|g: Seq<u8>|
                                consistent(b@, g) && fuel > num_open(b@) implies exists|k2: int|
                                    k + 1 <= k2 < ds@.len() && ds@[k2].idx() == g[cell.idx()] as int by {
                                let k2 = choose|k2: int|
                                    k <= k2 < ds@.len() && ds@[k2].idx() == g[cell.idx()] as int;
                                if k2 == k as int {
                                    lemma_place_preserves_consistent(b@, bb@, g, cell.idx());
                                    lemma_num_open(b@, bb@);
                                    assert(is_placed(bb@[cell.idx()]));
                                    assert(num_open(bb@) < num_open(b@));
                                    assert(consistent(bb@, g));
                                    assert(fuel - 1 > num_open(bb@));
                                    assert(false);
                                }
                            }
                        }
                    }
                }
            }
            Err(_) => {
                proof {
                    assert forall|g: Seq<u8>|
                        consistent(b@, g) && fuel > num_open(b@) implies exists|k2: int|
                            k + 1 <= k2 < ds@.len() && ds@[k2].idx() == g[cell.idx()] as int by {
                        let k2 = choose|k2: int|
                            k <= k2 < ds@.len() && ds@[k2].idx() == g[cell.idx()] as int;
                        if k2 == k as int {
                            lemma_place_ok_consistent(b@, g, cell.idx());
                            assert(false);
                        }
                    }
                }
            }
        }
    }
    proof {
        assert forall|g: Seq<u8>|
            consistent(board@, g) implies !(fuel > num_open(board@)) by {
            if fuel > num_open(board@) {
                lemma_num_open(board@, b@);
                assert(consistent(b@, g));
                assert(fuel > num_open(b@));
                assert(false);
            }
        }
    }
    None
}

/// Solve the given grid: a grid is returned if and only if the input has a
/// solved completion, and the returned grid is such a completion, keeping
/// every clue of the input.
pub fn solve(s: &Sudoku) -> (r: Option<Sudoku>)
    requires
        s.wf(),
    ensures
        r matches Some(sol) ==> sol.wf() && spec_solved(sol@) && grid_extends(s@, sol@),
        (exists|g: Seq<u8>| spec_solved(g) && grid_extends(s@, g)) ==> r is Some,
{
    let b = match Board::from_grid(s) {
        Ok(b) => b,
        Err(_) => {
            return None;
        },
    };
    proof {
        lemma_num_open(b@, b@);
    }
    match solve_rec(&b, 82) {
        None => {
            proof {
                assert forall|g: Seq<u8>| !(spec_solved(g) && grid_extends(s@, g)) by {
                    if spec_solved(g) && grid_extends(s@, g) {
                        assert(consistent(b@, g));
                        assert(false);
                    }
                }
            }
            None
        },
        Some(bb) => {
            let sol = bb.to_sudoku();
            proof {
                lemma_solved_board_grid(bb@, sol@);
                assert forall|i: int| 0 <= i < 81 && #[trigger] s@[i] != 0 implies sol@[i]
                    == s@[i] by {
                    assert(is_placed(b@[i]) && placed_digit(b@[i]) == s@[i]);
                    assert(is_placed(bb@[i]) && placed_digit(bb@[i]) == s@[i]);
                }
            }
            Some(sol)
        }
    }
}

/// Count the completions of the board, stopping as soon as `cap` many are
/// found. A positive count witnesses a solved grid that keeps every
/// placement of the input.
fn count_rec(board: &Board, cap: u32, fuel: u8) -> (r: u32)
    requires
        board.wf(),
        cap >= 1,
    ensures
        r <= cap,
        r >= 1 ==> exists|g: Seq<u8>| spec_solved(g) && board_grid_extends(board@, g),
        r >= 2 ==> exists|g1: Seq<u8>, g2: Seq<u8>|
            spec_solved(g1) && spec_solved(g2) && board_grid_extends(board@, g1)
                && board_grid_extends(board@, g2) && g1 != g2,
        (exists|g: Seq<u8>| consistent(board@, g)) && fuel > num_open(board@) ==> r >= 1,
        forall|g1: Seq<u8>, g2: Seq<u8>|
            consistent(board@, g1) && consistent(board@, g2) && g1 != g2 && fuel > num_open(
                board@,
            ) && cap >= 2 ==> r >= 2,
    decreases fuel,
{
    if fuel == 0 {
        return 0;
    }
    let mut b = board.duplicate();
    match propagate(&mut b) {
        Ok(()) => {
        }
        Err(_) => {
            return 0;
        }
    }
    let cell = match b.best_open_cell() {
        None => {
            let sol = b.to_sudoku();
            proof {
                lemma_solved_board_grid(b@, sol@);
                assert forall|i: int|
                    0 <= i < 81 && is_placed(#[trigger] board@[i]) implies sol@[i] == placed_digit(
                    board@[i],
                ) by {
                    assert(is_placed(b@[i]) && placed_digit(b@[i]) == placed_digit(board@[i]));
                }
                assert(board_grid_extends(board@, sol@));
                // With every cell placed, at most one completion remains.
                assert forall|g1: Seq<u8>, g2: Seq<u8>|
                    consistent(board@, g1) && consistent(board@, g2) implies g1 == g2 by {
                    assert(consistent(b@, g1) && consistent(b@, g2));
                    assert forall|i: int| 0 <= i < 81 implies g1[i] == g2[i] by {
                        assert(is_placed(b@[i]));
                    }
                    assert(g1 =~= g2);
                }
            }
            return 1;
        },
        Some(cell) => cell,
    };
    let t = match b.state(cell.get()) {
        CellState::Open(t) => t,
        CellState::Placed(_) => {
            proof {
                assert(false);
            }
            return 0;
        },
    };
    let ds = t.items();
    let n = ds.len();
    let mut cnt: u32 = 0;
    proof {
        assert forall|g: Seq<u8>|
            consistent(b@, g) && fuel > num_open(b@) implies exists|k2: int|
                0 <= k2 < ds@.len() && ds@[k2].idx() == g[cell.idx()] as int by {
            assert(cands(b@[cell.idx()]).contains(g[cell.idx()] as int));
            assert(t@.contains(g[cell.idx()] as int));
        }
    }
    for k in 0..n
        invariant
            b.wf(),
            board.wf(),
            placed_preserved(board@, b@),
            cell.wf(),
            !is_placed(b@[cell.idx()]),
            n == ds@.len(),
            fuel >= 1,
            cap >= 1,
            cnt <= cap,
            forall|k2: int| 0 <= k2 < ds@.len() ==> (#[trigger] ds@[k2]).wf(),
            forall|k1: int, k2: int| 0 <= k1 < k2 < ds@.len() ==> ds@[k1].idx() < ds@[k2].idx(),
            cnt >= 1 ==> exists|g: Seq<u8>, k0: int|
                spec_solved(g) && board_grid_extends(b@, g) && 0 <= k0 < k && g[cell.idx()] as int
                    == ds@[k0].idx(),
            cnt >= 2 ==> exists|g1: Seq<u8>, g2: Seq<u8>|
                spec_solved(g1) && spec_solved(g2) && board_grid_extends(b@, g1)
                    && board_grid_extends(b@, g2) && g1 != g2,
            forall|g: Seq<u8>| consistent(board@, g) ==> consistent(b@, g),
            forall|g: Seq<u8>|
                consistent(b@, g) && fuel > num_open(b@) ==> cnt >= 1 || exists|k2: int|
                    k <= k2 < ds@.len() && ds@[k2].idx() == g[cell.idx()] as int,
            forall|g1: Seq<u8>, g2: Seq<u8>|
                consistent(b@, g1) && consistent(b@, g2) && g1 != g2 && fuel > num_open(b@) && cap
                    >= 2 ==> cnt >= 2 || (cnt >= 1 && exists|kk: int|
                    k <= kk < ds@.len() && (ds@[kk].idx() == g1[cell.idx()] as int || ds@[kk].idx()
                        == g2[cell.idx()] as int)) || ((exists|k1: int|
                    k <= k1 < ds@.len() && ds@[k1].idx() == g1[cell.idx()] as int) && (exists|
                    k2: int,
                |
                    k <= k2 < ds@.len() && ds@[k2].idx() == g2[cell.idx()] as int)),
    {
        if cnt < cap {
            let d = ds[k];
            let mut bb = b.duplicate();
            match bb.place(cell, d) {
                Ok(()) => {
                    let sub = count_rec(&bb, cap - cnt, fuel - 1);
                    let ghost old_cnt = cnt as int;
                    proof {
                        if sub >= 1 {
                            // The branch's witness agrees with the branch
                            // digit at the chosen cell.
                            let g = choose|g: Seq<u8>|
                                spec_solved(g) && board_grid_extends(bb@, g);
                            assert(is_placed(bb@[cell.idx()]) && placed_digit(bb@[cell.idx()])
                                == d.idx());
                            assert(g[cell.idx()] as int == ds@[k as int].idx());
                            assert forall|i: int|
                                0 <= i < 81 && is_placed(#[trigger] b@[i]) implies g[i]
                                == placed_digit(b@[i]) by {
                                assert(is_placed(bb@[i]));
                            }
                            assert(board_grid_extends(b@, g));
                        }
                        if sub >= 2 {
                            let (g1, g2) = choose|g1: Seq<u8>, g2: Seq<u8>|
                                spec_solved(g1) && spec_solved(g2) && board_grid_extends(bb@, g1)
                                    && board_grid_extends(bb@, g2) && g1 != g2;
                            assert forall|i: int|
                                0 <= i < 81 && is_placed(#[trigger] b@[i]) implies g1[i]
                                == placed_digit(b@[i]) && g2[i] == placed_digit(b@[i]) by {
                                assert(is_placed(bb@[i]));
                            }
                            assert(board_grid_extends(b@, g1) && board_grid_extends(b@, g2));
                        }
                        if old_cnt >= 1 && sub >= 1 {
                            // The earlier witness took an earlier branch
                            // digit, so the two witnesses differ.
                            let (g1, k0) = choose|g1: Seq<u8>, k0: int|
                                spec_solved(g1) && board_grid_extends(b@, g1) && 0 <= k0 < k
                                    && g1[cell.idx()] as int == ds@[k0].idx();
                            let g2 = choose|g: Seq<u8>|
                                spec_solved(g) && board_grid_extends(bb@, g);
                            assert(ds@[k0].idx() < ds@[k as int].idx());
                            assert(g2[cell.idx()] as int == ds@[k as int].idx());
                            assert forall|i: int|
                                0 <= i < 81 && is_placed(#[trigger] b@[i]) implies g2[i]
                                == placed_digit(b@[i]) by {
                                assert(is_placed(bb@[i]));
                            }
                            assert(board_grid_extends(b@, g2));
                            assert(g1 != g2);
                        }
                        assert forall|g: Seq<u8>|
                            consistent(b@, g) && fuel > num_open(b@) implies cnt + sub >= 1
                            || exists|k2: int|
                                k + 1 <= k2 < ds@.len() && ds@[k2].idx() == g[cell.idx()] as int by {
                            if cnt < 1 && cnt + sub < 1 {
                                let k2 = choose|k2: int|
                                    k <= k2 < ds@.len() && ds@[k2].idx() == g[cell.idx()] as int;
                                if k2 == k as int {
                                    lemma_place_preserves_consistent(b@, bb@, g, cell.idx());
                                    lemma_num_open(b@, bb@);
                                    assert(is_placed(bb@[cell.idx()]));
                                    assert(consistent(bb@, g));
                                    assert(fuel - 1 > num_open(bb@));
                                    assert(sub >= 1);
                                    assert(false);
                                }
                            }
                        }
                    }
                    cnt = cnt + sub;
                    proof {
                        assert forall|g1: Seq<u8>, g2: Seq<u8>|
                            consistent(b@, g1) && consistent(b@, g2) && g1 != g2 && fuel
                                > num_open(b@) && cap >= 2 implies cnt >= 2 || (cnt >= 1 && exists|
                            kk: int,
                        |
                            k + 1 <= kk < ds@.len() && (ds@[kk].idx() == g1[cell.idx()] as int
                                || ds@[kk].idx() == g2[cell.idx()] as int)) || ((exists|k1: int|
                            k + 1 <= k1 < ds@.len() && ds@[k1].idx() == g1[cell.idx()] as int) && (
                        exists|k2: int|
                            k + 1 <= k2 < ds@.len() && ds@[k2].idx() == g2[cell.idx()] as int)) by {
                            lemma_num_open(b@, bb@);
                            assert(is_placed(bb@[cell.idx()]));
                            if old_cnt >= 2 {
                            } else if old_cnt >= 1 && exists|kk: int|
                                k <= kk < ds@.len() && (ds@[kk].idx() == g1[cell.idx()] as int
                                    || ds@[kk].idx() == g2[cell.idx()] as int) {
                                let kk = choose|kk: int|
                                    k <= kk < ds@.len() && (ds@[kk].idx() == g1[cell.idx()] as int
                                        || ds@[kk].idx() == g2[cell.idx()] as int);
                                if kk == k as int {
                                    if ds@[kk].idx() == g1[cell.idx()] as int {
                                        lemma_place_preserves_consistent(b@, bb@, g1, cell.idx());
                                        assert(sub >= 1);
                                    } else {
                                        lemma_place_preserves_consistent(b@, bb@, g2, cell.idx());
                                        assert(sub >= 1);
                                    }
                                    assert(cnt >= 2);
                                }
                            } else {
                                let k1 = choose|k1: int|
                                    k <= k1 < ds@.len() && ds@[k1].idx() == g1[cell.idx()] as int;
                                let k2 = choose|k2: int|
                                    k <= k2 < ds@.len() && ds@[k2].idx() == g2[cell.idx()] as int;
                                if k1 == k as int && k2 == k as int {
                                    lemma_place_preserves_consistent(b@, bb@, g1, cell.idx());
                                    lemma_place_preserves_consistent(b@, bb@, g2, cell.idx());
                                    assert(consistent(bb@, g1) && consistent(bb@, g2));
                                    assert(fuel - 1 > num_open(bb@));
                                    if cap - old_cnt >= 2 {
                                        assert(sub >= 2);
                                        assert(cnt >= 2);
                                    } else {
                                        assert(old_cnt >= 1);
                                        assert(sub >= 1);
                                        assert(cnt >= 2);
                                    }
                                } else if k1 == k as int {
                                    lemma_place_preserves_consistent(b@, bb@, g1, cell.idx());
                                    assert(sub >= 1);
                                    assert(cnt >= 1);
                                    assert(k + 1 <= k2 < ds@.len() && ds@[k2].idx()
                                        == g2[cell.idx()] as int);
                                } else if k2 == k as int {
                                    lemma_place_preserves_consistent(b@, bb@, g2, cell.idx());
                                    assert(sub >= 1);
                                    assert(cnt >= 1);
                                    assert(k + 1 <= k1 < ds@.len() && ds@[k1].idx()
                                        == g1[cell.idx()] as int);
                                }
                            }
                        }
                    }
                }
                Err(_) => {
                    proof {
                        assert forall|g: Seq<u8>|
                            consistent(b@, g) && fuel > num_open(b@) implies cnt >= 1 || exists|
                            k2: int,
                        | k + 1 <= k2 < ds@.len() && ds@[k2].idx() == g[cell.idx()] as int by {
                            if cnt < 1 {
                                let k2 = choose|k2: int|
                                    k <= k2 < ds@.len() && ds@[k2].idx() == g[cell.idx()] as int;
                                if k2 == k as int {
                                    lemma_place_ok_consistent(b@, g, cell.idx());
                                    assert(false);
                                }
                            }
                        }
                        assert forall|g1: Seq<u8>, g2: Seq<u8>|
                            consistent(b@, g1) && consistent(b@, g2) && g1 != g2 && fuel
                                > num_open(b@) && cap >= 2 implies cnt >= 2 || (cnt >= 1 && exists|
                            kk: int,
                        |
                            k + 1 <= kk < ds@.len() && (ds@[kk].idx() == g1[cell.idx()] as int
                                || ds@[kk].idx() == g2[cell.idx()] as int)) || ((exists|k1: int|
                            k + 1 <= k1 < ds@.len() && ds@[k1].idx() == g1[cell.idx()] as int) && (
                        exists|k2: int|
                            k + 1 <= k2 < ds@.len() && ds@[k2].idx() == g2[cell.idx()] as int)) by {
                            if ds@[k as int].idx() == g1[cell.idx()] as int {
                                lemma_place_ok_consistent(b@, g1, cell.idx());
                                assert(false);
                            }
                            if ds@[k as int].idx() == g2[cell.idx()] as int {
                                lemma_place_ok_consistent(b@, g2, cell.idx());
                                assert(false);
                            }
                            if cnt >= 2 {
                            } else if cnt >= 1 && exists|kk: int|
                                k <= kk < ds@.len() && (ds@[kk].idx() == g1[cell.idx()] as int
                                    || ds@[kk].idx() == g2[cell.idx()] as int) {
                                let kk = choose|kk: int|
                                    k <= kk < ds@.len() && (ds@[kk].idx() == g1[cell.idx()] as int
                                        || ds@[kk].idx() == g2[cell.idx()] as int);
                                assert(kk != k as int);
                            } else {
                                let k1 = choose|k1: int|
                                    k <= k1 < ds@.len() && ds@[k1].idx() == g1[cell.idx()] as int;
                                let k2 = choose|k2: int|
                                    k <= k2 < ds@.len() && ds@[k2].idx() == g2[cell.idx()] as int;
                                assert(k1 != k as int && k2 != k as int);
                            }
                        }
                    }
                }
            }
        } else {
            proof {
                assert(cnt >= 1);
            }
        }
    }
    proof {
        if cnt >= 1 {
            let (g, k0) = choose|g: Seq<u8>, k0: int|
                spec_solved(g) && board_grid_extends(b@, g) && 0 <= k0 < n && g[cell.idx()] as int
                    == ds@[k0].idx();
            assert forall|i: int|
                0 <= i < 81 && is_placed(#[trigger] board@[i]) implies g[i] == placed_digit(
                board@[i],
            ) by {
                assert(is_placed(b@[i]));
            }
            assert(board_grid_extends(board@, g));
        }
        if cnt >= 2 {
            let (g1, g2) = choose|g1: Seq<u8>, g2: Seq<u8>|
                spec_solved(g1) && spec_solved(g2) && board_grid_extends(b@, g1)
                    && board_grid_extends(b@, g2) && g1 != g2;
            assert forall|i: int|
                0 <= i < 81 && is_placed(#[trigger] board@[i]) implies g1[i] == placed_digit(
                board@[i],
            ) && g2[i] == placed_digit(board@[i]) by {
                assert(is_placed(b@[i]));
            }
            assert(board_grid_extends(board@, g1) && board_grid_extends(board@, g2));
        }
        assert forall|g: Seq<u8>|
            consistent(board@, g) && fuel > num_open(board@) implies cnt >= 1 by {
            lemma_num_open(board@, b@);
            assert(consistent(b@, g));
            assert(fuel > num_open(b@));
        }
        assert forall|g1: Seq<u8>, g2: Seq<u8>|
            consistent(board@, g1) && consistent(board@, g2) && g1 != g2 && fuel > num_open(
                board@,
            ) && cap >= 2 implies cnt >= 2 by {
            lemma_num_open(board@, b@);
            assert(consistent(b@, g1) && consistent(b@, g2));
            assert(fuel > num_open(b@));
        }
    }
    cnt
}

/// Count the completions of the given grid, up to `cap`. The count is
/// positive if and only if the grid has a solved completion, and a
/// positive count witnesses one that keeps every clue. A count of 2 or
/// more witnesses two distinct completions, and a count below the cap
/// undercounts nothing, so with `cap >= 2` a result of 1 means the grid
/// has exactly one solution and a result of 2 means it has several.
pub fn count_solutions(s: &Sudoku, cap: u32) -> (r: u32)
    requires
        s.wf(),
        cap >= 1,
    ensures
        r <= cap,
        r >= 1 ==> exists|g: Seq<u8>| spec_solved(g) && grid_extends(s@, g),
        r >= 2 ==> exists|g1: Seq<u8>, g2: Seq<u8>|
            spec_solved(g1) && grid_extends(s@, g1) && spec_solved(g2) && grid_extends(s@, g2)
                && g1 != g2,
        (exists|g: Seq<u8>| spec_solved(g) && grid_extends(s@, g)) ==> r >= 1,
        r < cap ==> forall|g1: Seq<u8>, g2: Seq<u8>|
            spec_solved(g1) && grid_extends(s@, g1) && spec_solved(g2) && grid_extends(s@, g2)
                && g1 != g2 ==> r >= 2,
{
    let b = match Board::from_grid(s) {
        Ok(b) => b,
        Err(_) => {
            return 0;
        },
    };
    let ghost bv = b@;
    proof {
        lemma_num_open(b@, b@);
    }
    let r = count_rec(&b, cap, 82);
    proof {
        if r >= 1 {
            let g = choose|g: Seq<u8>| spec_solved(g) && board_grid_extends(bv, g);
            assert forall|i: int| 0 <= i < 81 && #[trigger] s@[i] != 0 implies g[i] == s@[i] by {
                assert(is_placed(bv[i]) && placed_digit(bv[i]) == s@[i]);
            }
            assert(grid_extends(s@, g));
        }
        if r >= 2 {
            let (g1, g2) = choose|g1: Seq<u8>, g2: Seq<u8>|
                spec_solved(g1) && spec_solved(g2) && board_grid_extends(bv, g1)
                    && board_grid_extends(bv, g2) && g1 != g2;
            assert forall|i: int|
                0 <= i < 81 && #[trigger] s@[i] != 0 implies g1[i] == s@[i] && g2[i] == s@[i] by {
                assert(is_placed(bv[i]) && placed_digit(bv[i]) == s@[i]);
            }
            assert(grid_extends(s@, g1) && grid_extends(s@, g2));
        }
        if r < cap && cap >= 2 {
            assert forall|g1: Seq<u8>, g2: Seq<u8>|
                spec_solved(g1) && grid_extends(s@, g1) && spec_solved(g2) && grid_extends(
                    s@,
                    g2,
                ) && g1 != g2 implies r >= 2 by {
                assert(consistent(bv, g1) && consistent(bv, g2));
            }
        }
    }
    r
}

} // verus!
