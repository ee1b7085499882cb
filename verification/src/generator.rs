//! The puzzle generator.
//!
//! A full grid is produced by running the search on an empty board with the
//! candidate order shuffled by the caller's seeded generator. Digits are
//! then removed in random order, each removal kept only while the puzzle
//! still has exactly one solution, the solver serving as the oracle; cells
//! whose removal would admit a second solution are restored. Whatever the
//! random samples, generation always completes and the puzzle always has
//! exactly one solved completion.

use vstd::prelude::*;
use crate::board::Sudoku;
use crate::board::grid_extends;
use crate::board::lemma_exists_solved_grid;
use crate::board::spec_solved;
use crate::candidates::Board;
use crate::candidates::CellState;
use crate::candidates::all_placed;
use crate::candidates::cands;
use crate::candidates::consistent;
use crate::candidates::is_placed;
use crate::candidates::lemma_place_ok_consistent;
use crate::candidates::lemma_place_preserves_consistent;
use crate::candidates::lemma_placed_preserved_trans;
use crate::candidates::placed_preserved;
use crate::digit::Digit;
use crate::rng::rng_below;
use crate::rng::rng_from_seed;
use crate::solver::count_solutions;
use crate::solver::lemma_num_open;
use crate::solver::lemma_solved_board_grid;
use crate::solver::num_open;

verus! {

/// Some entry of the list holds this digit value.
pub open spec fn has_digit_value(s: Seq<Digit>, dv: int) -> bool {
    exists|k: int| 0 <= k < s.len() && (#[trigger] s[k]).idx() == dv
}

/// Some entry of the list holds this cell index.
pub open spec fn has_cell_value(s: Seq<u8>, xv: u8) -> bool {
    exists|k: int| 0 <= k < s.len() && #[trigger] s[k] == xv
}

/// Shuffle the digits in place with the caller's generator. The digits
/// themselves are kept: a value is in the shuffled list iff it was in the
/// input.
fn shuffle_digits(v: &mut Vec<Digit>, rng: &mut rand::rngs::StdRng)
    requires
        old(v)@.len() <= 81,
        forall|k: int| 0 <= k < old(v)@.len() ==> (#[trigger] old(v)@[k]).wf(),
    ensures
        final(v)@.len() == old(v)@.len(),
        forall|k: int| 0 <= k < final(v)@.len() ==> (#[trigger] final(v)@[k]).wf(),
        forall|dv: int| #[trigger] has_digit_value(final(v)@, dv) <==> has_digit_value(
            old(v)@,
            dv,
        ),
{
    let n = v.len();
    if n <= 1 {
        return ;
    }
    let mut i = n - 1;
    while i > 0
        invariant
            v@.len() == old(v)@.len(),
            old(v)@.len() <= 81,
            i < v@.len(),
            forall|k: int| 0 <= k < v@.len() ==> (#[trigger] v@[k]).wf(),
            forall|dv: int| #[trigger] has_digit_value(v@, dv) <==> has_digit_value(
                old(v)@,
                dv,
            ),
        decreases i,
    {
        let j = rng_below(rng, (i + 1) as u8) as usize;
        let ghost before = v@;
        let a = v[i];
        let b = v[j];
        v.set(i, b);
        v.set(j, a);
        proof {
            assert forall|dv: int| #[trigger] has_digit_value(v@, dv) <==> has_digit_value(
                before,
                dv,
            ) by {
                if has_digit_value(v@, dv) {
                    let k = choose|k: int| 0 <= k < v@.len() && (#[trigger] v@[k]).idx() == dv;
                    if k == j as int {
                        assert(before[i as int].idx() == dv);
                    } else if k == i as int {
                        assert(before[j as int].idx() == dv);
                    } else {
                        assert(before[k].idx() == dv);
                    }
                }
                if has_digit_value(before, dv) {
                    let k = choose|k: int|
                        0 <= k < before.len() && (#[trigger] before[k]).idx() == dv;
                    if k == i as int {
                        assert(v@[j as int].idx() == dv);
                    } else if k == j as int {
                        assert(v@[i as int].idx() == dv);
                    } else {
                        assert(v@[k].idx() == dv);
                    }
                }
            }
        }
        i = i - 1;
    }
}

/// Shuffle the cell indices in place with the caller's generator. The
/// indices themselves are kept: a value is in the shuffled list iff it was
/// in the input.
fn shuffle_cells(v: &mut Vec<u8>, rng: &mut rand::rngs::StdRng)
    requires
        old(v)@.len() <= 81,
        forall|k: int| 0 <= k < old(v)@.len() ==> #[trigger] old(v)@[k] < 81,
    ensures
        final(v)@.len() == old(v)@.len(),
        forall|k: int| 0 <= k < final(v)@.len() ==> #[trigger] final(v)@[k] < 81,
        forall|xv: u8| #[trigger] has_cell_value(final(v)@, xv) <==> has_cell_value(
            old(v)@,
            xv,
        ),
{
    let n = v.len();
    if n <= 1 {
        return ;
    }
    let mut i = n - 1;
    while i > 0
        invariant
            v@.len() == old(v)@.len(),
            old(v)@.len() <= 81,
            i < v@.len(),
            forall|k: int| 0 <= k < v@.len() ==> #[trigger] v@[k] < 81,
            forall|xv: u8| #[trigger] has_cell_value(v@, xv) <==> has_cell_value(old(v)@, xv),
        decreases i,
    {
        let j = rng_below(rng, (i + 1) as u8) as usize;
        let ghost before = v@;
        let a = v[i];
        let b = v[j];
        v.set(i, b);
        v.set(j, a);
        proof {
            assert forall|xv: u8| #[trigger] has_cell_value(v@, xv) <==> has_cell_value(
                before,
                xv,
            ) by {
                if has_cell_value(v@, xv) {
                    let k = choose|k: int| 0 <= k < v@.len() && #[trigger] v@[k] == xv;
                    if k == j as int {
                        assert(before[i as int] == xv);
                    } else if k == i as int {
                        assert(before[j as int] == xv);
                    } else {
                        assert(before[k] == xv);
                    }
                }
                if has_cell_value(before, xv) {
                    let k = choose|k: int| 0 <= k < before.len() && #[trigger] before[k] == xv;
                    if k == i as int {
                        assert(v@[j as int] == xv);
                    } else if k == j as int {
                        assert(v@[i as int] == xv);
                    } else {
                        assert(v@[k] == xv);
                    }
                }
            }
        }
        i = i - 1;
    }
}

/// Search for a completion of the board, trying the branch digits in an
/// order shuffled by the caller's generator. A returned board is fully
/// placed, well formed and keeps every placement of the input; and while a
/// solved completion is reachable and the fuel covers the open cells, some
/// board is returned, whatever the samples.
fn solve_randomized(board: &Board, rng: &mut rand::rngs::StdRng, fuel: u8) -> (r: Option<Board>)
    requires
        board.wf(),
    ensures
        r matches Some(bb) ==> bb.wf() && all_placed(bb@) && placed_preserved(board@, bb@),
        (exists|g: Seq<u8>| consistent(board@, g)) && fuel > num_open(board@) ==> r is Some,
    decreases fuel,
{
    if fuel == 0 {
        return None;
    }
    let mut b = board.duplicate();
    match crate::solver::propagate(&mut b) {
        Ok(()) => {
        }
        Err(_) => {
            return None;
        }
    }
    let cell = match b.best_open_cell() {
        None => {
            return Some(b);
        },
        Some(cell) => cell,
    };
    let t = match b.state(cell.get()) {
        CellState::Open(t) => t,
        CellState::Placed(_) => {
            proof {
                assert(false);
            }
            return None;
        },
    };
    let mut ds = t.items();
    proof {
        crate::bitset::lemma_digit_set_view_bounds(t);
        crate::bitset::lemma_digit_set_finite(t@);
    }
    let ghost ds0 = ds@;
    shuffle_digits(&mut ds, rng);
    let n = ds.len();
    proof {
        assert forall|g: Seq<u8>|
            consistent(b@, g) && fuel > num_open(b@) implies exists|k2: int|
                0 <= k2 < ds@.len() && ds@[k2].idx() == g[cell.idx()] as int by {
            assert(cands(b@[cell.idx()]).contains(g[cell.idx()] as int));
            assert(t@.contains(g[cell.idx()] as int));
            assert(has_digit_value(ds0, g[cell.idx()] as int));
            assert(has_digit_value(ds@, g[cell.idx()] as int));
        }
    }
    for k in 0..n
        invariant
            b.wf(),
            board.wf(),
            placed_preserved(board@, b@),
            cell.wf(),
            !is_placed(b@[cell.idx()]),
            n == ds@.len(),
            fuel >= 1,
            forall|k2: int| 0 <= k2 < ds@.len() ==> (#[trigger] ds@[k2]).wf(),
            forall|g: Seq<u8>| consistent(board@, g) ==> consistent(b@, g),
            forall|g: Seq<u8>|
                consistent(b@, g) && fuel > num_open(b@) ==> exists|k2: int|
                    k <= k2 < ds@.len() && ds@[k2].idx() == g[cell.idx()] as int,
    {
        let d = ds[k];
        let mut bb = b.duplicate();
        match bb.place(cell, d) {
            Ok(()) => {
                match solve_randomized(&bb, rng, fuel - 1) {
                    Some(sol) => {
                        proof {
                            lemma_placed_preserved_trans(board@, b@, bb@);
                            lemma_placed_preserved_trans(board@, bb@, sol@);
                        }
                        return Some(sol);
                    }
                    None => {
                        proof {
                            assert forall|g: Seq<u8>|
                                consistent(b@, g) && fuel > num_open(b@) implies exists|k2: int|
                                    k + 1 <= k2 < ds@.len() && ds@[k2].idx() == g[cell.idx()] as int by {
                                let k2 = choose|k2: int|
                                    k <= k2 < ds@.len() && ds@[k2].idx() == g[cell.idx()] as int;
                                if k2 == k as int {
                                    lemma_place_preserves_consistent(b@, bb@, g, cell.idx());
                                    lemma_num_open(b@, bb@);
                                    assert(is_placed(bb@[cell.idx()]));
                                    assert(num_open(bb@) < num_open(b@));
                                    assert(consistent(bb@, g));
                                    assert(fuel - 1 > num_open(bb@));
                                    assert(false);
                                }
                            }
                        }
                    }
                }
            }
            Err(_) => {
                proof {
                    assert forall|g: Seq<u8>|
                        consistent(b@, g) && fuel > num_open(b@) implies exists|k2: int|
                            k + 1 <= k2 < ds@.len() && ds@[k2].idx() == g[cell.idx()] as int by {
                        let k2 = choose|k2: int|
                            k <= k2 < ds@.len() && ds@[k2].idx() == g[cell.idx()] as int;
                        if k2 == k as int {
                            lemma_place_ok_consistent(b@, g, cell.idx());
                            assert(false);
                        }
                    }
                }
            }
        }
    }
    proof {
        assert forall|g: Seq<u8>|
            consistent(board@, g) implies !(fuel > num_open(board@)) by {
            if fuel > num_open(board@) {
                lemma_num_open(board@, b@);
                assert(consistent(b@, g));
                assert(fuel > num_open(b@));
                assert(false);
            }
        }
    }
    None
}

/// Generate a puzzle from the caller's seeded generator: fill a full grid
/// by randomized search, then clear cells in random order, keeping each
/// clearing only while the solver still counts exactly one solution. The
/// search always completes, and the puzzle always has exactly one solved
/// completion, whatever the random samples.
pub fn generate(rng: &mut rand::rngs::StdRng) -> (r: Sudoku)
    ensures
        r.wf(),
        exists|g: Seq<u8>|
            spec_solved(g) && grid_extends(r@, g) && (forall|g2: Seq<u8>|
                spec_solved(g2) && grid_extends(r@, g2) ==> g2 == g),
{
    let eb = Board::empty();
    proof {
        lemma_exists_solved_grid();
        let g0 = choose|g: Seq<u8>| spec_solved(g);
        assert(consistent(eb@, g0));
        lemma_num_open(eb@, eb@);
    }
    let fb = match solve_randomized(&eb, rng, 82) {
        Some(fb) => fb,
        None => {
            proof {
                assert(false);
            }
            Board::empty()
        },
    };
    let full = fb.to_sudoku();
    proof {
        lemma_solved_board_grid(fb@, full@);
    }
    let mut puzzle = full.duplicate();
    proof {
        assert forall|g: Seq<u8>|
            spec_solved(g) && grid_extends(puzzle@, g) implies g == full@ by {
            assert forall|i: int| 0 <= i < 81 implies g[i] == full@[i] by {
                assert(1 <= full@[i] <= 9);
            }
            assert(g =~= full@);
        }
    }
    let mut order: Vec<u8> = Vec::new();
    for i in 0..81u8
        invariant
            order@.len() == i as int,
            forall|k: int| 0 <= k < order@.len() ==> #[trigger] order@[k] < 81,
    {
        order.push(i);
    }
    shuffle_cells(&mut order, rng);
    let n = order.len();
    for k in 0..n
        invariant
            puzzle.wf(),
            full.wf(),
            spec_solved(full@),
            n == order@.len(),
            forall|k2: int| 0 <= k2 < order@.len() ==> #[trigger] order@[k2] < 81,
            forall|i: int| 0 <= i < 81 ==> puzzle@[i] == 0 || puzzle@[i] == full@[i],
            puzzle@.len() == 81,
            forall|g: Seq<u8>| spec_solved(g) && grid_extends(puzzle@, g) ==> g == full@,
    {
        let ghost entry = puzzle@;
        let i = order[k];
        let saved = puzzle.get_cell(i);
        if saved != 0 {
            puzzle.set_cell(i, 0);
            let cnt = count_solutions(&puzzle, 2);
            if cnt != 1 {
                puzzle.set_cell(i, saved);
                proof {
                    assert(puzzle@ =~= entry);
                }
            } else {
                proof {
                    assert(grid_extends(puzzle@, full@));
                    assert forall|g: Seq<u8>|
                        spec_solved(g) && grid_extends(puzzle@, g) implies g == full@ by {
                        if g != full@ {
                            assert(cnt >= 2);
                        }
                    }
                }
            }
        }
    }
    proof {
        assert(grid_extends(puzzle@, full@));
    }
    puzzle
}

/// Generate a puzzle deterministically from a 32-byte seed. The puzzle has
/// exactly one solved completion.
pub fn generate_from_seed(seed: [u8; 32]) -> (r: Sudoku)
    ensures
        r.wf(),
        exists|g: Seq<u8>|
            spec_solved(g) && grid_extends(r@, g) && (forall|g2: Seq<u8>|
                spec_solved(g2) && grid_extends(r@, g2) ==> g2 == g),
{
    let mut rng = rng_from_seed(seed);
    generate(&mut rng)
}

} // verus!
