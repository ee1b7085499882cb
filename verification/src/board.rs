//! The sudoku grid: 81 digits, 0 standing for a blank.
//!
//! The grid is the interchange form of the engine: puzzles and solutions
//! cross the boundary as a 9x9 array of digits, row-major, with 0 for a
//! blank. `is_solved` is the authoritative validity check for a filled grid.

use vstd::prelude::*;
use crate::positions::House;
use crate::positions::Position;
use crate::positions::CellAt;
use crate::positions::house_cell_at;
use crate::positions::lemma_cell_div_mod;
use crate::positions::lemma_house_enum;
use crate::positions::lemma_enum_card_upper;
use crate::positions::lemma_small_div3;
use crate::positions::lemma_small_div9;
use crate::positions::same_house;
use crate::positions::house_cells;
use crate::positions::spec_block;
use crate::positions::spec_col;
use crate::positions::spec_row;

verus! {

/// A well-formed grid: 81 entries, each `0..=9`.
pub open spec fn grid_wf(g: Seq<u8>) -> bool {
    g.len() == 81 && forall|i: int| 0 <= i < 81 ==> #[trigger] g[i] <= 9
}

/// House `h` holds digit `d` somewhere.
pub open spec fn house_has_digit(g: Seq<u8>, h: int, d: int) -> bool {
    exists|j: int| 0 <= j < 9 && g[house_cell_at(h, j)] == d
}

/// A solved grid: every cell holds a digit `1..=9` and every house holds
/// every digit. Since each house has nine cells, this also forces every
/// house to be a permutation of the nine digits.
pub open spec fn spec_solved(g: Seq<u8>) -> bool {
    &&& g.len() == 81
    &&& forall|i: int| 0 <= i < 81 ==> 1 <= #[trigger] g[i] <= 9
    &&& forall|h: int, d: int| 0 <= h < 27 && 1 <= d <= 9 ==> #[trigger] house_has_digit(g, h, d)
}

/// Grid `g2` keeps every clue of `g1` (blanks of `g1` are free).
pub open spec fn grid_extends(g1: Seq<u8>, g2: Seq<u8>) -> bool {
    forall|i: int| 0 <= i < 81 && #[trigger] g1[i] != 0 ==> g2[i] == g1[i]
}

/// The row-major grid folded into nine rows of nine.
pub open spec fn spec_to_flat(g: Seq<u8>) -> Seq<Seq<u8>> {
    Seq::new(9, |r: int| Seq::new(9, |c: int| g[9 * r + c]))
}

/// Nine rows of nine unfolded into the row-major grid.
pub open spec fn spec_from_flat(a: Seq<Seq<u8>>) -> Seq<u8> {
    Seq::new(81, |i: int| a[i / 9][i % 9])
}

/// Folding a grid into rows and unfolding it again returns the same grid.
pub proof fn lemma_flat_roundtrip(g: Seq<u8>)
    requires
        g.len() == 81,
    ensures
        spec_from_flat(spec_to_flat(g)) == g,
{
    assert forall|i: int| 0 <= i < 81 implies spec_from_flat(spec_to_flat(g))[i] == g[i] by {
        lemma_cell_div_mod(i);
        assert(spec_to_flat(g)[i / 9][i % 9] == g[9 * (i / 9) + i % 9]);
    }
    assert(spec_from_flat(spec_to_flat(g)) =~= g);
}

/// A sudoku grid: a puzzle, a partial fill, or a full solution.
#[derive(Debug)]
pub struct Sudoku {
    cells: Vec<u8>,
}

impl View for Sudoku {
    type V = Seq<u8>;

    closed spec fn view(&self) -> Seq<u8> {
        self.cells@
    }
}

impl Sudoku {
    /// A well-formed grid: 81 entries, each `0..=9`.
    pub open spec fn wf(self) -> bool {
        grid_wf(self@)
    }

    /// The empty grid: 81 blanks.
    pub fn new_empty() -> (r: Sudoku)
        ensures
            r.wf(),
            forall|i: int| 0 <= i < 81 ==> r@[i] == 0,
    {
        let mut cells: Vec<u8> = Vec::new();
        for k in 0..81usize
            invariant
                cells@.len() == k,
                forall|i: int| 0 <= i < k ==> cells@[i] == 0,
        {
            cells.push(0);
        }
        Sudoku { cells }
    }

    /// The digit at a cell index, 0 for a blank.
    pub fn get_cell(&self, i: u8) -> (r: u8)
        requires
            self.wf(),
            i < 81,
        ensures
            r == self@[i as int],
    {
        self.cells[i as usize]
    }

    /// Overwrite the digit at a cell index.
    pub fn set_cell(&mut self, i: u8, v: u8)
        requires
            old(self).wf(),
            i < 81,
            v <= 9,
        ensures
            final(self).wf(),
            final(self)@ == old(self)@.update(i as int, v),
    {
        self.cells.set(i as usize, v);
    }

    /// An independent copy of this grid.
    pub fn duplicate(&self) -> (r: Sudoku)
        requires
            self.wf(),
        ensures
            r.wf(),
            r@ == self@,
    {
        let mut cells: Vec<u8> = Vec::new();
        for k in 0..81usize
            invariant
                self.wf(),
                cells@.len() == k,
                forall|i: int| 0 <= i < k ==> cells@[i] == self@[i],
        {
            cells.push(self.cells[k]);
        }
        proof {
            assert(cells@ =~= self@);
        }
        Sudoku { cells }
    }

    /// Build a grid from a 9x9 array of digits, row-major, 0 for a blank.
    /// Entries above 9 are a programming error; the caller validates
    /// untrusted input first.
    pub fn from_flat_array(a: &[[u8; 9]; 9]) -> (r: Sudoku)
        requires
            forall|rr: int, cc: int| 0 <= rr < 9 && 0 <= cc < 9 ==> #[trigger] a@[rr]@[cc] <= 9,
        ensures
            r.wf(),
            forall|rr: int, cc: int|
                0 <= rr < 9 && 0 <= cc < 9 ==> r@[9 * rr + cc] == #[trigger] a@[rr]@[cc],
    {
        let mut cells: Vec<u8> = Vec::new();
        for rr in 0..9usize
            invariant
                forall|r2: int, c2: int| 0 <= r2 < 9 && 0 <= c2 < 9 ==> #[trigger] a@[r2]@[c2] <= 9,
                cells@.len() == 9 * rr,
                forall|r2: int, c2: int|
                    0 <= r2 < 9 && 0 <= c2 < 9 && 9 * r2 + c2 < 9 * rr ==> cells@[9 * r2 + c2]
                        == #[trigger] a@[r2]@[c2],
                forall|i: int| 0 <= i < cells@.len() ==> #[trigger] cells@[i] <= 9,
        {
            for cc in 0..9usize
                invariant
                    forall|r2: int, c2: int|
                        0 <= r2 < 9 && 0 <= c2 < 9 ==> #[trigger] a@[r2]@[c2] <= 9,
                    rr < 9,
                    cells@.len() == 9 * rr + cc,
                    forall|r2: int, c2: int|
                        0 <= r2 < 9 && 0 <= c2 < 9 && 9 * r2 + c2 < 9 * rr + cc ==> cells@[9 * r2
                            + c2] == #[trigger] a@[r2]@[c2],
                    forall|i: int| 0 <= i < cells@.len() ==> #[trigger] cells@[i] <= 9,
            {
                cells.push(a[rr][cc]);
                proof {
                    assert forall|r2: int, c2: int|
                        0 <= r2 < 9 && 0 <= c2 < 9 && 9 * r2 + c2 < 9 * rr + cc
                            + 1 implies cells@[9 * r2 + c2] == #[trigger] a@[r2]@[c2] by {
                        if 9 * r2 + c2 == 9 * rr + cc {
                            assert(r2 == rr && c2 == cc);
                        }
                    }
                }
            }
        }
        Sudoku { cells }
    }

    /// The grid as a 9x9 array of digits, row-major, 0 for a blank.
    pub fn to_flat_array(&self) -> (a: [[u8; 9]; 9])
        requires
            self.wf(),
        ensures
            forall|rr: int, cc: int|
                0 <= rr < 9 && 0 <= cc < 9 ==> #[trigger] a@[rr]@[cc] == self@[9 * rr + cc],
    {
        let mut a: [[u8; 9]; 9] = [[0; 9]; 9];
        for rr in 0..9usize
            invariant
                self.wf(),
                forall|r2: int, c2: int|
                    0 <= r2 < 9 && 0 <= c2 < 9 && r2 < rr ==> #[trigger] a@[r2]@[c2] == self@[9 * r2
                        + c2],
        {
            for cc in 0..9usize
                invariant
                    self.wf(),
                    rr < 9,
                    forall|r2: int, c2: int|
                        0 <= r2 < 9 && 0 <= c2 < 9 && (r2 < rr || (r2 == rr && c2 < cc))
                            ==> #[trigger] a@[r2]@[c2] == self@[9 * r2 + c2],
            {
                let v = self.cells[rr * 9 + cc];
                a[rr][cc] = v;
            }
        }
        a
    }

    /// Whether this grid is a fully valid solved sudoku: every cell holds a
    /// digit and every row, column and block holds every digit.
    pub fn is_solved(&self) -> (r: bool)
        requires
            self.wf(),
        ensures
            r == spec_solved(self@),
    {
        for i in 0..81u8
            invariant
                self.wf(),
                forall|i2: int| 0 <= i2 < i ==> 1 <= #[trigger] self@[i2] <= 9,
        {
            let v = self.cells[i as usize];
            if v < 1 || v > 9 {
                return false;
            }
        }
        for h in 0..27u8
            invariant
                self.wf(),
                forall|i2: int| 0 <= i2 < 81 ==> 1 <= #[trigger] self@[i2] <= 9,
                forall|h2: int, d2: int|
                    0 <= h2 < h && 1 <= d2 <= 9 ==> #[trigger] house_has_digit(self@, h2, d2),
        {
            for d in 1..10u8
                invariant
                    self.wf(),
                    h < 27,
                    forall|i2: int| 0 <= i2 < 81 ==> 1 <= #[trigger] self@[i2] <= 9,
                    forall|h2: int, d2: int|
                        0 <= h2 < h && 1 <= d2 <= 9 ==> #[trigger] house_has_digit(self@, h2, d2),
                    forall|d2: int|
                        1 <= d2 < d ==> #[trigger] house_has_digit(self@, h as int, d2),
            {
                let mut found = false;
                let house = House::new(h);
                for j in 0..9u8
                    invariant
                        self.wf(),
                        h < 27,
                        d >= 1,
                        house.idx() == h as int,
                        house.wf(),
                        found == exists|j2: int|
                            0 <= j2 < j && self@[#[trigger] house_cell_at(h as int, j2)] == d as int,
                {
                    proof {
                        lemma_house_enum(h as int);
                    }
                    let c = house.cell_at(Position::new(j));
                    if self.cells[c.as_index()] == d {
                        found = true;
                    }
                }
                if !found {
                    proof {
                        assert(!house_has_digit(self@, h as int, d as int));
                    }
                    return false;
                }
            }
        }
        true
    }
}


/// The 9x9 array read as a row-major grid.
pub open spec fn flat_of_array(a: [[u8; 9]; 9]) -> Seq<u8> {
    Seq::new(81, |i: int| a@[i / 9]@[i % 9])
}

/// Whether a caller-supplied 9x9 array of digits is a fully valid solved
/// sudoku. Accepts any bytes: anything outside `0..=9` cannot be part of a
/// solved grid and yields `false`.
pub fn grid_is_solved(a: &[[u8; 9]; 9]) -> (r: bool)
    ensures
        r == spec_solved(flat_of_array(*a)),
{
    for rr in 0..9usize
        invariant
            forall|r2: int, c2: int|
                0 <= r2 < 9 && 0 <= c2 < 9 && r2 < rr ==> 1 <= #[trigger] a@[r2]@[c2] <= 9,
    {
        for cc in 0..9usize
            invariant
                rr < 9,
                forall|r2: int, c2: int|
                    0 <= r2 < 9 && 0 <= c2 < 9 && (r2 < rr || (r2 == rr && c2 < cc)) ==> 1
                        <= #[trigger] a@[r2]@[c2] <= 9,
        {
            let v = a[rr][cc];
            if v < 1 || v > 9 {
                proof {
                    lemma_small_div9(rr as int, cc as int);
                    assert(flat_of_array(*a)[9 * rr + cc] == a@[rr as int]@[cc as int]);
                }
                return false;
            }
        }
    }
    let s = Sudoku::from_flat_array(a);
    let r = s.is_solved();
    proof {
        assert forall|i: int| 0 <= i < 81 implies s@[i] == flat_of_array(*a)[i] by {
            lemma_cell_div_mod(i);
            assert(s@[9 * (i / 9) + i % 9] == a@[i / 9]@[i % 9]);
        }
        assert(s@ =~= flat_of_array(*a));
    }
    r
}


/// A solved grid never repeats a digit within a house: nine cells holding
/// all nine digits leave no room for a duplicate.
pub proof fn lemma_solved_distinct(g: Seq<u8>, x: int, y: int)
    requires
        spec_solved(g),
        0 <= x < 81,
        0 <= y < 81,
        x != y,
        same_house(x, y),
    ensures
        g[x] != g[y],
{
    broadcast use vstd::set::group_set_axioms;

    lemma_cell_div_mod(x);
    lemma_cell_div_mod(y);
    let h = if spec_row(x) == spec_row(y) {
        spec_row(x)
    } else if spec_col(x) == spec_col(y) {
        spec_col(x) + 9
    } else {
        spec_block(x) + 18
    };
    lemma_house_enum(h);
    assert(house_cells(h).contains(x));
    assert(house_cells(h).contains(y));
    let jx = choose|j: int| 0 <= j < 9 && x == #[trigger] house_cell_at(h, j);
    let jy = choose|j: int| 0 <= j < 9 && y == #[trigger] house_cell_at(h, j);
    assert(jx != jy);
    if g[x] == g[y] {
        // Enumerate the digits of the house while skipping `y`'s position:
        // the digit there also stands at `x`, so nothing is lost, yet only
        // eight positions remain for nine digits.
        let e = |j: int| g[house_cell_at(h, if j < jy { j } else { j + 1 })] as int;
        let image = Set::new(|dv: int| exists|j: int| 0 <= j < 8 && dv == #[trigger] e(j));
        lemma_enum_card_upper(image, e, 8);
        assert forall|d: int| 1 <= d <= 9 implies image.contains(d) by {
            assert(house_has_digit(g, h, d));
            let j = choose|j: int| 0 <= j < 9 && g[#[trigger] house_cell_at(h, j)] == d;
            if j == jy {
                if jx < jy {
                    assert(e(jx) == d);
                } else {
                    assert(e(jx - 1) == d);
                }
            } else {
                if j < jy {
                    assert(e(j) == d);
                } else {
                    assert(e(j - 1) == d);
                }
            }
        }
        vstd::set_lib::lemma_int_range(1, 10);
        vstd::set_lib::lemma_len_subset(vstd::set_lib::set_int_range(1, 10), image);
        assert(false);
    }
}


/// The rotation of row `r` in the base grid: three per row within a band,
/// one more per band.
spec fn row_key(r: int) -> int {
    3 * (r % 3) + r / 3
}

/// A closed-form solved grid: cell `(r, c)` holds `(c + row_key(r)) % 9 + 1`.
spec fn base_grid() -> Seq<u8> {
    Seq::new(81, |i: int| (((i % 9) + 3 * ((i / 9) % 3) + (i / 9) / 3) % 9 + 1) as u8)
}

/// Some solved grid exists: the base grid rotates the nine digits through
/// every row, column and block.
pub proof fn lemma_exists_solved_grid()
    ensures
        exists|g: Seq<u8>| spec_solved(g),
{
    let g = base_grid();
    assert forall|r: int, c: int|
        0 <= r < 9 && 0 <= c < 9 implies #[trigger] g[9 * r + c] == (c + row_key(r)) % 9 + 1 by {
        lemma_small_div9(r, c);
        vstd::arithmetic::div_mod::lemma_mod_bound(c + row_key(r), 9);
    }
    assert forall|i: int| 0 <= i < 81 implies 1 <= #[trigger] g[i] <= 9 by {
        vstd::arithmetic::div_mod::lemma_mod_bound((i % 9) + 3 * ((i / 9) % 3) + (i / 9) / 3, 9);
    }
    assert forall|h: int, d: int|
        0 <= h < 27 && 1 <= d <= 9 implies #[trigger] house_has_digit(g, h, d) by {
        if h < 9 {
            // Row h: the digit stands at the column that undoes the row key.
            let j = (d - 1 - row_key(h)) % 9;
            vstd::arithmetic::div_mod::lemma_mod_bound(d - 1 - row_key(h), 9);
            vstd::arithmetic::div_mod::lemma_add_mod_noop_right(row_key(h), d - 1 - row_key(h), 9);
            vstd::arithmetic::div_mod::lemma_small_mod((d - 1) as nat, 9);
            assert(g[9 * h + j] == (j + row_key(h)) % 9 + 1);
            assert(house_cell_at(h, j) == 9 * h + j);
            assert(0 <= j < 9 && g[house_cell_at(h, j)] == d);
        } else if h < 18 {
            // Column c: the row key is a base-3 digit swap, its own inverse,
            // so some row supplies exactly the key the digit needs.
            let c = h - 9;
            let m = (d - 1 - c) % 9;
            vstd::arithmetic::div_mod::lemma_mod_bound(d - 1 - c, 9);
            vstd::arithmetic::div_mod::lemma_fundamental_div_mod(m, 3);
            vstd::arithmetic::div_mod::lemma_mod_bound(m, 3);
            let r = 3 * (m % 3) + m / 3;
            lemma_small_div3(m % 3, m / 3);
            assert(row_key(r) == m);
            vstd::arithmetic::div_mod::lemma_add_mod_noop_right(c, d - 1 - c, 9);
            vstd::arithmetic::div_mod::lemma_small_mod((d - 1) as nat, 9);
            assert(g[9 * r + c] == (c + row_key(r)) % 9 + 1);
            assert(house_cell_at(h, r) == 9 * r + c);
            assert(0 <= r < 9 && g[house_cell_at(h, r)] == d);
        } else {
            // Block b: within a block the value index walks 0..9 offset by
            // the block's own key, so some position supplies the digit.
            let b = h - 18;
            vstd::arithmetic::div_mod::lemma_fundamental_div_mod(b, 3);
            vstd::arithmetic::div_mod::lemma_mod_bound(b, 3);
            let bb = b / 3;
            let ss = b % 3;
            let m = (d - 1 - (3 * ss + bb)) % 9;
            vstd::arithmetic::div_mod::lemma_mod_bound(d - 1 - (3 * ss + bb), 9);
            vstd::arithmetic::div_mod::lemma_fundamental_div_mod(m, 3);
            vstd::arithmetic::div_mod::lemma_mod_bound(m, 3);
            let r = 3 * bb + m / 3;
            let c = 3 * ss + m % 3;
            lemma_small_div3(bb, m / 3);
            assert(row_key(r) == 3 * (m / 3) + bb);
            vstd::arithmetic::div_mod::lemma_add_mod_noop_right(
                3 * ss + bb,
                d - 1 - (3 * ss + bb),
                9,
            );
            vstd::arithmetic::div_mod::lemma_small_mod((d - 1) as nat, 9);
            assert(c + row_key(r) == (3 * ss + bb) + m);
            assert(g[9 * r + c] == (c + row_key(r)) % 9 + 1);
            assert(house_cell_at(h, m) == 9 * r + c);
            assert(0 <= m < 9 && g[house_cell_at(h, m)] == d);
        }
    }
    assert(spec_solved(g));
}

} // verus!
