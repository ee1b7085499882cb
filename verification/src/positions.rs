//! Positions in the sudoku grid.
//!
//! A sudoku consists of 81 cells, arranged into 9 rows, 9 columns and 9
//! blocks. Rows, columns and blocks are unified as 27 houses; bands, stacks
//! and minilines describe the coarser and finer groupings. Every grouping
//! owns a set of cells given in closed form by bit arithmetic.

use vstd::prelude::*;
use vstd::set_lib::lemma_int_range;
use vstd::set_lib::set_int_range;
use crate::bitset::CellSet;
use crate::bitset::lemma_position_set_view_bounds;
use crate::bitset::PositionSet;
use crate::bitset::bit128;
use crate::bitset::mask_view;

verus! {

/// Row index of a cell (cells are numbered 0..81 in row-major order).
pub open spec fn spec_row(cell: int) -> int {
    cell / 9
}

/// Column index of a cell.
pub open spec fn spec_col(cell: int) -> int {
    cell % 9
}

/// Band index of a cell (a band is three consecutive rows).
pub open spec fn spec_band(cell: int) -> int {
    cell / 27
}

/// Stack index of a cell (a stack is three consecutive columns).
pub open spec fn spec_stack(cell: int) -> int {
    (cell % 9) / 3
}

/// Block index of a cell: 3 * band + stack.
pub open spec fn spec_block(cell: int) -> int {
    3 * spec_band(cell) + spec_stack(cell)
}

/// Position of a cell within its row, column and block.
pub open spec fn spec_row_pos(cell: int) -> int {
    spec_col(cell)
}

pub open spec fn spec_col_pos(cell: int) -> int {
    spec_row(cell)
}

pub open spec fn spec_block_pos(cell: int) -> int {
    3 * (spec_row(cell) % 3) + spec_col(cell) % 3
}

/// The cells of a row, as a set of cell indices.
pub open spec fn row_cells(r: int) -> Set<int> {
    Set::new(|c: int| 0 <= c < 81 && spec_row(c) == r)
}

/// The cells of a column.
pub open spec fn col_cells(co: int) -> Set<int> {
    Set::new(|c: int| 0 <= c < 81 && spec_col(c) == co)
}

/// The cells of a block.
pub open spec fn block_cells(b: int) -> Set<int> {
    Set::new(|c: int| 0 <= c < 81 && spec_block(c) == b)
}

/// The cells of a band.
pub open spec fn band_cells(b: int) -> Set<int> {
    Set::new(|c: int| 0 <= c < 81 && spec_band(c) == b)
}

/// The cells of a stack.
pub open spec fn stack_cells(s: int) -> Set<int> {
    Set::new(|c: int| 0 <= c < 81 && spec_stack(c) == s)
}

/// The cells of a line: lines 0..9 are the rows, lines 9..18 the columns.
pub open spec fn line_cells(l: int) -> Set<int> {
    if l < 9 {
        row_cells(l)
    } else {
        col_cells(l - 9)
    }
}

/// The cells of a house: houses 0..9 are the rows, 9..18 the columns and
/// 18..27 the blocks.
pub open spec fn house_cells(h: int) -> Set<int> {
    if h < 9 {
        row_cells(h)
    } else if h < 18 {
        col_cells(h - 9)
    } else {
        block_cells(h - 18)
    }
}

/// The cells of a minirow: the intersection of row `m / 3` and stack `m % 3`.
pub open spec fn minirow_cells(m: int) -> Set<int> {
    Set::new(|c: int| 0 <= c < 81 && spec_row(c) == m / 3 && spec_stack(c) == m % 3)
}

/// The cells of a minicol: the intersection of band `m % 3` and column `m / 3`.
pub open spec fn minicol_cells(m: int) -> Set<int> {
    Set::new(|c: int| 0 <= c < 81 && spec_band(c) == m % 3 && spec_col(c) == m / 3)
}

/// The cells of a miniline: minilines 0..27 are the minirows, 27..54 the
/// minicols.
pub open spec fn miniline_cells(m: int) -> Set<int> {
    if m < 27 {
        minirow_cells(m)
    } else {
        minicol_cells(m - 27)
    }
}

/// The cells of a chute: chutes 0..3 are the bands, 3..6 the stacks.
pub open spec fn chute_cells(ch: int) -> Set<int> {
    if ch < 3 {
        band_cells(ch)
    } else {
        stack_cells(ch - 3)
    }
}

/// The cell at position `p` of row `r`.
pub open spec fn row_cell_at(r: int, p: int) -> int {
    9 * r + p
}

/// The cell at position `p` of column `co`.
pub open spec fn col_cell_at(co: int, p: int) -> int {
    9 * p + co
}

/// The cell at position `p` of block `b`; positions run left to right, then
/// top to bottom.
pub open spec fn block_cell_at(b: int, p: int) -> int {
    9 * (3 * (b / 3) + p / 3) + 3 * (b % 3) + p % 3
}

/// The cell at position `p` of line `l`.
pub open spec fn line_cell_at(l: int, p: int) -> int {
    if l < 9 {
        row_cell_at(l, p)
    } else {
        col_cell_at(l - 9, p)
    }
}

/// The cell at position `p` of house `h`.
pub open spec fn house_cell_at(h: int, p: int) -> int {
    if h < 9 {
        row_cell_at(h, p)
    } else if h < 18 {
        col_cell_at(h - 9, p)
    } else {
        block_cell_at(h - 18, p)
    }
}

/// Two cells share a house iff they share a row, a column or a block.
pub open spec fn same_house(a: int, b: int) -> bool {
    spec_row(a) == spec_row(b) || spec_col(a) == spec_col(b) || spec_block(a) == spec_block(b)
}

/// The 20 cells that share a house with `c`, not including `c` itself.
pub open spec fn neighbors_of(c: int) -> Set<int> {
    Set::new(|x: int| 0 <= x < 81 && x != c && same_house(x, c))
}

/// Row index of the cell, `cell / 9`.
pub fn row(cell: u8) -> (r: u8)
    requires
        cell < 81,
    ensures
        r == spec_row(cell as int),
{
    cell / 9
}

/// Column index of the cell, `cell % 9`.
pub fn col(cell: u8) -> (r: u8)
    requires
        cell < 81,
    ensures
        r == spec_col(cell as int),
{
    cell % 9
}

/// Block index of the cell.
pub fn block(cell: u8) -> (r: u8)
    requires
        cell < 81,
    ensures
        r == spec_block(cell as int),
{
    3 * (cell / 27) + (cell % 9) / 3
}

/// Band index of the cell.
pub fn band(cell: u8) -> (r: u8)
    requires
        cell < 81,
    ensures
        r == spec_band(cell as int),
{
    cell / 27
}

/// Stack index of the cell.
pub fn stack(cell: u8) -> (r: u8)
    requires
        cell < 81,
    ensures
        r == spec_stack(cell as int),
{
    (cell % 9) / 3
}

/// One of the 81 cells of the sudoku.
#[derive(Clone, Copy, PartialEq, Eq, Structural, PartialOrd, Ord, Debug, Hash)]
pub struct Cell(u8);

/// Set of 9 cells in a horizontal line.
#[derive(Clone, Copy, PartialEq, Eq, Structural, PartialOrd, Ord, Debug, Hash)]
pub struct Row(u8);

/// Set of 9 cells in a vertical line.
#[derive(Clone, Copy, PartialEq, Eq, Structural, PartialOrd, Ord, Debug, Hash)]
pub struct Col(u8);

/// Set of 9 cells in a 3x3 box shape.
#[derive(Clone, Copy, PartialEq, Eq, Structural, PartialOrd, Ord, Debug, Hash)]
pub struct Block(u8);

/// A row or column, under one index space: lines 0..9 are the rows, 9..18
/// the columns.
#[derive(Clone, Copy, PartialEq, Eq, Structural, PartialOrd, Ord, Debug, Hash)]
pub struct Line(u8);

/// A row, column or block, under one index space: houses 0..9 are the rows,
/// 9..18 the columns, 18..27 the blocks.
#[derive(Clone, Copy, PartialEq, Eq, Structural, PartialOrd, Ord, Debug, Hash)]
pub struct House(u8);

/// Intersection of a block and a row: 3 cells in a row.
#[derive(Clone, Copy, PartialEq, Eq, Structural, PartialOrd, Ord, Debug, Hash)]
pub struct MiniRow(u8);

/// Intersection of a block and a column: 3 cells in a column.
#[derive(Clone, Copy, PartialEq, Eq, Structural, PartialOrd, Ord, Debug, Hash)]
pub struct MiniCol(u8);

/// A minirow or minicol, under one index space: minilines 0..27 are the
/// minirows, 27..54 the minicols.
#[derive(Clone, Copy, PartialEq, Eq, Structural, PartialOrd, Ord, Debug, Hash)]
pub struct MiniLine(u8);

/// Three rows aligned with three blocks: 27 cells.
#[derive(Clone, Copy, PartialEq, Eq, Structural, PartialOrd, Ord, Debug, Hash)]
pub struct Band(u8);

/// Three columns aligned with three blocks: 27 cells.
#[derive(Clone, Copy, PartialEq, Eq, Structural, PartialOrd, Ord, Debug, Hash)]
pub struct Stack(u8);

/// A band or stack, under one index space: chutes 0..3 are the bands, 3..6
/// the stacks.
#[derive(Clone, Copy, PartialEq, Eq, Structural, PartialOrd, Ord, Debug, Hash)]
pub struct Chute(u8);

impl Cell {
    /// The cell's index, as a mathematical integer.
    pub closed spec fn idx(self) -> int {
        self.0 as int
    }

    /// A valid cell index lies in `0..81`.
    pub open spec fn wf(self) -> bool {
        0 <= self.idx() < 81
    }

    /// Construct a cell from its index. An index outside `0..81` is a
    /// programming error.
    pub fn new(num: u8) -> (r: Cell)
        requires
            num < 81,
        ensures
            r.wf(),
            r.idx() == num,
    {
        Cell(num)
    }

    /// Construct a cell from its index, or `None` if it is out of range.
    pub fn new_checked(num: u8) -> (r: Option<Cell>)
        ensures
            num < 81 <==> r is Some,
            r is Some ==> r->0.wf() && r->0.idx() == num,
    {
        if num < 81 {
            Some(Cell(num))
        } else {
            None
        }
    }

    /// The index contained within.
    pub fn get(self) -> (r: u8)
        ensures
            r == self.idx(),
    {
        self.0
    }

    /// The index contained within, as `usize`.
    pub fn as_index(self) -> (r: usize)
        ensures
            r == self.idx(),
    {
        self.0 as usize
    }

    /// The row this cell belongs to.
    pub fn row(self) -> (r: Row)
        requires
            self.wf(),
        ensures
            r.wf(),
            r.idx() == spec_row(self.idx()),
    {
        Row(self.0 / 9)
    }

    /// The column this cell belongs to.
    pub fn col(self) -> (r: Col)
        requires
            self.wf(),
        ensures
            r.wf(),
            r.idx() == spec_col(self.idx()),
    {
        Col(self.0 % 9)
    }

    /// The block this cell belongs to.
    pub fn block(self) -> (r: Block)
        requires
            self.wf(),
        ensures
            r.wf(),
            r.idx() == spec_block(self.idx()),
    {
        Block(3 * (self.0 / 27) + (self.0 % 9) / 3)
    }

    /// The band this cell belongs to.
    pub fn band(self) -> (r: Band)
        requires
            self.wf(),
        ensures
            r.wf(),
            r.idx() == spec_band(self.idx()),
    {
        Band(self.0 / 27)
    }

    /// The stack this cell belongs to.
    pub fn stack(self) -> (r: Stack)
        requires
            self.wf(),
        ensures
            r.wf(),
            r.idx() == spec_stack(self.idx()),
    {
        Stack((self.0 % 9) / 3)
    }

    /// The cell's position within its row, as a house position.
    pub fn row_pos(self) -> (r: Position<House>)
        requires
            self.wf(),
        ensures
            r.idx() == spec_row_pos(self.idx()),
            0 <= r.idx() < 9,
    {
        Position::new(self.0 % 9)
    }

    /// The cell's position within its column, as a house position.
    pub fn col_pos(self) -> (r: Position<House>)
        requires
            self.wf(),
        ensures
            r.idx() == spec_col_pos(self.idx()),
            0 <= r.idx() < 9,
    {
        Position::new(self.0 / 9)
    }

    /// The cell's position within its block, as a house position.
    pub fn block_pos(self) -> (r: Position<House>)
        requires
            self.wf(),
        ensures
            r.idx() == spec_block_pos(self.idx()),
            0 <= r.idx() < 9,
    {
        Position::new(3 * ((self.0 / 9) % 3) + (self.0 % 9) % 3)
    }

    /// The row, column and block this cell belongs to, in that order.
    pub fn houses(self) -> (r: [House; 3])
        requires
            self.wf(),
        ensures
            r@.len() == 3,
            r@[0].wf() && r@[0].idx() == spec_row(self.idx()),
            r@[1].wf() && r@[1].idx() == spec_col(self.idx()) + 9,
            r@[2].wf() && r@[2].idx() == spec_block(self.idx()) + 18,
    {
        [self.row().house(), self.col().house(), self.block().house()]
    }

    /// The set holding exactly this cell.
    pub fn cells(self) -> (r: CellSet)
        requires
            self.wf(),
        ensures
            r@ == Set::<int>::empty().insert(self.idx()),
    {
        CellSet::singleton(self)
    }
}

impl Row {
    /// The row's index, as a mathematical integer.
    pub closed spec fn idx(self) -> int {
        self.0 as int
    }

    /// A valid row index lies in `0..9`.
    pub open spec fn wf(self) -> bool {
        0 <= self.idx() < 9
    }

    /// Construct a row from its index. An index outside `0..9` is a
    /// programming error.
    pub fn new(num: u8) -> (r: Row)
        requires
            num < 9,
        ensures
            r.wf(),
            r.idx() == num,
    {
        Row(num)
    }

    /// Construct a row from its index, or `None` if it is out of range.
    pub fn new_checked(num: u8) -> (r: Option<Row>)
        ensures
            num < 9 <==> r is Some,
            r is Some ==> r->0.wf() && r->0.idx() == num,
    {
        if num < 9 {
            Some(Row(num))
        } else {
            None
        }
    }

    /// The index contained within.
    pub fn get(self) -> (r: u8)
        ensures
            r == self.idx(),
    {
        self.0
    }

    /// The index contained within, as `usize`.
    pub fn as_index(self) -> (r: usize)
        ensures
            r == self.idx(),
    {
        self.0 as usize
    }

    /// This row as a line.
    pub fn line(self) -> (r: Line)
        requires
            self.wf(),
        ensures
            r.wf(),
            r.idx() == self.idx(),
    {
        Line(self.0)
    }

    /// This row as a house.
    pub fn house(self) -> (r: House)
        requires
            self.wf(),
        ensures
            r.wf(),
            r.idx() == self.idx(),
    {
        House(self.0)
    }
}

impl Col {
    /// The column's index, as a mathematical integer.
    pub closed spec fn idx(self) -> int {
        self.0 as int
    }

    /// A valid column index lies in `0..9`.
    pub open spec fn wf(self) -> bool {
        0 <= self.idx() < 9
    }

    /// Construct a column from its index. An index outside `0..9` is a
    /// programming error.
    pub fn new(num: u8) -> (r: Col)
        requires
            num < 9,
        ensures
            r.wf(),
            r.idx() == num,
    {
        Col(num)
    }

    /// Construct a column from its index, or `None` if it is out of range.
    pub fn new_checked(num: u8) -> (r: Option<Col>)
        ensures
            num < 9 <==> r is Some,
            r is Some ==> r->0.wf() && r->0.idx() == num,
    {
        if num < 9 {
            Some(Col(num))
        } else {
            None
        }
    }

    /// The index contained within.
    pub fn get(self) -> (r: u8)
        ensures
            r == self.idx(),
    {
        self.0
    }

    /// The index contained within, as `usize`.
    pub fn as_index(self) -> (r: usize)
        ensures
            r == self.idx(),
    {
        self.0 as usize
    }

    /// This column as a line.
    pub fn line(self) -> (r: Line)
        requires
            self.wf(),
        ensures
            r.wf(),
            r.idx() == self.idx() + 9,
    {
        Line(self.0 + 9)
    }

    /// This column as a house.
    pub fn house(self) -> (r: House)
        requires
            self.wf(),
        ensures
            r.wf(),
            r.idx() == self.idx() + 9,
    {
        House(self.0 + 9)
    }
}

impl Block {
    /// The block's index, as a mathematical integer.
    pub closed spec fn idx(self) -> int {
        self.0 as int
    }

    /// A valid block index lies in `0..9`.
    pub open spec fn wf(self) -> bool {
        0 <= self.idx() < 9
    }

    /// Construct a block from its index. An index outside `0..9` is a
    /// programming error.
    pub fn new(num: u8) -> (r: Block)
        requires
            num < 9,
        ensures
            r.wf(),
            r.idx() == num,
    {
        Block(num)
    }

    /// Construct a block from its index, or `None` if it is out of range.
    pub fn new_checked(num: u8) -> (r: Option<Block>)
        ensures
            num < 9 <==> r is Some,
            r is Some ==> r->0.wf() && r->0.idx() == num,
    {
        if num < 9 {
            Some(Block(num))
        } else {
            None
        }
    }

    /// The index contained within.
    pub fn get(self) -> (r: u8)
        ensures
            r == self.idx(),
    {
        self.0
    }

    /// The index contained within, as `usize`.
    pub fn as_index(self) -> (r: usize)
        ensures
            r == self.idx(),
    {
        self.0 as usize
    }

    /// This block as a house.
    pub fn house(self) -> (r: House)
        requires
            self.wf(),
        ensures
            r.wf(),
            r.idx() == self.idx() + 18,
    {
        House(self.0 + 18)
    }
}

impl Line {
    /// The line's index, as a mathematical integer.
    pub closed spec fn idx(self) -> int {
        self.0 as int
    }

    /// A valid line index lies in `0..18`.
    pub open spec fn wf(self) -> bool {
        0 <= self.idx() < 18
    }

    /// Construct a line from its index. An index outside `0..18` is a
    /// programming error.
    pub fn new(num: u8) -> (r: Line)
        requires
            num < 18,
        ensures
            r.wf(),
            r.idx() == num,
    {
        Line(num)
    }

    /// Construct a line from its index, or `None` if it is out of range.
    pub fn new_checked(num: u8) -> (r: Option<Line>)
        ensures
            num < 18 <==> r is Some,
            r is Some ==> r->0.wf() && r->0.idx() == num,
    {
        if num < 18 {
            Some(Line(num))
        } else {
            None
        }
    }

    /// The index contained within.
    pub fn get(self) -> (r: u8)
        ensures
            r == self.idx(),
    {
        self.0
    }

    /// The index contained within, as `usize`.
    pub fn as_index(self) -> (r: usize)
        ensures
            r == self.idx(),
    {
        self.0 as usize
    }

    /// This line as a house.
    pub fn house(self) -> (r: House)
        requires
            self.wf(),
        ensures
            r.wf(),
            r.idx() == self.idx(),
    {
        House(self.0)
    }
}

impl House {
    /// The house's index, as a mathematical integer.
    pub closed spec fn idx(self) -> int {
        self.0 as int
    }

    /// A valid house index lies in `0..27`.
    pub open spec fn wf(self) -> bool {
        0 <= self.idx() < 27
    }

    /// Construct a house from its index. An index outside `0..27` is a
    /// programming error.
    pub fn new(num: u8) -> (r: House)
        requires
            num < 27,
        ensures
            r.wf(),
            r.idx() == num,
    {
        House(num)
    }

    /// Construct a house from its index, or `None` if it is out of range.
    pub fn new_checked(num: u8) -> (r: Option<House>)
        ensures
            num < 27 <==> r is Some,
            r is Some ==> r->0.wf() && r->0.idx() == num,
    {
        if num < 27 {
            Some(House(num))
        } else {
            None
        }
    }

    /// The index contained within.
    pub fn get(self) -> (r: u8)
        ensures
            r == self.idx(),
    {
        self.0
    }

    /// The index contained within, as `usize`.
    pub fn as_index(self) -> (r: usize)
        ensures
            r == self.idx(),
    {
        self.0 as usize
    }
}

impl MiniRow {
    /// The minirow's index, as a mathematical integer.
    pub closed spec fn idx(self) -> int {
        self.0 as int
    }

    /// A valid minirow index lies in `0..27`.
    pub open spec fn wf(self) -> bool {
        0 <= self.idx() < 27
    }

    /// Construct a minirow from its index. An index outside `0..27` is a
    /// programming error.
    pub fn new(num: u8) -> (r: MiniRow)
        requires
            num < 27,
        ensures
            r.wf(),
            r.idx() == num,
    {
        MiniRow(num)
    }

    /// Construct a minirow from its index, or `None` if it is out of range.
    pub fn new_checked(num: u8) -> (r: Option<MiniRow>)
        ensures
            num < 27 <==> r is Some,
            r is Some ==> r->0.wf() && r->0.idx() == num,
    {
        if num < 27 {
            Some(MiniRow(num))
        } else {
            None
        }
    }

    /// The index contained within.
    pub fn get(self) -> (r: u8)
        ensures
            r == self.idx(),
    {
        self.0
    }

    /// The index contained within, as `usize`.
    pub fn as_index(self) -> (r: usize)
        ensures
            r == self.idx(),
    {
        self.0 as usize
    }
}

impl MiniCol {
    /// The minicol's index, as a mathematical integer.
    pub closed spec fn idx(self) -> int {
        self.0 as int
    }

    /// A valid minicol index lies in `0..27`.
    pub open spec fn wf(self) -> bool {
        0 <= self.idx() < 27
    }

    /// Construct a minicol from its index. An index outside `0..27` is a
    /// programming error.
    pub fn new(num: u8) -> (r: MiniCol)
        requires
            num < 27,
        ensures
            r.wf(),
            r.idx() == num,
    {
        MiniCol(num)
    }

    /// Construct a minicol from its index, or `None` if it is out of range.
    pub fn new_checked(num: u8) -> (r: Option<MiniCol>)
        ensures
            num < 27 <==> r is Some,
            r is Some ==> r->0.wf() && r->0.idx() == num,
    {
        if num < 27 {
            Some(MiniCol(num))
        } else {
            None
        }
    }

    /// The index contained within.
    pub fn get(self) -> (r: u8)
        ensures
            r == self.idx(),
    {
        self.0
    }

    /// The index contained within, as `usize`.
    pub fn as_index(self) -> (r: usize)
        ensures
            r == self.idx(),
    {
        self.0 as usize
    }
}

impl MiniLine {
    /// The miniline's index, as a mathematical integer.
    pub closed spec fn idx(self) -> int {
        self.0 as int
    }

    /// A valid miniline index lies in `0..54`.
    pub open spec fn wf(self) -> bool {
        0 <= self.idx() < 54
    }

    /// Construct a miniline from its index. An index outside `0..54` is a
    /// programming error.
    pub fn new(num: u8) -> (r: MiniLine)
        requires
            num < 54,
        ensures
            r.wf(),
            r.idx() == num,
    {
        MiniLine(num)
    }

    /// Construct a miniline from its index, or `None` if it is out of range.
    pub fn new_checked(num: u8) -> (r: Option<MiniLine>)
        ensures
            num < 54 <==> r is Some,
            r is Some ==> r->0.wf() && r->0.idx() == num,
    {
        if num < 54 {
            Some(MiniLine(num))
        } else {
            None
        }
    }

    /// The index contained within.
    pub fn get(self) -> (r: u8)
        ensures
            r == self.idx(),
    {
        self.0
    }

    /// The index contained within, as `usize`.
    pub fn as_index(self) -> (r: usize)
        ensures
            r == self.idx(),
    {
        self.0 as usize
    }

    /// The chute this miniline lies in.
    pub fn chute(self) -> (r: Chute)
        requires
            self.wf(),
        ensures
            r.wf(),
            r.idx() == self.idx() / 9,
    {
        Chute::new(self.0 / 9)
    }
}

impl Band {
    /// The band's index, as a mathematical integer.
    pub closed spec fn idx(self) -> int {
        self.0 as int
    }

    /// A valid band index lies in `0..3`.
    pub open spec fn wf(self) -> bool {
        0 <= self.idx() < 3
    }

    /// Construct a band from its index. An index outside `0..3` is a
    /// programming error.
    pub fn new(num: u8) -> (r: Band)
        requires
            num < 3,
        ensures
            r.wf(),
            r.idx() == num,
    {
        Band(num)
    }

    /// Construct a band from its index, or `None` if it is out of range.
    pub fn new_checked(num: u8) -> (r: Option<Band>)
        ensures
            num < 3 <==> r is Some,
            r is Some ==> r->0.wf() && r->0.idx() == num,
    {
        if num < 3 {
            Some(Band(num))
        } else {
            None
        }
    }

    /// The index contained within.
    pub fn get(self) -> (r: u8)
        ensures
            r == self.idx(),
    {
        self.0
    }

    /// The index contained within, as `usize`.
    pub fn as_index(self) -> (r: usize)
        ensures
            r == self.idx(),
    {
        self.0 as usize
    }

    /// This band as a chute.
    pub fn chute(self) -> (r: Chute)
        requires
            self.wf(),
        ensures
            r.wf(),
            r.idx() == self.idx(),
    {
        Chute(self.0)
    }
}

impl Stack {
    /// The stack's index, as a mathematical integer.
    pub closed spec fn idx(self) -> int {
        self.0 as int
    }

    /// A valid stack index lies in `0..3`.
    pub open spec fn wf(self) -> bool {
        0 <= self.idx() < 3
    }

    /// Construct a stack from its index. An index outside `0..3` is a
    /// programming error.
    pub fn new(num: u8) -> (r: Stack)
        requires
            num < 3,
        ensures
            r.wf(),
            r.idx() == num,
    {
        Stack(num)
    }

    /// Construct a stack from its index, or `None` if it is out of range.
    pub fn new_checked(num: u8) -> (r: Option<Stack>)
        ensures
            num < 3 <==> r is Some,
            r is Some ==> r->0.wf() && r->0.idx() == num,
    {
        if num < 3 {
            Some(Stack(num))
        } else {
            None
        }
    }

    /// The index contained within.
    pub fn get(self) -> (r: u8)
        ensures
            r == self.idx(),
    {
        self.0
    }

    /// The index contained within, as `usize`.
    pub fn as_index(self) -> (r: usize)
        ensures
            r == self.idx(),
    {
        self.0 as usize
    }

    /// This stack as a chute.
    pub fn chute(self) -> (r: Chute)
        requires
            self.wf(),
        ensures
            r.wf(),
            r.idx() == self.idx() + 3,
    {
        Chute(self.0 + 3)
    }
}

impl Chute {
    /// The chute's index, as a mathematical integer.
    pub closed spec fn idx(self) -> int {
        self.0 as int
    }

    /// A valid chute index lies in `0..6`.
    pub open spec fn wf(self) -> bool {
        0 <= self.idx() < 6
    }

    /// Construct a chute from its index. An index outside `0..6` is a
    /// programming error.
    pub fn new(num: u8) -> (r: Chute)
        requires
            num < 6,
        ensures
            r.wf(),
            r.idx() == num,
    {
        Chute(num)
    }

    /// Construct a chute from its index, or `None` if it is out of range.
    pub fn new_checked(num: u8) -> (r: Option<Chute>)
        ensures
            num < 6 <==> r is Some,
            r is Some ==> r->0.wf() && r->0.idx() == num,
    {
        if num < 6 {
            Some(Chute(num))
        } else {
            None
        }
    }

    /// The index contained within.
    pub fn get(self) -> (r: u8)
        ensures
            r == self.idx(),
    {
        self.0
    }

    /// The index contained within, as `usize`.
    pub fn as_index(self) -> (r: usize)
        ensures
            r == self.idx(),
    {
        self.0 as usize
    }
}

/// A row or a column.
#[derive(Clone, Copy, PartialEq, Eq, Structural, Debug, Hash)]
pub enum LineType {
    Row(Row),
    Col(Col),
}

impl Line {
    /// Determine whether this line is a row or a column.
    pub fn categorize(self) -> (r: LineType)
        requires
            self.wf(),
        ensures
            self.idx() < 9 ==> (r matches LineType::Row(row) && row.wf() && row.idx() == self.idx()),
            self.idx() >= 9 ==> (r matches LineType::Col(c) && c.wf() && c.idx() == self.idx() - 9),
    {
        if self.0 < 9 {
            LineType::Row(Row::new(self.0))
        } else {
            LineType::Col(Col::new(self.0 - 9))
        }
    }
}

/// A row, a column or a block.
#[derive(Clone, Copy, PartialEq, Eq, Structural, Debug, Hash)]
pub enum HouseType {
    Row(Row),
    Col(Col),
    Block(Block),
}

impl House {
    /// Determine whether this house is a row, a column or a block.
    pub fn categorize(self) -> (r: HouseType)
        requires
            self.wf(),
        ensures
            self.idx() < 9 ==> (r matches HouseType::Row(row) && row.wf() && row.idx() == self.idx()),
            9 <= self.idx() < 18 ==> (r matches HouseType::Col(c) && c.wf() && c.idx() == self.idx()
                - 9),
            self.idx() >= 18 ==> (r matches HouseType::Block(b) && b.wf() && b.idx() == self.idx()
                - 18),
    {
        if self.0 < 9 {
            HouseType::Row(Row::new(self.0))
        } else if self.0 < 18 {
            HouseType::Col(Col::new(self.0 - 9))
        } else {
            HouseType::Block(Block::new(self.0 - 18))
        }
    }
}

/// A band or a stack.
#[derive(Clone, Copy, PartialEq, Eq, Structural, Debug, Hash)]
pub enum ChuteType {
    Band(Band),
    Stack(Stack),
}

impl Chute {
    /// Determine whether this chute is a band or a stack.
    pub fn categorize(self) -> (r: ChuteType)
        requires
            self.wf(),
        ensures
            self.idx() < 3 ==> (r matches ChuteType::Band(b) && b.wf() && b.idx() == self.idx()),
            self.idx() >= 3 ==> (r matches ChuteType::Stack(s) && s.wf() && s.idx() == self.idx()
                - 3),
    {
        if self.0 < 3 {
            ChuteType::Band(Band::new(self.0))
        } else {
            ChuteType::Stack(Stack::new(self.0 - 3))
        }
    }

    /// The nine minilines of this chute, ordered first by line, then by
    /// block.
    pub fn minilines(self) -> (r: [MiniLine; 9])
        requires
            self.wf(),
        ensures
            r@.len() == 9,
            forall|k: int| 0 <= k < 9 ==> (#[trigger] r@[k]).wf() && r@[k].idx() == 9 * self.idx()
                + k,
    {
        let b = self.0 * 9;
        [
            MiniLine::new(b),
            MiniLine::new(b + 1),
            MiniLine::new(b + 2),
            MiniLine::new(b + 3),
            MiniLine::new(b + 4),
            MiniLine::new(b + 5),
            MiniLine::new(b + 6),
            MiniLine::new(b + 7),
            MiniLine::new(b + 8),
        ]
    }
}

/// A minirow or a minicol.
#[derive(Clone, Copy, PartialEq, Eq, Structural, Debug, Hash)]
pub enum MiniLineType {
    MiniRow(MiniRow),
    MiniCol(MiniCol),
}

impl MiniLine {
    /// Determine whether this miniline is a minirow or a minicol.
    pub fn categorize(self) -> (r: MiniLineType)
        requires
            self.wf(),
        ensures
            self.idx() < 27 ==> (r matches MiniLineType::MiniRow(m) && m.wf() && m.idx()
                == self.idx()),
            self.idx() >= 27 ==> (r matches MiniLineType::MiniCol(m) && m.wf() && m.idx()
                == self.idx() - 27),
    {
        if self.0 < 27 {
            MiniLineType::MiniRow(MiniRow::new(self.0))
        } else {
            MiniLineType::MiniCol(MiniCol::new(self.0 - 27))
        }
    }

    /// The line neighbors and the block neighbors of this miniline: the two
    /// other minilines of its line, then the two other minilines of its
    /// block.
    pub fn neighbors(self) -> (r: ([MiniLine; 2], [MiniLine; 2]))
        requires
            self.wf(),
        ensures
            r.0@.len() == 2 && r.1@.len() == 2,
            forall|k: int| 0 <= k < 2 ==> (#[trigger] r.0@[k]).wf(),
            forall|k: int| 0 <= k < 2 ==> (#[trigger] r.1@[k]).wf(),
            r.0@[0].idx() == miniline_base(self.idx()) + 3 * (miniline_line_of(self.idx()))
                + (miniline_slot(self.idx()) + 1) % 3,
            r.0@[1].idx() == miniline_base(self.idx()) + 3 * (miniline_line_of(self.idx()))
                + (miniline_slot(self.idx()) + 2) % 3,
            r.1@[0].idx() == miniline_base(self.idx()) + 3 * (3 * (miniline_line_of(self.idx()) / 3)
                + (miniline_line_of(self.idx()) + 1) % 3) + miniline_slot(self.idx()),
            r.1@[1].idx() == miniline_base(self.idx()) + 3 * (3 * (miniline_line_of(self.idx()) / 3)
                + (miniline_line_of(self.idx()) + 2) % 3) + miniline_slot(self.idx()),
    {
        let m = if self.0 < 27 {
            self.0
        } else {
            self.0 - 27
        };
        let base = if self.0 < 27 {
            0
        } else {
            27
        };
        let line = m / 3;
        let slot = m % 3;
        let ln0 = base + 3 * line + (slot + 1) % 3;
        let ln1 = base + 3 * line + (slot + 2) % 3;
        let bn0 = base + 3 * (3 * (line / 3) + (line + 1) % 3) + slot;
        let bn1 = base + 3 * (3 * (line / 3) + (line + 2) % 3) + slot;
        (
            ([MiniLine::new(ln0), MiniLine::new(ln1)]),
            ([MiniLine::new(bn0), MiniLine::new(bn1)]),
        )
    }
}

/// 0 for a minirow, 27 for a minicol.
pub open spec fn miniline_base(m: int) -> int {
    if m < 27 {
        0
    } else {
        27
    }
}

/// The line (0..9) a miniline lies in, within its own orientation.
pub open spec fn miniline_line_of(m: int) -> int {
    (m - miniline_base(m)) / 3
}

/// The slot (0..3) of a miniline along its line.
pub open spec fn miniline_slot(m: int) -> int {
    (m - miniline_base(m)) % 3
}

/// The offset of a cell within one specific grouping, distinguished at the
/// type level from a bare cell index.
#[derive(Debug)]
pub struct Position<IN> {
    num: u8,
    _marker: core::marker::PhantomData<IN>,
}

impl<IN> Clone for Position<IN> {
    fn clone(&self) -> (r: Self)
        ensures
            r.idx() == self.idx(),
    {
        Position { num: self.num, _marker: core::marker::PhantomData }
    }
}

impl<IN> Copy for Position<IN> {

}

impl<IN> Position<IN> {
    /// The position's index, as a mathematical integer.
    pub closed spec fn idx(self) -> int {
        self.num as int
    }

    /// Construct a position from its offset. An offset outside the
    /// grouping's nine cells is a programming error.
    pub fn new(pos: u8) -> (r: Position<IN>)
        requires
            pos < 9,
        ensures
            r.idx() == pos,
            0 <= r.idx() < 9,
    {
        Position { num: pos, _marker: core::marker::PhantomData }
    }

    /// The offset contained within.
    pub fn get(self) -> (r: u8)
        ensures
            r == self.idx(),
    {
        self.num
    }

    /// The offset contained within, as `usize`.
    pub fn as_index(self) -> (r: usize)
        ensures
            r == self.idx(),
    {
        self.num as usize
    }
}


/// Division and remainder of a cell index by the grid's constants, stated
/// once so every conversion proof can draw on them.
pub proof fn lemma_cell_div_mod(x: int)
    requires
        0 <= x < 81,
    ensures
        x == 9 * spec_row(x) + spec_col(x),
        0 <= spec_row(x) < 9,
        0 <= spec_col(x) < 9,
        0 <= spec_band(x) < 3,
        0 <= spec_stack(x) < 3,
        0 <= spec_block(x) < 9,
        spec_band(x) == spec_row(x) / 3,
        spec_row(x) == 3 * spec_band(x) + spec_row(x) % 3,
        0 <= spec_row(x) % 3 < 3,
        spec_col(x) == 3 * spec_stack(x) + spec_col(x) % 3,
        0 <= spec_col(x) % 3 < 3,
        spec_block(x) / 3 == spec_band(x),
        spec_block(x) % 3 == spec_stack(x),
        x == 27 * spec_band(x) + 9 * (spec_row(x) % 3) + spec_col(x),
        0 <= spec_block_pos(x) < 9,
        spec_block_pos(x) / 3 == spec_row(x) % 3,
        spec_block_pos(x) % 3 == spec_col(x) % 3,
{
    let xu = x as u8;
    assert(xu / 9 < 9 && xu % 9 < 9 && 9 * (xu / 9) + (xu % 9) == xu && xu / 27 < 3 && xu / 27
        == (xu / 9) / 3 && (xu % 9) / 3 < 3 && (xu / 9) == 3 * ((xu / 9) / 3) + (xu / 9) % 3 && (xu
        / 9) % 3 < 3 && (xu % 9) == 3 * ((xu % 9) / 3) + (xu % 9) % 3 && (xu % 9) % 3 < 3)
        by (bit_vector)
        requires
            xu < 81,
    ;
    lemma_small_div3(spec_band(x), spec_stack(x));
    lemma_small_div3(spec_row(x) % 3, spec_col(x) % 3);
}

/// For `0 <= q` and `0 <= m < 3`, the quotient and remainder of `3q + m`
/// by 3 are `q` and `m`.
pub proof fn lemma_small_div3(q: int, m: int)
    requires
        0 <= q < 85,
        0 <= m < 3,
    ensures
        (3 * q + m) / 3 == q,
        (3 * q + m) % 3 == m,
{
    let qu = q as u8;
    let mu = m as u8;
    assert((3 * qu + mu) / 3 == qu && (3 * qu + mu) % 3 == mu) by (bit_vector)
        requires
            qu < 85 && mu < 3,
    ;
}

/// For `0 <= q < 9` and `0 <= m < 9`, the quotient and remainder of `9q + m`
/// by 9 are `q` and `m`.
pub proof fn lemma_small_div9(q: int, m: int)
    requires
        0 <= q < 9,
        0 <= m < 9,
    ensures
        (9 * q + m) / 9 == q,
        (9 * q + m) % 9 == m,
{
    let qu = q as u8;
    let mu = m as u8;
    assert((9 * qu + mu) / 9 == qu && (9 * qu + mu) % 9 == mu) by (bit_vector)
        requires
            qu < 9 && mu < 9,
    ;
}

/// For `0 <= q < 3` and `0 <= m < 27`, the quotient and remainder of
/// `27q + m` by 27 are `q` and `m`.
pub proof fn lemma_small_div27(q: int, m: int)
    requires
        0 <= q < 3,
        0 <= m < 27,
    ensures
        (27 * q + m) / 27 == q,
        (27 * q + m) % 27 == m,
{
    let qu = q as u8;
    let mu = m as u8;
    assert((27 * qu + mu) / 27 == qu && (27 * qu + mu) % 27 == mu) by (bit_vector)
        requires
            qu < 3 && mu < 27,
    ;
}

proof fn lemma_row_mask(r: u128)
    by (bit_vector)
    requires
        r < 9,
    ensures
        forall|i: u128|
            i < 128 ==> (#[trigger] bit128(0o777u128 << (9 * r), i) <==> 9 * r <= i && i < 9 * r
                + 9),
{
}

proof fn lemma_col_mask(c: u128)
    by (bit_vector)
    requires
        c < 9,
    ensures
        forall|i: u128|
            i < 128 ==> (#[trigger] bit128(0o001_001_001_001_001_001_001_001_001u128 << c, i)
                <==> i < 81 && i % 9 == c),
{
}

proof fn lemma_block_mask(bd: u128, st: u128)
    by (bit_vector)
    requires
        bd < 3,
        st < 3,
    ensures
        forall|i: u128|
            i < 128 ==> (#[trigger] bit128(0o007_007_007u128 << (27 * bd + 3 * st), i) <==> 27 * bd
                <= i && i < 27 * bd + 27 && 3 * st <= i % 9 && i % 9 < 3 * st + 3),
{
}

proof fn lemma_band_mask(b: u128)
    by (bit_vector)
    requires
        b < 3,
    ensures
        forall|i: u128|
            i < 128 ==> (#[trigger] bit128(0o777_777_777u128 << (27 * b), i) <==> 27 * b <= i && i
                < 27 * b + 27),
{
}

proof fn lemma_stack_mask(sk: u128)
    by (bit_vector)
    requires
        sk < 3,
    ensures
        forall|i: u128|
            i < 128 ==> (#[trigger] bit128(0o007_007_007_007_007_007_007_007_007u128 << (3 * sk), i)
                <==> i < 81 && 3 * sk <= i % 9 && i % 9 < 3 * sk + 3),
{
}

proof fn lemma_minirow_mask(m: u128)
    by (bit_vector)
    requires
        m < 27,
    ensures
        forall|i: u128|
            i < 128 ==> (#[trigger] bit128(0o7u128 << (3 * m), i) <==> 3 * m <= i && i < 3 * m
                + 3),
{
}

proof fn lemma_minicol_mask(bd: u128, cl: u128)
    by (bit_vector)
    requires
        bd < 3,
        cl < 9,
    ensures
        forall|i: u128|
            i < 128 ==> (#[trigger] bit128(0o001_001_001u128 << (27 * bd + cl), i) <==> 27 * bd <= i
                && i < 27 * bd + 27 && i % 9 == cl),
{
}

impl Row {
    /// The set of the nine cells of this row, as a 9-bit run shifted into
    /// place.
    pub fn cells(self) -> (r: CellSet)
        requires
            self.wf(),
        ensures
            r@ == row_cells(self.idx()),
    {
        let bits: u128 = 0o777u128 << (9 * (self.0 as u128));
        proof {
            let rv = self.idx() as u128;
            lemma_row_mask(rv);
            assert forall|x: int| mask_view(bits).contains(x) <==> row_cells(self.idx()).contains(
                x,
            ) by {
                if 0 <= x < 81 {
                    lemma_cell_div_mod(x);
                    assert(bit128(bits, x as u128) == bit128(0o777u128 << (9 * rv), x as u128));
                }
            }
            assert(mask_view(bits) =~= row_cells(self.idx()));
        }
        CellSet::from_bits(bits)
    }
}

impl Col {
    /// The set of the nine cells of this column: a fixed 9-cell-spaced
    /// pattern shifted by the column index.
    pub fn cells(self) -> (r: CellSet)
        requires
            self.wf(),
        ensures
            r@ == col_cells(self.idx()),
    {
        let bits: u128 = 0o001_001_001_001_001_001_001_001_001u128 << (self.0 as u128);
        proof {
            let cv = self.idx() as u128;
            lemma_col_mask(cv);
            assert forall|x: int| mask_view(bits).contains(x) <==> col_cells(self.idx()).contains(
                x,
            ) by {
                if 0 <= x < 81 {
                    lemma_cell_div_mod(x);
                    assert(bit128(bits, x as u128) == bit128(
                        0o001_001_001_001_001_001_001_001_001u128 << cv,
                        x as u128,
                    ));
                }
            }
            assert(mask_view(bits) =~= col_cells(self.idx()));
        }
        CellSet::from_bits(bits)
    }
}

impl Block {
    /// The set of the nine cells of this block: a 3x3 pattern shifted by
    /// band and stack.
    pub fn cells(self) -> (r: CellSet)
        requires
            self.wf(),
        ensures
            r@ == block_cells(self.idx()),
    {
        let bd = self.0 / 3;
        let st = self.0 % 3;
        let bits: u128 = 0o007_007_007u128 << (27 * (bd as u128) + 3 * (st as u128));
        proof {
            let bdv = bd as u128;
            let stv = st as u128;
            lemma_block_mask(bdv, stv);
            lemma_small_div3(self.idx() / 3, self.idx() % 3);
            assert forall|x: int| mask_view(bits).contains(x) <==> block_cells(self.idx()).contains(
                x,
            ) by {
                if 0 <= x < 81 {
                    lemma_cell_div_mod(x);
                    assert(bit128(bits, x as u128) == bit128(
                        0o007_007_007u128 << (27 * bdv + 3 * stv),
                        x as u128,
                    ));
                }
            }
            assert(mask_view(bits) =~= block_cells(self.idx()));
        }
        CellSet::from_bits(bits)
    }
}

impl Band {
    /// The set of the 27 cells of this band.
    pub fn cells(self) -> (r: CellSet)
        requires
            self.wf(),
        ensures
            r@ == band_cells(self.idx()),
    {
        let bits: u128 = 0o777_777_777u128 << (27 * (self.0 as u128));
        proof {
            let bv = self.idx() as u128;
            lemma_band_mask(bv);
            assert forall|x: int| mask_view(bits).contains(x) <==> band_cells(self.idx()).contains(
                x,
            ) by {
                if 0 <= x < 81 {
                    lemma_cell_div_mod(x);
                    assert(bit128(bits, x as u128) == bit128(0o777_777_777u128 << (27 * bv), x as u128));
                }
            }
            assert(mask_view(bits) =~= band_cells(self.idx()));
        }
        CellSet::from_bits(bits)
    }
}

impl Stack {
    /// The set of the 27 cells of this stack.
    pub fn cells(self) -> (r: CellSet)
        requires
            self.wf(),
        ensures
            r@ == stack_cells(self.idx()),
    {
        let bits: u128 = 0o007_007_007_007_007_007_007_007_007u128 << (3 * (self.0 as u128));
        proof {
            let sv = self.idx() as u128;
            lemma_stack_mask(sv);
            assert forall|x: int| mask_view(bits).contains(x) <==> stack_cells(self.idx()).contains(
                x,
            ) by {
                if 0 <= x < 81 {
                    lemma_cell_div_mod(x);
                    assert(bit128(bits, x as u128) == bit128(
                        0o007_007_007_007_007_007_007_007_007u128 << (3 * sv),
                        x as u128,
                    ));
                }
            }
            assert(mask_view(bits) =~= stack_cells(self.idx()));
        }
        CellSet::from_bits(bits)
    }
}

impl MiniRow {
    /// The set of the three cells of this minirow.
    pub fn cells(self) -> (r: CellSet)
        requires
            self.wf(),
        ensures
            r@ == minirow_cells(self.idx()),
    {
        let bits: u128 = 0o7u128 << (3 * (self.0 as u128));
        proof {
            let mv = self.idx() as u128;
            lemma_minirow_mask(mv);
            lemma_small_div3(self.idx() / 3, self.idx() % 3);
            assert forall|x: int| mask_view(bits).contains(x) <==> minirow_cells(
                self.idx(),
            ).contains(x) by {
                if 0 <= x < 81 {
                    lemma_cell_div_mod(x);
                    assert(bit128(bits, x as u128) == bit128(0o7u128 << (3 * mv), x as u128));
                    if mask_view(bits).contains(x) {
                        lemma_small_div9(self.idx() / 3, x - 9 * (self.idx() / 3));
                        lemma_small_div3(self.idx() % 3, x - 9 * (self.idx() / 3) - 3 * (self.idx()
                            % 3));
                    }
                    if minirow_cells(self.idx()).contains(x) {
                        assert(x == 9 * (self.idx() / 3) + 3 * (self.idx() % 3) + spec_col(x) % 3);
                    }
                }
            }
            assert(mask_view(bits) =~= minirow_cells(self.idx()));
        }
        CellSet::from_bits(bits)
    }
}

impl MiniCol {
    /// The set of the three cells of this minicol.
    pub fn cells(self) -> (r: CellSet)
        requires
            self.wf(),
        ensures
            r@ == minicol_cells(self.idx()),
    {
        let bd = self.0 % 3;
        let cl = self.0 / 3;
        let bits: u128 = 0o001_001_001u128 << (27 * (bd as u128) + (cl as u128));
        proof {
            let bdv = bd as u128;
            let clv = cl as u128;
            lemma_minicol_mask(bdv, clv);
            lemma_small_div3(self.idx() / 3, self.idx() % 3);
            assert forall|x: int| mask_view(bits).contains(x) <==> minicol_cells(
                self.idx(),
            ).contains(x) by {
                if 0 <= x < 81 {
                    lemma_cell_div_mod(x);
                    assert(bit128(bits, x as u128) == bit128(
                        0o001_001_001u128 << (27 * bdv + clv),
                        x as u128,
                    ));
                }
            }
            assert(mask_view(bits) =~= minicol_cells(self.idx()));
        }
        CellSet::from_bits(bits)
    }
}

impl Line {
    /// The set of the nine cells of this line.
    pub fn cells(self) -> (r: CellSet)
        requires
            self.wf(),
        ensures
            r@ == line_cells(self.idx()),
    {
        match self.categorize() {
            LineType::Row(row) => row.cells(),
            LineType::Col(c) => c.cells(),
        }
    }
}

impl House {
    /// The set of the nine cells of this house.
    pub fn cells(self) -> (r: CellSet)
        requires
            self.wf(),
        ensures
            r@ == house_cells(self.idx()),
    {
        match self.categorize() {
            HouseType::Row(row) => row.cells(),
            HouseType::Col(c) => c.cells(),
            HouseType::Block(b) => b.cells(),
        }
    }
}

impl Chute {
    /// The set of the 27 cells of this chute.
    pub fn cells(self) -> (r: CellSet)
        requires
            self.wf(),
        ensures
            r@ == chute_cells(self.idx()),
    {
        match self.categorize() {
            ChuteType::Band(b) => b.cells(),
            ChuteType::Stack(st) => st.cells(),
        }
    }
}

impl MiniLine {
    /// The set of the three cells of this miniline.
    pub fn cells(self) -> (r: CellSet)
        requires
            self.wf(),
        ensures
            r@ == miniline_cells(self.idx()),
    {
        match self.categorize() {
            MiniLineType::MiniRow(m) => m.cells(),
            MiniLineType::MiniCol(m) => m.cells(),
        }
    }
}

impl Cell {
    /// The set of the 20 cells that share a house with this one.
    pub fn neighbors_set(self) -> (r: CellSet)
        requires
            self.wf(),
        ensures
            r@ == neighbors_of(self.idx()),
    {
        let u = self.row().cells().union(self.col().cells()).union(self.block().cells());
        let r = u.symmetric_difference(CellSet::singleton(self));
        proof {
            assert(u@.contains(self.idx()));
            assert(r@ =~= neighbors_of(self.idx()));
        }
        r
    }

    /// The 20 cells that share a house with this one, in ascending index
    /// order.
    pub fn neighbors(self) -> (v: Vec<Cell>)
        requires
            self.wf(),
        ensures
            forall|k: int|
                0 <= k < v@.len() ==> (#[trigger] v@[k]).wf() && neighbors_of(self.idx()).contains(
                    v@[k].idx(),
                ),
            forall|k1: int, k2: int| 0 <= k1 < k2 < v@.len() ==> v@[k1].idx() < v@[k2].idx(),
            forall|i: int|
                #[trigger] neighbors_of(self.idx()).contains(i) ==> exists|k: int|
                    0 <= k < v@.len() && v@[k].idx() == i,
            v@.len() == 20,
    {
        let c = self.get();
        let mut v: Vec<Cell> = Vec::new();
        proof {
            broadcast use vstd::set::group_set_axioms;

            assert(neighbors_of(self.idx()).intersect(set_int_range(0, 0)) =~= Set::<int>::empty());
        }
        for i in 0..81u8
            invariant
                c == self.idx(),
                self.wf(),
                forall|k: int|
                    0 <= k < v@.len() ==> (#[trigger] v@[k]).wf() && neighbors_of(
                        self.idx(),
                    ).contains(v@[k].idx()) && v@[k].idx() < i,
                forall|k1: int, k2: int| 0 <= k1 < k2 < v@.len() ==> v@[k1].idx() < v@[k2].idx(),
                forall|j: int|
                    0 <= j < i && #[trigger] neighbors_of(self.idx()).contains(j) ==> exists|k: int|
                        0 <= k < v@.len() && v@[k].idx() == j,
                v@.len() == neighbors_of(self.idx()).intersect(set_int_range(0, i as int)).len(),
                neighbors_of(self.idx()).intersect(set_int_range(0, i as int)).finite(),
        {
            proof {
                broadcast use vstd::set::group_set_axioms;

                let s0 = neighbors_of(self.idx()).intersect(set_int_range(0, i as int));
                let s1 = neighbors_of(self.idx()).intersect(set_int_range(0, i as int + 1));
                if neighbors_of(self.idx()).contains(i as int) {
                    assert(s1 =~= s0.insert(i as int));
                } else {
                    assert(s1 =~= s0);
                }
            }
            let is_nb = i != c && (row(i) == row(c) || col(i) == col(c) || block(i) == block(c));
            if is_nb {
                let ghost old_v = v@;
                v.push(Cell::new(i));
                proof {
                    assert forall|j: int|
                        0 <= j < i as int + 1 && #[trigger] neighbors_of(self.idx()).contains(
                            j,
                        ) implies exists|k: int| 0 <= k < v@.len() && v@[k].idx() == j by {
                        if j < i as int {
                            let k = choose|k: int| 0 <= k < old_v.len() && old_v[k].idx() == j;
                            assert(v@[k].idx() == j);
                        } else {
                            assert(v@[old_v.len() as int].idx() == j);
                        }
                    }
                }
            } else {
                proof {
                    assert forall|j: int|
                        0 <= j < i as int + 1 && #[trigger] neighbors_of(self.idx()).contains(
                            j,
                        ) implies exists|k: int| 0 <= k < v@.len() && v@[k].idx() == j by {
                        if j == i as int {
                            assert(!neighbors_of(self.idx()).contains(i as int));
                        }
                    }
                }
            }
        }
        proof {
            assert(neighbors_of(self.idx()).intersect(set_int_range(0, 81)) =~= neighbors_of(
                self.idx(),
            ));
            lemma_neighbors(self.idx());
        }
        v
    }
}

/// Trait for cell groupings whose cells are enumerated by position.
pub trait CellAt: Sized + Copy {
    /// Whether this grouping value is well formed.
    spec fn at_wf(self) -> bool;

    /// The cell index at position `p` of this grouping.
    spec fn spec_cell_at(self, p: int) -> int;

    /// Return the cell at the given position in this cell grouping.
    fn cell_at(self, pos: Position<Self>) -> (c: Cell)
        requires
            self.at_wf(),
            0 <= pos.idx() < 9,
        ensures
            c.wf(),
            c.idx() == self.spec_cell_at(pos.idx()),
    ;

    /// Return the set of cells at the given positions in this cell grouping.
    fn cells_at(self, positions: PositionSet<Self>) -> (r: CellSet)
        requires
            self.at_wf(),
        ensures
            forall|x: int|
                #[trigger] r@.contains(x) <==> exists|p: int|
                    #[trigger] positions@.contains(p) && x == self.spec_cell_at(p),
    {
        let mut r = CellSet::empty();
        for j in 0..9u8
            invariant
                self.at_wf(),
                forall|x: int|
                    #[trigger] r@.contains(x) <==> exists|p: int|
                        0 <= p < j && #[trigger] positions@.contains(p) && x == self.spec_cell_at(
                            p,
                        ),
        {
            if positions.contains_index(j) {
                let ghost old_r = r@;
                r = r.union(CellSet::singleton(self.cell_at(Position::new(j))));
                proof {
                    assert forall|x: int|
                        r@.contains(x) <==> exists|p: int|
                            0 <= p < j as int + 1 && #[trigger] positions@.contains(p) && x
                                == self.spec_cell_at(p) by {
                        if r@.contains(x) {
                            if old_r.contains(x) {
                                let p = choose|p: int|
                                    0 <= p < j as int && #[trigger] positions@.contains(p) && x
                                        == self.spec_cell_at(p);
                                assert(0 <= p < j as int + 1 && positions@.contains(p) && x
                                    == self.spec_cell_at(p));
                            } else {
                                assert(positions@.contains(j as int) && x == self.spec_cell_at(
                                    j as int,
                                ));
                            }
                        } else {
                            assert forall|p: int|
                                0 <= p < j as int + 1 && #[trigger] positions@.contains(p) implies x
                                != self.spec_cell_at(p) by {
                                if p < j as int {
                                    assert(!old_r.contains(x));
                                }
                            }
                        }
                    }
                }
            } else {
                proof {
                    assert forall|x: int|
                        r@.contains(x) <==> exists|p: int|
                            0 <= p < j as int + 1 && #[trigger] positions@.contains(p) && x
                                == self.spec_cell_at(p) by {
                        if !r@.contains(x) {
                            assert forall|p: int|
                                0 <= p < j as int + 1 && #[trigger] positions@.contains(p) implies x
                                != self.spec_cell_at(p) by {
                                if p == j as int {
                                    assert(!positions@.contains(j as int));
                                }
                            }
                        }
                    }
                }
            }
        }
        proof {
            lemma_position_set_view_bounds(positions);
            assert forall|x: int|
                #[trigger] r@.contains(x) <==> exists|p: int|
                    #[trigger] positions@.contains(p) && x == self.spec_cell_at(p) by {
                if r@.contains(x) {
                    let p = choose|p: int|
                        0 <= p < 9 && #[trigger] positions@.contains(p) && x == self.spec_cell_at(
                            p,
                        );
                    assert(positions@.contains(p) && x == self.spec_cell_at(p));
                }
                if exists|p: int| #[trigger] positions@.contains(p) && x == self.spec_cell_at(p) {
                    let p = choose|p: int|
                        #[trigger] positions@.contains(p) && x == self.spec_cell_at(p);
                    assert(0 <= p < 9);
                }
            }
        }
        r
    }
}

impl CellAt for Row {
    open spec fn at_wf(self) -> bool {
        self.wf()
    }

    open spec fn spec_cell_at(self, p: int) -> int {
        row_cell_at(self.idx(), p)
    }

    fn cell_at(self, pos: Position<Row>) -> (c: Cell) {
        Cell::new(self.0 * 9 + pos.get())
    }
}

impl CellAt for Col {
    open spec fn at_wf(self) -> bool {
        self.wf()
    }

    open spec fn spec_cell_at(self, p: int) -> int {
        col_cell_at(self.idx(), p)
    }

    fn cell_at(self, pos: Position<Col>) -> (c: Cell) {
        Cell::new(pos.get() * 9 + self.0)
    }
}

impl CellAt for Block {
    open spec fn at_wf(self) -> bool {
        self.wf()
    }

    open spec fn spec_cell_at(self, p: int) -> int {
        block_cell_at(self.idx(), p)
    }

    fn cell_at(self, pos: Position<Block>) -> (c: Cell) {
        let bd = self.0 / 3;
        let st = self.0 % 3;
        let rib = pos.get() / 3;
        let cis = pos.get() % 3;
        let r = bd * 3 + rib;
        let cl = st * 3 + cis;
        proof {
            lemma_small_div3(self.idx() / 3, self.idx() % 3);
            lemma_small_div3(pos.idx() / 3, pos.idx() % 3);
        }
        Cell::new(r * 9 + cl)
    }
}

impl CellAt for Line {
    open spec fn at_wf(self) -> bool {
        self.wf()
    }

    open spec fn spec_cell_at(self, p: int) -> int {
        line_cell_at(self.idx(), p)
    }

    fn cell_at(self, pos: Position<Line>) -> (c: Cell) {
        match self.categorize() {
            LineType::Row(row) => row.cell_at(Position::new(pos.get())),
            LineType::Col(c) => c.cell_at(Position::new(pos.get())),
        }
    }
}

impl CellAt for House {
    open spec fn at_wf(self) -> bool {
        self.wf()
    }

    open spec fn spec_cell_at(self, p: int) -> int {
        house_cell_at(self.idx(), p)
    }

    fn cell_at(self, pos: Position<House>) -> (c: Cell) {
        match self.categorize() {
            HouseType::Row(row) => row.cell_at(Position::new(pos.get())),
            HouseType::Col(c) => c.cell_at(Position::new(pos.get())),
            HouseType::Block(b) => b.cell_at(Position::new(pos.get())),
        }
    }
}


/// The exact size of a union of finite sets:
/// `|a ∪ b| == |a| + |b| - |a ∩ b|`.
pub proof fn lemma_len_union_exact(a: Set<int>, b: Set<int>)
    requires
        a.finite(),
        b.finite(),
    ensures
        a.union(b).finite(),
        a.intersect(b).finite(),
        a.union(b).len() == a.len() + b.len() - a.intersect(b).len(),
    decreases a.len(),
{
    broadcast use vstd::set::group_set_axioms;

    if a.len() == 0 {
        a.lemma_len0_is_empty();
        assert(a.union(b) =~= b);
        assert(a.intersect(b) =~= Set::<int>::empty());
    } else {
        let x = a.choose();
        assert(a.contains(x));
        let a2 = a.remove(x);
        lemma_len_union_exact(a2, b);
        if b.contains(x) {
            assert(a.union(b) =~= a2.union(b));
            assert(a.intersect(b) =~= a2.intersect(b).insert(x));
            assert(!a2.intersect(b).contains(x));
        } else {
            assert(a.union(b) =~= a2.union(b).insert(x));
            assert(a.intersect(b) =~= a2.intersect(b));
            assert(!a2.union(b).contains(x));
        }
    }
}

/// A set enumerated without repetition by a function on `0..n` has exactly
/// `n` elements.
pub proof fn lemma_enum_card(s: Set<int>, e: spec_fn(int) -> int, n: int)
    requires
        n >= 0,
        forall|j1: int, j2: int| 0 <= j1 < j2 < n ==> #[trigger] e(j1) != #[trigger] e(j2),
        forall|x: int| #[trigger] s.contains(x) <==> exists|j: int| 0 <= j < n && x == #[trigger] e(j),
    ensures
        s.finite(),
        s.len() == n,
    decreases n,
{
    broadcast use vstd::set::group_set_axioms;

    if n == 0 {
        assert(s =~= Set::<int>::empty());
    } else {
        let s0 = Set::new(|x: int| exists|j: int| 0 <= j < n - 1 && x == #[trigger] e(j));
        lemma_enum_card(s0, e, n - 1);
        assert(!s0.contains(e(n - 1)));
        assert forall|x: int| s.contains(x) <==> s0.insert(e(n - 1)).contains(x) by {
            if s.contains(x) {
                let j = choose|j: int| 0 <= j < n && x == #[trigger] e(j);
                if j < n - 1 {
                    assert(s0.contains(x));
                }
            }
            if s0.insert(e(n - 1)).contains(x) {
                if s0.contains(x) {
                    let j = choose|j: int| 0 <= j < n - 1 && x == #[trigger] e(j);
                    assert(0 <= j < n && x == e(j));
                } else {
                    assert(x == e(n - 1));
                }
                assert(s.contains(x));
            }
        }
        assert(s =~= s0.insert(e(n - 1)));
    }
}

/// A set enumerated by a function on `0..n`, repetitions allowed, has at
/// most `n` elements.
pub proof fn lemma_enum_card_upper(s: Set<int>, e: spec_fn(int) -> int, n: int)
    requires
        n >= 0,
        forall|x: int| #[trigger] s.contains(x) <==> exists|j: int| 0 <= j < n && x == #[trigger] e(j),
    ensures
        s.finite(),
        s.len() <= n,
    decreases n,
{
    broadcast use vstd::set::group_set_axioms;

    if n == 0 {
        assert(s =~= Set::<int>::empty());
    } else {
        let s0 = Set::new(|x: int| exists|j: int| 0 <= j < n - 1 && x == #[trigger] e(j));
        lemma_enum_card_upper(s0, e, n - 1);
        assert forall|x: int| s.contains(x) implies s0.insert(e(n - 1)).contains(x) by {
            let j = choose|j: int| 0 <= j < n && x == #[trigger] e(j);
            if j < n - 1 {
                assert(s0.contains(x));
            }
        }
        vstd::set_lib::lemma_len_subset(s, s0.insert(e(n - 1)));
    }
}

/// Each house is enumerated exactly by its `cell_at` function: positions
/// `0..9` map one-to-one onto the house's cells.
pub proof fn lemma_house_enum(h: int)
    requires
        0 <= h < 27,
    ensures
        forall|j: int| 0 <= j < 9 ==> 0 <= #[trigger] house_cell_at(h, j) < 81,
        forall|j1: int, j2: int|
            0 <= j1 < j2 < 9 ==> #[trigger] house_cell_at(h, j1) != #[trigger] house_cell_at(h, j2),
        forall|x: int|
            #[trigger] house_cells(h).contains(x) <==> exists|j: int|
                0 <= j < 9 && x == #[trigger] house_cell_at(h, j),
{
    assert forall|j: int| 0 <= j < 9 implies 0 <= #[trigger] house_cell_at(h, j) < 81 by {
        lemma_house_cell_at_bounds(h, j);
    }
    assert forall|j1: int, j2: int|
        0 <= j1 < j2 < 9 implies #[trigger] house_cell_at(h, j1) != #[trigger] house_cell_at(
        h,
        j2,
    ) by {
        lemma_house_cell_at_bounds(h, j1);
        lemma_house_cell_at_bounds(h, j2);
    }
    assert forall|x: int|
        #[trigger] house_cells(h).contains(x) <==> exists|j: int|
            0 <= j < 9 && x == #[trigger] house_cell_at(h, j) by {
        if house_cells(h).contains(x) {
            lemma_cell_div_mod(x);
            if h < 9 {
                assert(0 <= spec_col(x) < 9 && x == house_cell_at(h, spec_col(x)));
            } else if h < 18 {
                assert(0 <= spec_row(x) < 9 && x == house_cell_at(h, spec_row(x)));
            } else {
                assert(0 <= spec_block_pos(x) < 9 && x == house_cell_at(h, spec_block_pos(x)));
            }
        }
        if exists|j: int| 0 <= j < 9 && x == #[trigger] house_cell_at(h, j) {
            let j = choose|j: int| 0 <= j < 9 && x == #[trigger] house_cell_at(h, j);
            lemma_house_cell_at_bounds(h, j);
            assert(house_cells(h).contains(x));
        }
    }
}

/// `cell_at` stays inside the grid and lands in its own house, with the
/// expected row, column and block.
proof fn lemma_house_cell_at_bounds(h: int, j: int)
    requires
        0 <= h < 27,
        0 <= j < 9,
    ensures
        0 <= house_cell_at(h, j) < 81,
        h < 9 ==> spec_row(house_cell_at(h, j)) == h && spec_col(house_cell_at(h, j)) == j,
        9 <= h < 18 ==> spec_col(house_cell_at(h, j)) == h - 9 && spec_row(house_cell_at(h, j))
            == j,
        18 <= h < 27 ==> spec_block(house_cell_at(h, j)) == h - 18 && spec_block_pos(
            house_cell_at(h, j),
        ) == j,
{
    if h < 9 {
        lemma_small_div9(h, j);
    } else if h < 18 {
        lemma_small_div9(j, h - 9);
    } else {
        let b = h - 18;
        lemma_small_div3(b / 3, b % 3);
        lemma_small_div3(j / 3, j % 3);
        let r = 3 * (b / 3) + j / 3;
        let cl = 3 * (b % 3) + j % 3;
        let x = 9 * r + cl;
        lemma_small_div9(r, cl);
        lemma_cell_div_mod(x);
        assert(spec_row(x) == r && spec_col(x) == cl);
        lemma_small_div3(b / 3, j / 3);
        lemma_small_div3(b % 3, j % 3);
        assert(spec_band(x) == b / 3);
        assert(spec_stack(x) == b % 3);
        assert(spec_block(x) == b);
        assert(spec_row(x) % 3 == j / 3 && spec_col(x) % 3 == j % 3);
    }
}

/// Every house owns exactly nine cells.
pub proof fn lemma_house_cells_card(h: int)
    requires
        0 <= h < 27,
    ensures
        house_cells(h).finite(),
        house_cells(h).len() == 9,
{
    lemma_house_enum(h);
    let e = |j: int| house_cell_at(h, j);
    assert forall|x: int|
        #[trigger] house_cells(h).contains(x) <==> exists|j: int|
            0 <= j < 9 && x == #[trigger] e(j) by {
        if house_cells(h).contains(x) {
            let j = choose|j: int| 0 <= j < 9 && x == #[trigger] house_cell_at(h, j);
            assert(e(j) == house_cell_at(h, j));
        }
        if exists|j: int| 0 <= j < 9 && x == #[trigger] e(j) {
            let j = choose|j: int| 0 <= j < 9 && x == #[trigger] e(j);
            assert(x == house_cell_at(h, j));
        }
    }
    assert forall|j1: int, j2: int| 0 <= j1 < j2 < 9 implies #[trigger] e(j1) != #[trigger] e(
        j2,
    ) by {
        assert(house_cell_at(h, j1) != house_cell_at(h, j2));
    }
    lemma_enum_card(house_cells(h), e, 9);
}

/// Every cell lies in exactly three houses: its row, its column and its
/// block; those three house indices are pairwise distinct, so the set of
/// houses covering the cell has exactly three members.
pub proof fn lemma_cell_houses(c: int)
    requires
        0 <= c < 81,
    ensures
        forall|h: int|
            0 <= h < 27 ==> (#[trigger] house_cells(h).contains(c) <==> h == spec_row(c) || h
                == spec_col(c) + 9 || h == spec_block(c) + 18),
        spec_row(c) != spec_col(c) + 9,
        spec_row(c) != spec_block(c) + 18,
        spec_col(c) + 9 != spec_block(c) + 18,
        0 <= spec_row(c) < 9,
        9 <= spec_col(c) + 9 < 18,
        18 <= spec_block(c) + 18 < 27,
        houses_covering(c).finite(),
        houses_covering(c).len() == 3,
{
    broadcast use vstd::set::group_set_axioms;

    lemma_cell_div_mod(c);
    let three = Set::<int>::empty().insert(spec_row(c)).insert(spec_col(c) + 9).insert(
        spec_block(c) + 18,
    );
    assert(houses_covering(c) =~= three);
}

/// The houses whose cells include `c`.
pub open spec fn houses_covering(c: int) -> Set<int> {
    Set::new(|h: int| 0 <= h < 27 && house_cells(h).contains(c))
}

/// The membership conversions round-trip: taking a cell to its row, column
/// or block and its position there, then back through `cell_at`, returns the
/// same cell.
pub proof fn lemma_cell_at_roundtrip(c: int)
    requires
        0 <= c < 81,
    ensures
        row_cell_at(spec_row(c), spec_row_pos(c)) == c,
        col_cell_at(spec_col(c), spec_col_pos(c)) == c,
        block_cell_at(spec_block(c), spec_block_pos(c)) == c,
{
    lemma_cell_div_mod(c);
    lemma_small_div3(spec_row(c) % 3, spec_col(c) % 3);
}

/// Every cell has exactly 20 neighbors, and is not its own neighbor.
pub proof fn lemma_neighbors(c: int)
    requires
        0 <= c < 81,
    ensures
        neighbors_of(c).finite(),
        neighbors_of(c).len() == 20,
        !neighbors_of(c).contains(c),
{
    broadcast use vstd::set::group_set_axioms;

    lemma_cell_div_mod(c);
    let rs = row_cells(spec_row(c));
    let cs = col_cells(spec_col(c));
    let bs = block_cells(spec_block(c));
    assert(rs == house_cells(spec_row(c)));
    assert(cs == house_cells(spec_col(c) + 9));
    assert(bs == house_cells(spec_block(c) + 18));
    lemma_house_cells_card(spec_row(c));
    lemma_house_cells_card(spec_col(c) + 9);
    lemma_house_cells_card(spec_block(c) + 18);

    // The row and the column meet exactly in `c`.
    assert forall|x: int| rs.intersect(cs).contains(x) implies x == c by {
        lemma_cell_div_mod(x);
    }
    assert(rs.intersect(cs) =~= Set::<int>::empty().insert(c));

    // The row and the block meet in the three cells of a minirow.
    let a0 = 9 * spec_row(c) + 3 * spec_stack(c);
    let rb = Set::<int>::empty().insert(a0).insert(a0 + 1).insert(a0 + 2);
    assert forall|x: int| rs.intersect(bs).contains(x) <==> rb.contains(x) by {
        if rs.intersect(bs).contains(x) {
            lemma_cell_div_mod(x);
            assert(x == 9 * spec_row(x) + 3 * spec_stack(x) + spec_col(x) % 3);
        }
        if rb.contains(x) {
            lemma_cell_div_mod(x);
            assert(x == 9 * spec_row(c) + 3 * spec_stack(c) + (x - a0));
            lemma_small_div9(spec_row(c), 3 * spec_stack(c) + (x - a0));
            lemma_small_div3(spec_stack(c), x - a0);
        }
    }
    assert(rs.intersect(bs) =~= rb);

    // The column and the block meet in the three cells of a minicol.
    let b0 = 27 * spec_band(c) + spec_col(c);
    let cb = Set::<int>::empty().insert(b0).insert(b0 + 9).insert(b0 + 18);
    assert forall|x: int| cs.intersect(bs).contains(x) <==> cb.contains(x) by {
        if cs.intersect(bs).contains(x) {
            lemma_cell_div_mod(x);
            assert(x == 27 * spec_band(x) + 9 * (spec_row(x) % 3) + spec_col(x));
        }
        if cb.contains(x) {
            lemma_cell_div_mod(x);
            let t = (x - b0) / 9;
            lemma_small_div9(t, 0);
            assert(x == 27 * spec_band(c) + 9 * t + spec_col(c));
            lemma_small_div27(spec_band(c), 9 * t + spec_col(c));
            lemma_small_div9(3 * spec_band(c) + t, spec_col(c));
        }
    }
    assert(cs.intersect(bs) =~= cb);

    // Cardinalities of the small intersections.
    assert(Set::<int>::empty().insert(c).len() == 1);
    assert(rb.len() == 3);
    assert(cb.len() == 3);

    // The minirow and the minicol meet exactly in `c`.
    assert forall|x: int| rb.intersect(cb).contains(x) implies x == c by {
        lemma_cell_div_mod(x);
    }
    assert(c == 9 * spec_row(c) + 3 * spec_stack(c) + spec_col(c) % 3);
    assert(c == 27 * spec_band(c) + 9 * (spec_row(c) % 3) + spec_col(c));
    assert(rb.contains(c) && cb.contains(c));
    assert(rb.intersect(cb) =~= Set::<int>::empty().insert(c));

    // Inclusion-exclusion over the three houses.
    let u2 = rs.union(cs);
    lemma_len_union_exact(rs, cs);
    assert(u2.len() == 17);
    lemma_len_union_exact(rb, cb);
    assert(rb.union(cb).len() == 5);
    assert(u2.intersect(bs) =~= rb.union(cb));
    let u3 = u2.union(bs);
    lemma_len_union_exact(u2, bs);
    assert(u3.len() == 21);

    // Dropping the cell itself leaves its 20 neighbors.
    assert(u3.contains(c));
    assert(neighbors_of(c) =~= u3.remove(c));
}


/// Whether two cells share a row, a column or a block.
pub fn same_house_ex(a: u8, b: u8) -> (r: bool)
    requires
        a < 81,
        b < 81,
    ensures
        r == same_house(a as int, b as int),
{
    row(a) == row(b) || col(a) == col(b) || block(a) == block(b)
}

} // verus!
