//! Tests for the grid geometry: cells, houses, groupings and their sets.

use sudoku_engine::bitset::CellSet;
use sudoku_engine::bitset::DigitSet;
use sudoku_engine::bitset::PositionSet;
use sudoku_engine::digit::Digit;
use sudoku_engine::positions::Band;
use sudoku_engine::positions::Block;
use sudoku_engine::positions::Cell;
use sudoku_engine::positions::CellAt;
use sudoku_engine::positions::Chute;
use sudoku_engine::positions::ChuteType;
use sudoku_engine::positions::Col;
use sudoku_engine::positions::House;
use sudoku_engine::positions::HouseType;
use sudoku_engine::positions::Line;
use sudoku_engine::positions::LineType;
use sudoku_engine::positions::MiniLine;
use sudoku_engine::positions::MiniLineType;
use sudoku_engine::positions::Position;
use sudoku_engine::positions::Row;
use sudoku_engine::positions::Stack;

#[test]
fn unique() {
    for digit in DigitSet::full().items() {
        assert_eq!(digit.as_set().items().into_iter().count(), 1);
    }
}

#[test]
fn row_cells() {
    for (raw_row, row) in (0..9).map(|r| (r, Row::new(r))) {
        let first_cell = raw_row * 9;

        let iter1 = row.cells().items().into_iter();
        let iter2 = (first_cell..first_cell + 9).map(Cell::new);
        assert!(iter1.eq(iter2));
    }
}

#[test]
fn col_cells() {
    for (raw_col, col) in (0..9).map(|c| (c, Col::new(c))) {
        let iter1 = col.cells().items().into_iter();
        let iter2 = (raw_col..81).step_by(9).map(Cell::new);
        assert!(iter1.eq(iter2));
    }
}

#[test]
fn band_cells() {
    for (raw_band, band) in (0..3).map(|b| (b, Band::new(b))) {
        let first_cell = raw_band * 27;

        let iter1 = band.cells().items().into_iter();
        let iter2 = (first_cell..first_cell + 27).map(Cell::new);
        assert!(iter1.eq(iter2));
    }
}

#[test]
fn stack_cells() {
    for (raw_stack, stack) in (0..3).map(|s| (s, Stack::new(s))) {
        let first_col = raw_stack * 3;

        let iter1 = stack.cells().items().into_iter();

        let iter2 = (0..9)
            .flat_map(|row| {
                let cell = row * 9 + first_col;
                cell..cell + 3
            })
            .map(Cell::new);

        assert!(iter1.eq(iter2));
    }
}

#[test]
fn every_cell_has_twenty_neighbors() {
    for i in 0..81 {
        let c = Cell::new(i);
        let v = c.neighbors();
        assert_eq!(v.len(), 20);
        assert!(!v.iter().any(|x| x.get() == i));
        assert_eq!(c.neighbors_set().count(), 20);
        assert!(!c.neighbors_set().contains(c));
    }
}

#[test]
fn every_house_has_nine_cells() {
    for h in 0..27 {
        assert_eq!(House::new(h).cells().count(), 9);
    }
}

#[test]
fn houses_cover_each_cell_three_times() {
    for i in 0..81 {
        let c = Cell::new(i);
        let covering = (0..27).filter(|&h| House::new(h).cells().contains(c)).count();
        assert_eq!(covering, 3);
        let hs = c.houses();
        assert_eq!(hs.len(), 3);
        for h in hs {
            assert!(House::new(h.get()).cells().contains(c));
        }
    }
}

#[test]
fn membership_conversions_round_trip() {
    for i in 0..81 {
        let c = Cell::new(i);
        let row = c.row();
        let col = c.col();
        let block = c.block();
        assert_eq!(row.cell_at(Position::new(col.get())), c);
        assert_eq!(col.cell_at(Position::new(row.get())), c);
        let block_pos = (row.get() % 3) * 3 + col.get() % 3;
        assert_eq!(block.cell_at(Position::new(block_pos)), c);
        assert_eq!(row.house().cell_at(c.row_pos()), c);
        assert_eq!(col.house().cell_at(c.col_pos()), c);
        assert_eq!(block.house().cell_at(c.block_pos()), c);
    }
}

#[test]
fn categorize_splits_index_spaces() {
    assert!(matches!(Line::new(3).categorize(), LineType::Row(r) if r.get() == 3));
    assert!(matches!(Line::new(12).categorize(), LineType::Col(c) if c.get() == 3));
    assert!(matches!(House::new(7).categorize(), HouseType::Row(r) if r.get() == 7));
    assert!(matches!(House::new(10).categorize(), HouseType::Col(c) if c.get() == 1));
    assert!(matches!(House::new(20).categorize(), HouseType::Block(b) if b.get() == 2));
    assert!(matches!(Chute::new(1).categorize(), ChuteType::Band(b) if b.get() == 1));
    assert!(matches!(Chute::new(4).categorize(), ChuteType::Stack(s) if s.get() == 1));
    assert!(matches!(MiniLine::new(5).categorize(), MiniLineType::MiniRow(m) if m.get() == 5));
    assert!(matches!(MiniLine::new(30).categorize(), MiniLineType::MiniCol(m) if m.get() == 3));
}

#[test]
fn miniline_neighbors_stay_in_line_and_block() {
    let (ln, bn) = MiniLine::new(4).neighbors();
    assert_eq!([ln[0].get(), ln[1].get()], [5, 3]);
    assert_eq!([bn[0].get(), bn[1].get()], [7, 1]);
    let (ln, bn) = MiniLine::new(31).neighbors();
    assert_eq!([ln[0].get(), ln[1].get()], [32, 30]);
    assert_eq!([bn[0].get(), bn[1].get()], [34, 28]);
    let (ln, bn) = MiniLine::new(0).neighbors();
    assert_eq!([ln[0].get(), ln[1].get()], [1, 2]);
    assert_eq!([bn[0].get(), bn[1].get()], [3, 6]);
}

#[test]
fn chute_minilines_are_consecutive() {
    let ch = Chute::new(5);
    let ms = ch.minilines();
    for (k, m) in ms.iter().enumerate() {
        assert_eq!(m.get() as usize, 45 + k);
        assert_eq!(m.chute().get(), 5);
    }
}

#[test]
fn house_positions_as_line_positions() {
    let ps: PositionSet<House> =
        PositionSet::singleton(Position::new(4)).union(PositionSet::singleton(Position::new(7)));
    let ls: PositionSet<Line> = ps.as_line_set();
    assert!(ls.contains(Position::new(4)));
    assert!(ls.contains(Position::new(7)));
    assert!(!ls.contains(Position::new(5)));
}

#[test]
fn cells_at_collects_positions() {
    let row = Row::new(2);
    let ps: PositionSet<Row> =
        PositionSet::singleton(Position::new(0)).union(PositionSet::singleton(Position::new(8)));
    let cs = row.cells_at(ps);
    assert_eq!(cs.count(), 2);
    assert!(cs.contains(Cell::new(18)));
    assert!(cs.contains(Cell::new(26)));
}

#[test]
fn digit_set_operations() {
    let a = Digit::new(1).as_set().insert(Digit::new(2)).insert(Digit::new(3));
    let b = Digit::new(3).as_set().insert(Digit::new(4));
    assert_eq!(a.union(b).count(), 4);
    assert_eq!(a.intersect(b).count(), 1);
    assert_eq!(a.difference(b).count(), 2);
    assert_eq!(a.complement().count(), 6);
    assert!(a.complement().contains(Digit::new(9)));
    assert!(!a.complement().contains(Digit::new(2)));
    assert!(a.remove(Digit::new(1)).remove(Digit::new(2)).remove(Digit::new(3)).is_empty());
    assert_eq!(a.symmetric_difference(b).count(), 3);
    assert!(a.symmetric_difference(b).contains(Digit::new(4)));
    assert!(!a.symmetric_difference(b).contains(Digit::new(3)));
    assert_eq!(DigitSet::full().count(), 9);
    assert!(DigitSet::empty().is_empty());
}

#[test]
fn cell_set_operations() {
    let row = Row::new(0).cells();
    let col = Col::new(0).cells();
    assert_eq!(row.union(col).count(), 17);
    assert_eq!(row.intersect(col).count(), 1);
    assert!(row.intersect(col).contains(Cell::new(0)));
    assert_eq!(row.difference(col).count(), 8);
    assert_eq!(row.symmetric_difference(col).count(), 16);
    assert_eq!(row.complement().count(), 72);
    assert!(CellSet::empty().is_empty());
    assert!(!CellSet::full().is_empty());
    assert_eq!(CellSet::full().count(), 81);
    assert!(CellSet::singleton(Cell::new(40)).contains(Cell::new(40)));
}
