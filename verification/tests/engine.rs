//! Tests for the grid, the board state, the solver and the generator.

use sudoku_engine::board::grid_is_solved;
use sudoku_engine::board::Sudoku;
use sudoku_engine::candidates::Board;
use sudoku_engine::candidates::CellState;
use sudoku_engine::digit::Digit;
use sudoku_engine::errors::Unsolvable;
use sudoku_engine::generator::generate_from_seed;
use sudoku_engine::positions::Cell;
use sudoku_engine::solver::count_solutions;
use sudoku_engine::solver::solve;

const PUZZLE: [[u8; 9]; 9] = [
    [5, 3, 0, 0, 7, 0, 0, 0, 0],
    [6, 0, 0, 1, 9, 5, 0, 0, 0],
    [0, 9, 8, 0, 0, 0, 0, 6, 0],
    [8, 0, 0, 0, 6, 0, 0, 0, 3],
    [4, 0, 0, 8, 0, 3, 0, 0, 1],
    [7, 0, 0, 0, 2, 0, 0, 0, 6],
    [0, 6, 0, 0, 0, 0, 2, 8, 0],
    [0, 0, 0, 4, 1, 9, 0, 0, 5],
    [0, 0, 0, 0, 8, 0, 0, 7, 9],
];

const SOLUTION: [[u8; 9]; 9] = [
    [5, 3, 4, 6, 7, 8, 9, 1, 2],
    [6, 7, 2, 1, 9, 5, 3, 4, 8],
    [1, 9, 8, 3, 4, 2, 5, 6, 7],
    [8, 5, 9, 7, 6, 1, 4, 2, 3],
    [4, 2, 6, 8, 5, 3, 7, 9, 1],
    [7, 1, 3, 9, 2, 4, 8, 5, 6],
    [9, 6, 1, 5, 3, 7, 2, 8, 4],
    [2, 8, 7, 4, 1, 9, 6, 3, 5],
    [3, 4, 5, 2, 8, 6, 1, 7, 9],
];

#[test]
fn flat_array_round_trip_partial() {
    let s = Sudoku::from_flat_array(&PUZZLE);
    let a = s.to_flat_array();
    assert_eq!(a, PUZZLE);
    let s2 = Sudoku::from_flat_array(&a);
    assert_eq!(s2.to_flat_array(), PUZZLE);
}

#[test]
fn flat_array_round_trip_full() {
    let s = Sudoku::from_flat_array(&SOLUTION);
    let a = s.to_flat_array();
    assert_eq!(a, SOLUTION);
    assert_eq!(Sudoku::from_flat_array(&a).to_flat_array(), SOLUTION);
}

#[test]
fn is_solved_accepts_only_solved_grids() {
    assert!(grid_is_solved(&SOLUTION));
    assert!(!grid_is_solved(&PUZZLE));
    let mut bad = SOLUTION;
    bad[4][4] = 0;
    assert!(!grid_is_solved(&bad));
    let mut wild = SOLUTION;
    wild[0][0] = 200;
    assert!(!grid_is_solved(&wild));
    assert!(Sudoku::from_flat_array(&SOLUTION).is_solved());
    assert!(!Sudoku::from_flat_array(&PUZZLE).is_solved());
}

#[test]
fn placing_twice_is_a_noop_and_conflicts_fail() {
    let mut b = Board::empty();
    let c0 = Cell::new(0);
    assert_eq!(b.place(c0, Digit::new(5)), Ok(()));
    let before = b.to_sudoku().to_flat_array();
    // placing the identical digit again changes nothing
    assert_eq!(b.place(c0, Digit::new(5)), Ok(()));
    assert_eq!(b.to_sudoku().to_flat_array(), before);
    // a different digit in the same cell is a contradiction
    assert_eq!(b.place(c0, Digit::new(6)), Err(Unsolvable));
    // the digit in a neighbor of the placed cell is a contradiction
    assert_eq!(b.place(Cell::new(1), Digit::new(5)), Err(Unsolvable));
    assert_eq!(b.to_sudoku().to_flat_array(), before);
}

#[test]
fn eliminating_an_absent_candidate_is_a_noop() {
    let mut b = Board::empty();
    assert_eq!(b.place(Cell::new(0), Digit::new(5)), Ok(()));
    let count_before = match b.state(1) {
        CellState::Open(t) => t.count(),
        CellState::Placed(_) => unreachable!(),
    };
    assert_eq!(count_before, 8);
    // 5 was already struck from cell 1 when it was placed in cell 0
    assert_eq!(b.eliminate(Cell::new(1), Digit::new(5)), Ok(()));
    let count_after = match b.state(1) {
        CellState::Open(t) => t.count(),
        CellState::Placed(_) => unreachable!(),
    };
    assert_eq!(count_after, 8);
    // eliminating the placed digit itself is a contradiction
    assert_eq!(b.eliminate(Cell::new(0), Digit::new(5)), Err(Unsolvable));
}

#[test]
fn eliminating_the_last_candidate_fails() {
    let mut b = Board::empty();
    for d in 1..9 {
        assert_eq!(b.eliminate(Cell::new(40), Digit::new(d)), Ok(()));
    }
    // only digit 9 remains in cell 40
    assert_eq!(b.eliminate(Cell::new(40), Digit::new(9)), Err(Unsolvable));
}

#[test]
fn solver_finds_the_unique_solution() {
    let s = Sudoku::from_flat_array(&PUZZLE);
    let sol = solve(&s).expect("the puzzle has a solution");
    assert_eq!(sol.to_flat_array(), SOLUTION);
    assert!(sol.is_solved());
    assert_eq!(count_solutions(&s, 2), 1);
}

#[test]
fn solver_reports_contradictory_grids() {
    let mut bad = PUZZLE;
    // a second 5 in the top row contradicts the 5 already there
    bad[0][3] = 5;
    let s = Sudoku::from_flat_array(&bad);
    assert!(solve(&s).is_none());
    assert_eq!(count_solutions(&s, 2), 0);
    assert!(Board::from_grid(&s).is_err());
}

#[test]
fn empty_grid_solves_to_a_valid_grid() {
    let empty = Sudoku::new_empty();
    let sol = solve(&empty).expect("an empty grid has completions");
    assert!(sol.is_solved());
    let a = sol.to_flat_array();
    assert!(grid_is_solved(&a));
    // every row, column and block holds exactly the digits 1..=9
    for k in 0..9usize {
        let mut row = [false; 10];
        let mut col = [false; 10];
        let mut block = [false; 10];
        for j in 0..9usize {
            row[a[k][j] as usize] = true;
            col[a[j][k] as usize] = true;
            block[a[(k / 3) * 3 + j / 3][(k % 3) * 3 + j % 3] as usize] = true;
        }
        for d in 1..10usize {
            assert!(row[d] && col[d] && block[d]);
        }
    }
}

#[test]
fn duplicate_in_a_row_fails_is_solved_and_place() {
    let mut dup = SOLUTION;
    // cell (0,0) now repeats the digit of cell (0,1)
    dup[0][0] = SOLUTION[0][1];
    assert!(!grid_is_solved(&dup));

    let mut open = SOLUTION;
    open[0][0] = 0;
    let s = Sudoku::from_flat_array(&open);
    let mut b = Board::from_grid(&s).expect("the grid without (0,0) is consistent");
    assert_eq!(b.place(Cell::new(0), Digit::new(SOLUTION[0][1])), Err(Unsolvable));
}

#[test]
fn generated_puzzles_have_a_unique_solution_seed_zero() {
    let p = generate_from_seed([0; 32]);
    assert_eq!(count_solutions(&p, 2), 1);
    let sol = solve(&p).expect("a generated puzzle is solvable");
    assert!(sol.is_solved());
}

#[test]
fn generated_puzzles_have_a_unique_solution_seed_seven() {
    let p = generate_from_seed([7; 32]);
    assert_eq!(count_solutions(&p, 2), 1);
}

#[test]
fn generation_is_deterministic_in_the_seed() {
    let a = generate_from_seed([42; 32]);
    let b = generate_from_seed([42; 32]);
    assert_eq!(a.to_flat_array(), b.to_flat_array());
    assert_eq!(count_solutions(&a, 2), 1);
}

#[test]
fn generated_clues_agree_with_their_solution() {
    let p = generate_from_seed([3; 32]);
    let sol = solve(&p).expect("a generated puzzle is solvable");
    let pa = p.to_flat_array();
    let sa = sol.to_flat_array();
    let mut clues = 0;
    for r in 0..9 {
        for c in 0..9 {
            if pa[r][c] != 0 {
                assert_eq!(pa[r][c], sa[r][c]);
                clues += 1;
            }
        }
    }
    assert!(clues >= 17 && clues < 81);
}
