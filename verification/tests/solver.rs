use sudolver::Grid;
use sudolver::NumCell;
use sudolver::Number;
use sudolver::Solver;

fn grid_of(text: &str) -> Grid {
    let tokens: Vec<&str> = text.split_whitespace().collect();
    Grid::from_tokens(&tokens).expect("grid text must parse")
}

fn digit_at(g: &Grid, x: u8, y: u8) -> u8 {
    match g.get(x, y).unwrap().number() {
        Some(n) => n.number(),
        None => 0,
    }
}

/// Every row, column and box holds each digit 1..=9 exactly once.
fn assert_valid(g: &Grid) {
    for y in 0..9u8 {
        let mut seen = [false; 10];
        for x in 0..9u8 {
            let d = digit_at(g, x, y);
            assert!(d >= 1, "cell ({x}, {y}) is not collapsed");
            assert!(!seen[d as usize], "digit {d} twice in row {y}");
            seen[d as usize] = true;
        }
    }
    for x in 0..9u8 {
        let mut seen = [false; 10];
        for y in 0..9u8 {
            let d = digit_at(g, x, y);
            assert!(!seen[d as usize], "digit {d} twice in column {x}");
            seen[d as usize] = true;
        }
    }
    for b in 0..9u8 {
        let mut seen = [false; 10];
        for i in 0..9u8 {
            let x = (b % 3) * 3 + i % 3;
            let y = (b / 3) * 3 + i / 3;
            let d = digit_at(g, x, y);
            assert!(!seen[d as usize], "digit {d} twice in box {b}");
            seen[d as usize] = true;
        }
    }
}

const PUZZLE: &str = "5 3 . . 7 . . . . \
                      6 . . 1 9 5 . . . \
                      . 9 8 . . . . 6 . \
                      8 . . . 6 . . . 3 \
                      4 . . 8 . 3 . . 1 \
                      7 . . . 2 . . . 6 \
                      . 6 . . . . 2 8 . \
                      . . . 4 1 9 . . 5 \
                      . . . . 8 . . 7 9";

const SOLUTION: [[u8; 9]; 9] = [
    [5, 3, 4, 6, 7, 8, 9, 1, 2],
    [6, 7, 2, 1, 9, 5, 3, 4, 8],
    [1, 9, 8, 3, 4, 2, 5, 6, 7],
    [8, 5, 9, 7, 6, 1, 4, 2, 3],
    [4, 2, 6, 8, 5, 3, 7, 9, 1],
    [7, 1, 3, 9, 2, 4, 8, 5, 6],
    [9, 6, 1, 5, 3, 7, 2, 8, 4],
    [2, 8, 7, 4, 1, 9, 6, 3, 5],
    [3, 4, 5, 2, 8, 6, 1, 7, 9],
];

#[test]
fn selection_prefers_lowest_entropy_earliest_position() {
    let mut solver = Solver::new(Grid::new());
    // On a blank board the very first cell wins the tie at entropy 9.
    assert_eq!(solver.least_entropic(), Some((0, 0, 9)));

    // Collapse 1..=7 across row 0 and propagate each clue: the two cells
    // left of row 0 are now the most constrained, and the earlier wins.
    for x in 0..7u8 {
        let n = Number::new(x + 1);
        solver.grid.set(x, 0, NumCell::Collapsed(n));
        solver.propagate(x, 0, n);
    }
    assert_eq!(solver.least_entropic(), Some((7, 0, 2)));
}

#[test]
fn prefilled_valid_board_succeeds_without_backups() {
    let mut rows = String::new();
    for y in 0..9 {
        for x in 0..9 {
            rows.push_str(&format!("{} ", SOLUTION[y][x]));
        }
    }
    let mut solver = Solver::new(grid_of(&rows));
    assert!(solver.solve());
    assert_eq!(solver.backups.len(), 0);
    assert!(solver.least_entropic().is_none());
    assert_valid(&solver.grid);
    for y in 0..9u8 {
        for x in 0..9u8 {
            assert_eq!(digit_at(&solver.grid, x, y), SOLUTION[y as usize][x as usize]);
        }
    }
}

#[test]
fn zero_entropy_during_seeding_fails_with_empty_stack() {
    // The blank cell at (0, 0) sees 1..=5 in its row, 6..=8 in its
    // column and 9 in its box: its domain empties during the initial
    // propagation, and with no backup to pop the solver gives up.
    let mut g = Grid::new();
    for (i, n) in [1u8, 2, 3, 4, 5].iter().enumerate() {
        g.set(i as u8 + 1, 0, NumCell::Collapsed(Number::new(*n)));
    }
    for (i, n) in [6u8, 7, 8].iter().enumerate() {
        g.set(0, i as u8 + 1, NumCell::Collapsed(Number::new(*n)));
    }
    g.set(1, 1, NumCell::Collapsed(Number::new(9)));
    let mut solver = Solver::new(g);
    assert!(!solver.solve());
    assert_eq!(solver.backups.len(), 0);
}

#[test]
fn all_blank_board_solves_to_a_valid_grid() {
    let mut solver = Solver::new(Grid::new());
    assert!(solver.solve());
    assert_valid(&solver.grid);

    // The smallest-candidate policy makes the outcome reproducible.
    let mut again = Solver::new(Grid::new());
    assert!(again.solve());
    for y in 0..9u8 {
        for x in 0..9u8 {
            assert_eq!(digit_at(&solver.grid, x, y), digit_at(&again.grid, x, y));
        }
    }
}

#[test]
fn known_puzzle_reaches_its_unique_solution() {
    let mut solver = Solver::new(grid_of(PUZZLE));
    assert!(solver.solve());
    assert_valid(&solver.grid);
    for y in 0..9u8 {
        for x in 0..9u8 {
            assert_eq!(
                digit_at(&solver.grid, x, y),
                SOLUTION[y as usize][x as usize],
                "mismatch at ({x}, {y})"
            );
        }
    }

    // The rendered text matches the unique solution, digit for digit.
    let mut expected = String::new();
    for y in 0..9 {
        for x in 0..9 {
            if x % 3 == 0 {
                expected.push('\t');
            }
            expected.push_str(&format!("{} ", SOLUTION[y][x]));
        }
        expected.push('\n');
        if y % 3 == 2 {
            expected.push('\n');
        }
    }
    assert_eq!(solver.grid.render(), expected);
}

#[test]
fn contradictory_token_input_fails() {
    // The same contradiction as in the seeding test, written as a full
    // 81-token input.
    let text = ". 1 2 3 4 5 . . . \
                6 9 . . . . . . . \
                7 . . . . . . . . \
                8 . . . . . . . . \
                . . . . . . . . . \
                . . . . . . . . . \
                . . . . . . . . . \
                . . . . . . . . . \
                . . . . . . . . .";
    let mut solver = Solver::new(grid_of(text));
    assert!(!solver.solve());
}

#[test]
fn prefilled_invalid_board_fails() {
    // 81 equal clues: fully collapsed, but no row, column or box is
    // anywhere near valid, so this is no solution.
    let tokens: Vec<&str> = vec!["5"; 81];
    let mut solver = Solver::new(Grid::from_tokens(&tokens).unwrap());
    assert!(!solver.solve());
    // The board is handed back untouched.
    assert_eq!(digit_at(&solver.grid, 0, 0), 5);
    assert_eq!(digit_at(&solver.grid, 8, 8), 5);
}

#[test]
fn duplicate_clues_in_a_row_fail() {
    let text = "5 5 . . . . . . . \
                . . . . . . . . . \
                . . . . . . . . . \
                . . . . . . . . . \
                . . . . . . . . . \
                . . . . . . . . . \
                . . . . . . . . . \
                . . . . . . . . . \
                . . . . . . . . .";
    let mut solver = Solver::new(grid_of(text));
    assert!(!solver.solve());
    assert_eq!(solver.backups.len(), 0);
}

#[test]
fn duplicate_clues_in_a_box_fail() {
    // The two clues share only a box, never a row or column.
    let text = "5 . . . . . . . . \
                . 5 . . . . . . . \
                . . . . . . . . . \
                . . . . . . . . . \
                . . . . . . . . . \
                . . . . . . . . . \
                . . . . . . . . . \
                . . . . . . . . . \
                . . . . . . . . .";
    let mut solver = Solver::new(grid_of(text));
    assert!(!solver.solve());
}
