use sudolver::Grid;
use sudolver::NumCell;
use sudolver::Number;
use sudolver::ParseNumberError;

#[test]
fn new_grid_is_all_uncertain() {
    let g = Grid::new();
    for y in 0..9u8 {
        for x in 0..9u8 {
            let c = g.get(x, y).unwrap();
            assert!(!c.is_collapsed());
            assert_eq!(c.uncertain().unwrap().entropy(), 9);
        }
    }
}

#[test]
fn get_and_set_are_bounds_checked() {
    let mut g = Grid::new();
    assert!(g.get(9, 0).is_none());
    assert!(g.get(0, 9).is_none());
    assert!(g.get(255, 255).is_none());
    assert!(!g.set(9, 0, NumCell::new()));
    assert!(g.set(4, 7, NumCell::Collapsed(Number::new(2))));
    assert_eq!(g.get(4, 7).unwrap().number(), Some(Number::new(2)));
}

#[test]
fn row_and_col_views_read_the_grid() {
    let mut g = Grid::new();
    g.set(3, 5, NumCell::Collapsed(Number::new(8)));
    let row = g.row(5).unwrap();
    assert_eq!(row.get(3).unwrap().number(), Some(Number::new(8)));
    assert!(row.get(9).is_none());
    let col = g.col(3).unwrap();
    assert_eq!(col.get(5).unwrap().number(), Some(Number::new(8)));
    assert!(g.row(9).is_none());
    assert!(g.col(9).is_none());
}

#[test]
fn group_views_read_row_major_boxes() {
    let mut g = Grid::new();
    // Box 4 has its top-left corner at (3, 3); its fifth cell is (4, 4).
    g.set(4, 4, NumCell::Collapsed(Number::new(6)));
    let grp = g.group(4).unwrap();
    assert_eq!(grp.get(4).unwrap().number(), Some(Number::new(6)));
    let grp2 = g.group_containing(5, 5).unwrap();
    assert_eq!(grp2.get(4).unwrap().number(), Some(Number::new(6)));
    assert!(g.group(9).is_none());
    assert!(g.group_containing(9, 0).is_none());
}

#[test]
fn mut_views_exclude_across_their_line() {
    let mut g = Grid::new();
    g.set(0, 2, NumCell::Collapsed(Number::new(7)));
    let row = g.row_mut(2).unwrap();
    row.exclude(&mut g, Number::new(7));
    for x in 1..9u8 {
        assert_eq!(g.get(x, 2).unwrap().uncertain().unwrap().entropy(), 8);
    }
    // The collapsed cell is untouched, other rows are untouched.
    assert_eq!(g.get(0, 2).unwrap().number(), Some(Number::new(7)));
    assert_eq!(g.get(0, 3).unwrap().uncertain().unwrap().entropy(), 9);

    let col = g.col_mut(5).unwrap();
    col.exclude(&mut g, Number::new(1));
    for y in 0..9u8 {
        let expected = if y == 2 { 7 } else { 8 };
        assert_eq!(g.get(5, y).unwrap().uncertain().unwrap().entropy(), expected);
    }

    let grp = g.group_containing_mut(8, 8).unwrap();
    grp.exclude(&mut g, Number::new(3));
    for y in 6..9u8 {
        for x in 6..9u8 {
            assert_eq!(g.get(x, y).unwrap().uncertain().unwrap().entropy(), 8);
        }
    }
    assert_eq!(g.get(4, 6).unwrap().uncertain().unwrap().entropy(), 9);
}

#[test]
fn positions_cover_the_grid_row_major() {
    let ps = Grid::positions();
    assert_eq!(ps.len(), 81);
    assert_eq!(ps[0], (0, 0));
    assert_eq!(ps[1], (1, 0));
    assert_eq!(ps[9], (0, 1));
    assert_eq!(ps[80], (8, 8));
}

#[test]
fn cells_xy_pairs_cells_with_coordinates() {
    let mut g = Grid::new();
    g.set(2, 1, NumCell::Collapsed(Number::new(9)));
    let all = g.cells_xy();
    assert_eq!(all.len(), 81);
    assert_eq!(all[11].0, 2);
    assert_eq!(all[11].1, 1);
    assert_eq!(all[11].2.number(), Some(Number::new(9)));
    assert_eq!(g.cells().len(), 81);
}

#[test]
fn from_tokens_builds_a_grid() {
    let text = "5 3 . . 7 . . . . \
                6 . . 1 9 5 . . . \
                . 9 8 . . . . 6 . \
                8 . . . 6 . . . 3 \
                4 . . 8 . 3 . . 1 \
                7 . . . 2 . . . 6 \
                . 6 . . . . 2 8 . \
                . . . 4 1 9 . . 5 \
                . . . . 8 . . 7 9";
    let tokens: Vec<&str> = text.split_whitespace().collect();
    let g = Grid::from_tokens(&tokens).unwrap();
    assert_eq!(g.get(0, 0).unwrap().number(), Some(Number::new(5)));
    assert_eq!(g.get(4, 0).unwrap().number(), Some(Number::new(7)));
    assert!(!g.get(2, 0).unwrap().is_collapsed());
    assert_eq!(g.get(8, 8).unwrap().number(), Some(Number::new(9)));
}

#[test]
fn from_tokens_accepts_every_blank_symbol() {
    let tokens: Vec<&str> = vec!["=", "-", ".", ","];
    let g = Grid::from_tokens(&tokens).unwrap();
    for x in 0..4u8 {
        assert!(!g.get(x, 0).unwrap().is_collapsed());
    }
}

#[test]
fn from_tokens_with_fewer_tokens_leaves_blanks() {
    let tokens: Vec<&str> = vec!["1", "2"];
    let g = Grid::from_tokens(&tokens).unwrap();
    assert_eq!(g.get(0, 0).unwrap().number(), Some(Number::new(1)));
    assert_eq!(g.get(1, 0).unwrap().number(), Some(Number::new(2)));
    assert!(!g.get(2, 0).unwrap().is_collapsed());
    assert!(!g.get(8, 8).unwrap().is_collapsed());
}

#[test]
fn from_tokens_reports_first_bad_token_position() {
    let tokens: Vec<&str> = vec!["1", "2", "x", "0", "5"];
    match Grid::from_tokens(&tokens) {
        Err((pos, e)) => {
            assert_eq!(pos, 3);
            assert_eq!(e, ParseNumberError::InvalidNumber);
        },
        Ok(_) => panic!("expected a parse failure"),
    }
    let tokens2: Vec<&str> = vec!["1", "2", "3", "0", "x"];
    match Grid::from_tokens(&tokens2) {
        Err((pos, e)) => {
            assert_eq!(pos, 4);
            assert_eq!(e, ParseNumberError::OutOfRange(0));
        },
        Ok(_) => panic!("expected a parse failure"),
    }
}

#[test]
fn render_blank_board() {
    let g = Grid::new();
    let line = "\t- - - \t- - - \t- - - \n";
    let band = format!("{line}{line}{line}\n");
    let expected = format!("{band}{band}{band}");
    assert_eq!(g.render(), expected);
}

#[test]
fn render_shows_digits() {
    let mut g = Grid::new();
    g.set(0, 0, NumCell::Collapsed(Number::new(5)));
    g.set(4, 0, NumCell::Collapsed(Number::new(1)));
    let rendered = g.render();
    let first_line = rendered.lines().next().unwrap();
    assert_eq!(first_line, "\t5 - - \t- 1 - \t- - - ");
}
