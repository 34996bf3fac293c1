//! The 9x9 board: flat row-major storage of 81 cells, with row, column and
//! box views derived on demand.

use vstd::prelude::*;
use vstd::string::StringExecFns;
use vstd::string::StringSliceAdditionalSpecFns;

use crate::cell::cell_eq;
use crate::cell::excludes_to;
use crate::cell::is_blank_token;
use crate::cell::parse_cell_result;
use crate::cell::NumCell;
use crate::number::digits_of;
use crate::number::is_number_token;
use crate::number::token_value;
use crate::number::Number;
use crate::number::ParseNumberError;

verus! {

/// The coordinate pair addresses one of the 81 cells.
pub open spec fn coord_ok(x: int, y: int) -> bool {
    0 <= x < 9 && 0 <= y < 9
}

/// The two coordinates lie in the same 3x3 box.
pub open spec fn same_box(x1: int, y1: int, x2: int, y2: int) -> bool {
    x1 / 3 == x2 / 3 && y1 / 3 == y2 / 3
}

/// A cell that has just been created: uncertain, all digits possible.
pub open spec fn fresh_cell(c: NumCell) -> bool {
    c is Uncertain && c->Uncertain_0.is_full()
}

/// The 9x9 board: 81 cells in row-major order.
#[derive(Debug)]
pub struct Grid {
    pub cells: Vec<NumCell>,
}

impl Clone for Grid {
    fn clone(&self) -> (r: Self)
        ensures
            r.cells@.len() == self.cells@.len(),
            forall|i: int|
                0 <= i < self.cells@.len() ==> cell_eq(#[trigger] r.cells@[i], self.cells@[i]),
    {
        let r = Grid { cells: self.cells.clone() };
        proof {
            assert forall|i: int|
                0 <= i < self.cells@.len() implies cell_eq(#[trigger] r.cells@[i], self.cells@[i]) by {
                if r.cells@[i] == self.cells@[i] {
                    lemma_cell_eq_refl(self.cells@[i]);
                }
            }
        }
        r
    }
}

proof fn lemma_cell_eq_refl(c: NumCell)
    ensures
        cell_eq(c, c),
{
    match c {
        NumCell::Collapsed(_) => {},
        NumCell::Uncertain(_) => {},
    }
}

impl Grid {
    /// The grid holds exactly 81 well-formed cells.
    pub open spec fn wf(self) -> bool {
        &&& self.cells@.len() == 81
        &&& forall|i: int| 0 <= i < 81 ==> (#[trigger] self.cells@[i]).wf()
    }

    /// The cell at column `x`, row `y` (row-major storage).
    pub open spec fn at(self, x: int, y: int) -> NumCell {
        self.cells@[y * 9 + x]
    }

    /// A fresh board: 81 uncertain cells.
    pub fn new() -> (r: Self)
        ensures
            r.wf(),
            forall|i: int| 0 <= i < 81 ==> fresh_cell(#[trigger] r.cells@[i]),
    {
        let mut cells: Vec<NumCell> = Vec::new();
        let mut i: usize = 0;
        while i < 81
            invariant
                0 <= i <= 81,
                cells@.len() == i,
                forall|j: int| 0 <= j < i ==> fresh_cell(#[trigger] cells@[j]),
                forall|j: int| 0 <= j < i ==> (#[trigger] cells@[j]).wf(),
            decreases 81 - i,
        {
            cells.push(NumCell::new());
            i = i + 1;
        }
        Grid { cells }
    }

    /// Reads the cell at a coordinate; out-of-range coordinates give
    /// nothing.
    pub fn get(&self, x: u8, y: u8) -> (r: Option<&NumCell>)
        requires
            self.wf(),
        ensures
            r is Some <==> coord_ok(x as int, y as int),
            r is Some ==> *r->Some_0 == self.at(x as int, y as int),
    {
        if x < 9 && y < 9 {
            Some(&self.cells[(y as usize) * 9 + (x as usize)])
        } else {
            None
        }
    }

    /// Replaces the cell at a coordinate; returns whether the coordinate
    /// was in range (nothing changes when it is not).
    pub fn set(&mut self, x: u8, y: u8, cell: NumCell) -> (r: bool)
        requires
            old(self).wf(),
        ensures
            r <==> coord_ok(x as int, y as int),
            r ==> final(self).cells@ == old(self).cells@.update(
                (y as int) * 9 + (x as int),
                cell,
            ),
            !r ==> final(self).cells@ == old(self).cells@,
    {
        if x < 9 && y < 9 {
            self.cells.set((y as usize) * 9 + (x as usize), cell);
            true
        } else {
            false
        }
    }

    /// Removes a digit from the domain of the cell at a coordinate;
    /// collapsed cells are unaffected.
    pub(crate) fn exclude_cell(&mut self, x: u8, y: u8, num: Number)
        requires
            old(self).wf(),
            coord_ok(x as int, y as int),
            num.wf(),
        ensures
            final(self).wf(),
            excludes_to(
                old(self).at(x as int, y as int),
                final(self).at(x as int, y as int),
                num@,
            ),
            forall|x2: int, y2: int|
                coord_ok(x2, y2) && !(x2 == x as int && y2 == y as int) ==> final(self).at(
                    x2,
                    y2,
                ) == old(self).at(x2, y2),
    {
        let idx: usize = (y as usize) * 9 + (x as usize);
        match &mut self.cells[idx] {
            NumCell::Uncertain(u) => u.exclude(num),
            NumCell::Collapsed(_) => (),
        }
        proof {
            assert forall|x2: int, y2: int|
                coord_ok(x2, y2) && !(x2 == x as int && y2 == y as int) implies final(self).at(
                x2,
                y2,
            ) == old(self).at(x2, y2) by {
                assert(y2 * 9 + x2 != (y as int) * 9 + (x as int));
            }
        }
    }

    /// A read-only snapshot of row `y`: its 9 cells, left to right.
    pub fn row(&self, row_num: u8) -> (r: Option<Row>)
        requires
            self.wf(),
        ensures
            r is Some <==> row_num < 9,
            r is Some ==> {
                &&& r->Some_0.cells@.len() == 9
                &&& forall|i: int|
                    0 <= i < 9 ==> cell_eq(
                        #[trigger] r->Some_0.cells@[i],
                        self.at(i, row_num as int),
                    )
            },
    {
        if row_num >= 9 {
            return None;
        }
        let mut cells: Vec<NumCell> = Vec::new();
        let mut i: usize = 0;
        while i < 9
            invariant
                0 <= i <= 9,
                self.wf(),
                row_num < 9,
                cells@.len() == i,
                forall|j: int|
                    0 <= j < i ==> cell_eq(#[trigger] cells@[j], self.at(j, row_num as int)),
            decreases 9 - i,
        {
            cells.push(self.cells[(row_num as usize) * 9 + i].clone());
            i = i + 1;
        }
        Some(Row { cells })
    }

    /// A read-only snapshot of column `x`: its 9 cells, top to bottom.
    pub fn col(&self, col_num: u8) -> (r: Option<Column>)
        requires
            self.wf(),
        ensures
            r is Some <==> col_num < 9,
            r is Some ==> {
                &&& r->Some_0.cells@.len() == 9
                &&& forall|i: int|
                    0 <= i < 9 ==> cell_eq(
                        #[trigger] r->Some_0.cells@[i],
                        self.at(col_num as int, i),
                    )
            },
    {
        if col_num >= 9 {
            return None;
        }
        let mut cells: Vec<NumCell> = Vec::new();
        let mut i: usize = 0;
        while i < 9
            invariant
                0 <= i <= 9,
                self.wf(),
                col_num < 9,
                cells@.len() == i,
                forall|j: int|
                    0 <= j < i ==> cell_eq(#[trigger] cells@[j], self.at(col_num as int, j)),
            decreases 9 - i,
        {
            cells.push(self.cells[i * 9 + (col_num as usize)].clone());
            i = i + 1;
        }
        Some(Column { cells })
    }

    /// A read-only snapshot of the `n`-th 3x3 box (row-major box order):
    /// its 9 cells, row-major within the box.
    pub fn group(&self, group_num: u8) -> (r: Option<Group>)
        requires
            self.wf(),
        ensures
            r is Some <==> group_num < 9,
            r is Some ==> {
                &&& r->Some_0.cells@.len() == 9
                &&& forall|i: int|
                    0 <= i < 9 ==> cell_eq(
                        #[trigger] r->Some_0.cells@[i],
                        self.at(
                            (group_num as int) % 3 * 3 + i % 3,
                            (group_num as int) / 3 * 3 + i / 3,
                        ),
                    )
            },
    {
        match nth_group_xy(group_num) {
            None => None,
            Some((gx, gy)) => Some(Group { cells: self.box_snapshot(gx, gy) }),
        }
    }

    /// A read-only snapshot of the 3x3 box containing a coordinate.
    pub fn group_containing(&self, x: u8, y: u8) -> (r: Option<Group>)
        requires
            self.wf(),
        ensures
            r is Some <==> coord_ok(x as int, y as int),
            r is Some ==> {
                &&& r->Some_0.cells@.len() == 9
                &&& forall|i: int|
                    0 <= i < 9 ==> cell_eq(
                        #[trigger] r->Some_0.cells@[i],
                        self.at((x as int) / 3 * 3 + i % 3, (y as int) / 3 * 3 + i / 3),
                    )
            },
    {
        match group_xy_containing_xy(x, y) {
            None => None,
            Some((gx, gy)) => Some(Group { cells: self.box_snapshot(gx, gy) }),
        }
    }

    /// The 9 cells of the box with top-left corner (gx, gy), row-major.
    fn box_snapshot(&self, gx: u8, gy: u8) -> (r: Vec<NumCell>)
        requires
            self.wf(),
            gx <= 6,
            gy <= 6,
        ensures
            r@.len() == 9,
            forall|i: int|
                0 <= i < 9 ==> cell_eq(
                    #[trigger] r@[i],
                    self.at(gx as int + i % 3, gy as int + i / 3),
                ),
    {
        let mut cells: Vec<NumCell> = Vec::new();
        let mut i: usize = 0;
        while i < 9
            invariant
                0 <= i <= 9,
                self.wf(),
                gx <= 6,
                gy <= 6,
                cells@.len() == i,
                forall|j: int|
                    0 <= j < i ==> cell_eq(
                        #[trigger] cells@[j],
                        self.at(gx as int + j % 3, gy as int + j / 3),
                    ),
            decreases 9 - i,
        {
            let xx: usize = (gx as usize) + i % 3;
            let yy: usize = (gy as usize) + i / 3;
            cells.push(self.cells[yy * 9 + xx].clone());
            i = i + 1;
        }
        cells
    }

    /// A write cursor for row `y`.
    pub fn row_mut(&self, row_num: u8) -> (r: Option<RowMut>)
        ensures
            r is Some <==> row_num < 9,
            r is Some ==> r->Some_0.y == row_num,
    {
        if row_num >= 9 {
            None
        } else {
            Some(RowMut { y: row_num })
        }
    }

    /// A write cursor for column `x`.
    pub fn col_mut(&self, col_num: u8) -> (r: Option<ColumnMut>)
        ensures
            r is Some <==> col_num < 9,
            r is Some ==> r->Some_0.x == col_num,
    {
        if col_num >= 9 {
            None
        } else {
            Some(ColumnMut { x: col_num })
        }
    }

    /// A write cursor for the `n`-th 3x3 box.
    pub fn group_mut(&self, group_num: u8) -> (r: Option<GroupMut>)
        ensures
            r is Some <==> group_num < 9,
            r is Some ==> {
                &&& r->Some_0.x == (group_num as int) % 3 * 3
                &&& r->Some_0.y == (group_num as int) / 3 * 3
            },
    {
        match nth_group_xy(group_num) {
            None => None,
            Some((gx, gy)) => Some(GroupMut { x: gx, y: gy }),
        }
    }

    /// A write cursor for the 3x3 box containing a coordinate.
    pub fn group_containing_mut(&self, x: u8, y: u8) -> (r: Option<GroupMut>)
        ensures
            r is Some <==> coord_ok(x as int, y as int),
            r is Some ==> {
                &&& r->Some_0.x == (x as int) / 3 * 3
                &&& r->Some_0.y == (y as int) / 3 * 3
            },
    {
        match group_xy_containing_xy(x, y) {
            None => None,
            Some((gx, gy)) => Some(GroupMut { x: gx, y: gy }),
        }
    }

    /// The flat cell storage, row-major.
    pub fn cells(&self) -> (r: &Vec<NumCell>)
        ensures
            *r == self.cells,
    {
        &self.cells
    }

    /// All 81 coordinates in row-major order (the tie-break order of the
    /// search).
    pub fn positions() -> (r: Vec<(u8, u8)>)
        ensures
            r@.len() == 81,
            forall|k: int|
                0 <= k < 81 ==> #[trigger] r@[k] == (((k % 9) as u8), ((k / 9) as u8)),
    {
        let mut out: Vec<(u8, u8)> = Vec::new();
        let mut k: usize = 0;
        while k < 81
            invariant
                0 <= k <= 81,
                out@.len() == k,
                forall|j: int|
                    0 <= j < k ==> #[trigger] out@[j] == (((j % 9) as u8), ((j / 9) as u8)),
            decreases 81 - k,
        {
            out.push(((k % 9) as u8, (k / 9) as u8));
            k = k + 1;
        }
        out
    }

    /// Every cell with its coordinate, row-major.
    pub fn cells_xy(&self) -> (r: Vec<(u8, u8, NumCell)>)
        requires
            self.wf(),
        ensures
            r@.len() == 81,
            forall|k: int|
                0 <= k < 81 ==> {
                    &&& (#[trigger] r@[k]).0 == (k % 9) as u8
                    &&& r@[k].1 == (k / 9) as u8
                    &&& cell_eq(r@[k].2, self.cells@[k])
                },
    {
        let mut out: Vec<(u8, u8, NumCell)> = Vec::new();
        let mut k: usize = 0;
        while k < 81
            invariant
                0 <= k <= 81,
                self.wf(),
                out@.len() == k,
                forall|j: int|
                    0 <= j < k ==> {
                        &&& (#[trigger] out@[j]).0 == (j % 9) as u8
                        &&& out@[j].1 == (j / 9) as u8
                        &&& cell_eq(out@[j].2, self.cells@[j])
                    },
            decreases 81 - k,
        {
            out.push(((k % 9) as u8, (k / 9) as u8, self.cells[k].clone()));
            k = k + 1;
        }
        out
    }

    /// Renders the board: each row in three indented 3-cell groups,
    /// collapsed cells as their digit, uncertain cells as a dash, and a
    /// blank line after every third row.
    pub fn render(&self) -> (r: String)
        requires
            self.wf(),
        ensures
            r@ == grid_text_upto(*self, 9),
    {
        let mut out = String::new();
        let mut y: u8 = 0;
        while y < 9
            invariant
                0 <= y <= 9,
                self.wf(),
                out@ == grid_text_upto(*self, y as int),
            decreases 9 - y,
        {
            let ghost row_start = out@;
            let mut x: u8 = 0;
            while x < 9
                invariant
                    0 <= x <= 9,
                    y < 9,
                    self.wf(),
                    out@ == row_start + row_text_upto(*self, y as int, x as int),
                decreases 9 - x,
            {
                if x % 3 == 0 {
                    out.append("\t");
                    proof {
                        reveal_strlit("\t");
                    }
                }
                let idx: usize = (y as usize) * 9 + (x as usize);
                match &self.cells[idx] {
                    NumCell::Collapsed(n) => {
                        let d: u8 = n.number();
                        if d == 1 {
                            out.append("1 ");
                            proof {
                                reveal_strlit("1 ");
                            }
                        } else if d == 2 {
                            out.append("2 ");
                            proof {
                                reveal_strlit("2 ");
                            }
                        } else if d == 3 {
                            out.append("3 ");
                            proof {
                                reveal_strlit("3 ");
                            }
                        } else if d == 4 {
                            out.append("4 ");
                            proof {
                                reveal_strlit("4 ");
                            }
                        } else if d == 5 {
                            out.append("5 ");
                            proof {
                                reveal_strlit("5 ");
                            }
                        } else if d == 6 {
                            out.append("6 ");
                            proof {
                                reveal_strlit("6 ");
                            }
                        } else if d == 7 {
                            out.append("7 ");
                            proof {
                                reveal_strlit("7 ");
                            }
                        } else if d == 8 {
                            out.append("8 ");
                            proof {
                                reveal_strlit("8 ");
                            }
                        } else {
                            out.append("9 ");
                            proof {
                                reveal_strlit("9 ");
                            }
                        }
                    },
                    NumCell::Uncertain(_) => {
                        out.append("- ");
                        proof {
                            reveal_strlit("- ");
                        }
                    },
                }
                proof {
                    assert((y as int) * 9 + (x as int) < 81);
                    assert(out@ =~= row_start + row_text_upto(*self, y as int, x as int + 1));
                }
                x = x + 1;
            }
            out.append("\n");
            proof {
                reveal_strlit("\n");
            }
            if y % 3 == 2 {
                out.append("\n");
            }
            proof {
                assert(out@ =~= grid_text_upto(*self, y as int + 1));
            }
            y = y + 1;
        }
        out
    }

    /// Builds a board from whitespace-split grid tokens, read in row-major
    /// order.  Each token is a digit clue or a blank placeholder; the first
    /// bad token aborts with its 1-based position.  Tokens beyond the 81st
    /// are ignored; missing tokens leave the remaining cells blank.
    pub fn from_tokens(tokens: &Vec<&str>) -> (r: Result<Grid, (usize, ParseNumberError)>)
        ensures
            from_tokens_result(tokens@, r),
    {
        let mut grid = Grid::new();
        let ghost m: int = if tokens@.len() < 81 {
            tokens@.len() as int
        } else {
            81
        };
        let mut j: usize = 0;
        while j < 81 && j < tokens.len()
            invariant
                0 <= j <= 81,
                m == if tokens@.len() < 81 {
                    tokens@.len() as int
                } else {
                    81int
                },
                j <= tokens@.len(),
                j <= m,
                grid.wf(),
                forall|k: int| 0 <= k < j ==> token_ok(#[trigger] tokens@[k].spec_bytes()),
                forall|k: int|
                    0 <= k < j ==> cell_matches_token(
                        #[trigger] grid.cells@[k],
                        tokens@[k].spec_bytes(),
                    ),
                forall|k: int| j <= k < 81 ==> fresh_cell(#[trigger] grid.cells@[k]),
            decreases 81 - j,
        {
            match NumCell::parse(tokens[j]) {
                Err(e) => {
                    return Err((j + 1, e));
                },
                Ok(cell) => {
                    let x: u8 = (j % 9) as u8;
                    let y: u8 = (j / 9) as u8;
                    let ghost before = grid.cells@;
                    grid.set(x, y, cell);
                    proof {
                        assert((y as int) * 9 + (x as int) == j as int);
                        assert(grid.cells@ == before.update(j as int, cell));
                    }
                },
            }
            j = j + 1;
        }
        Ok(grid)
    }
}

/// The character a digit renders as.
pub open spec fn digit_char(v: int) -> char {
    if v == 1 {
        '1'
    } else if v == 2 {
        '2'
    } else if v == 3 {
        '3'
    } else if v == 4 {
        '4'
    } else if v == 5 {
        '5'
    } else if v == 6 {
        '6'
    } else if v == 7 {
        '7'
    } else if v == 8 {
        '8'
    } else {
        '9'
    }
}

/// The text of one cell: its digit, or a dash while uncertain, then a
/// space.
pub open spec fn cell_text(c: NumCell) -> Seq<char> {
    match c {
        NumCell::Collapsed(n) => seq![digit_char(n@), ' '],
        NumCell::Uncertain(_) => seq!['-', ' '],
    }
}

/// The indent marker standing before each 3-cell group of a row.
pub open spec fn box_mark(x: int) -> Seq<char> {
    if x % 3 == 0 {
        seq!['\t']
    } else {
        Seq::empty()
    }
}

/// The text of the first `x` cells of row `y`.
pub open spec fn row_text_upto(g: Grid, y: int, x: int) -> Seq<char>
    decreases x,
{
    if x <= 0 {
        Seq::empty()
    } else {
        row_text_upto(g, y, x - 1) + box_mark(x - 1) + cell_text(g.at(x - 1, y))
    }
}

/// The blank line that separates the three horizontal bands.
pub open spec fn band_mark(y: int) -> Seq<char> {
    if y % 3 == 2 {
        seq!['\n']
    } else {
        Seq::empty()
    }
}

/// The text of the first `y` rows of the grid.
pub open spec fn grid_text_upto(g: Grid, y: int) -> Seq<char>
    decreases y,
{
    if y <= 0 {
        Seq::empty()
    } else {
        grid_text_upto(g, y - 1) + row_text_upto(g, y - 1, 9) + seq!['\n'] + band_mark(y - 1)
    }
}

/// The token is acceptable in a grid: a blank placeholder or a digit 1..=9.
pub open spec fn token_ok(s: Seq<u8>) -> bool {
    is_blank_token(s) || (is_number_token(s) && 1 <= token_value(digits_of(s)) <= 9)
}

/// The error a bad token produces.
pub open spec fn token_err(s: Seq<u8>) -> ParseNumberError {
    if !is_number_token(s) || token_value(digits_of(s)) > 255 {
        ParseNumberError::InvalidNumber
    } else {
        ParseNumberError::OutOfRange(token_value(digits_of(s)) as u8)
    }
}

/// The cell is what parsing the token yields.
pub open spec fn cell_matches_token(c: NumCell, s: Seq<u8>) -> bool {
    if is_blank_token(s) {
        fresh_cell(c)
    } else {
        c is Collapsed && c->Collapsed_0.wf() && c->Collapsed_0@ == token_value(digits_of(s))
    }
}

/// What `Grid::from_tokens` returns: the number of consumed tokens is
/// `m = min(81, tokens.len())`; the first bad token among them aborts the
/// build with its 1-based position and parse error.
pub open spec fn from_tokens_result(
    tokens: Seq<&str>,
    r: Result<Grid, (usize, ParseNumberError)>,
) -> bool {
    let m: int = if tokens.len() < 81 {
        tokens.len() as int
    } else {
        81
    };
    match r {
        Result::Ok(g) => {
            &&& forall|k: int| 0 <= k < m ==> token_ok(#[trigger] tokens[k].spec_bytes())
            &&& g.wf()
            &&& forall|k: int|
                0 <= k < m ==> cell_matches_token(#[trigger] g.cells@[k], tokens[k].spec_bytes())
            &&& forall|k: int| m <= k < 81 ==> fresh_cell(#[trigger] g.cells@[k])
        },
        Result::Err((pos, e)) => {
            &&& 1 <= pos <= m
            &&& !token_ok(tokens[pos - 1].spec_bytes())
            &&& forall|k: int| 0 <= k < pos - 1 ==> token_ok(#[trigger] tokens[k].spec_bytes())
            &&& e == token_err(tokens[pos - 1].spec_bytes())
        },
    }
}

/// A read-only row view: a snapshot of its 9 cells, left to right.
#[derive(Debug)]
pub struct Row {
    pub cells: Vec<NumCell>,
}

impl Row {
    pub fn get(&self, i: u8) -> (r: Option<&NumCell>)
        ensures
            r is Some <==> (i as int) < self.cells@.len(),
            r is Some ==> *r->Some_0 == self.cells@[i as int],
    {
        if (i as usize) < self.cells.len() {
            Some(&self.cells[i as usize])
        } else {
            None
        }
    }
}

/// A read-only column view: a snapshot of its 9 cells, top to bottom.
#[derive(Debug)]
pub struct Column {
    pub cells: Vec<NumCell>,
}

impl Column {
    pub fn get(&self, i: u8) -> (r: Option<&NumCell>)
        ensures
            r is Some <==> (i as int) < self.cells@.len(),
            r is Some ==> *r->Some_0 == self.cells@[i as int],
    {
        if (i as usize) < self.cells.len() {
            Some(&self.cells[i as usize])
        } else {
            None
        }
    }
}

/// A read-only box view: a snapshot of its 9 cells, row-major within the
/// box.
#[derive(Debug)]
pub struct Group {
    pub cells: Vec<NumCell>,
}

impl Group {
    pub fn get(&self, i: u8) -> (r: Option<&NumCell>)
        ensures
            r is Some <==> (i as int) < self.cells@.len(),
            r is Some ==> *r->Some_0 == self.cells@[i as int],
    {
        if (i as usize) < self.cells.len() {
            Some(&self.cells[i as usize])
        } else {
            None
        }
    }
}

/// A write cursor over row `y`: applies exclusions to the grid it is
/// handed.
#[derive(Clone, Copy, Debug)]
pub struct RowMut {
    pub y: u8,
}

impl RowMut {
    /// Removes a digit from the domain of every uncertain cell of the row.
    pub fn exclude(&self, grid: &mut Grid, num: Number)
        requires
            old(grid).wf(),
            self.y < 9,
            num.wf(),
        ensures
            final(grid).wf(),
            forall|x2: int, y2: int|
                coord_ok(x2, y2) && y2 == self.y as int ==> excludes_to(
                    old(grid).at(x2, y2),
                    #[trigger] final(grid).at(x2, y2),
                    num@,
                ),
            forall|x2: int, y2: int|
                coord_ok(x2, y2) && y2 != self.y as int ==> #[trigger] final(grid).at(x2, y2)
                    == old(grid).at(x2, y2),
    {
        let ghost g0 = *grid;
        let mut i: u8 = 0;
        while i < 9
            invariant
                0 <= i <= 9,
                self.y < 9,
                num.wf(),
                grid.wf(),
                g0.wf(),
                forall|x2: int, y2: int|
                    coord_ok(x2, y2) && y2 == self.y as int && x2 < i ==> excludes_to(
                        g0.at(x2, y2),
                        #[trigger] grid.at(x2, y2),
                        num@,
                    ),
                forall|x2: int, y2: int|
                    coord_ok(x2, y2) && (y2 != self.y as int || x2 >= i) ==> #[trigger] grid.at(
                        x2,
                        y2,
                    ) == g0.at(x2, y2),
            decreases 9 - i,
        {
            grid.exclude_cell(i, self.y, num);
            i = i + 1;
        }
    }
}

/// A write cursor over column `x`.
#[derive(Clone, Copy, Debug)]
pub struct ColumnMut {
    pub x: u8,
}

impl ColumnMut {
    /// Removes a digit from the domain of every uncertain cell of the
    /// column.
    pub fn exclude(&self, grid: &mut Grid, num: Number)
        requires
            old(grid).wf(),
            self.x < 9,
            num.wf(),
        ensures
            final(grid).wf(),
            forall|x2: int, y2: int|
                coord_ok(x2, y2) && x2 == self.x as int ==> excludes_to(
                    old(grid).at(x2, y2),
                    #[trigger] final(grid).at(x2, y2),
                    num@,
                ),
            forall|x2: int, y2: int|
                coord_ok(x2, y2) && x2 != self.x as int ==> #[trigger] final(grid).at(x2, y2)
                    == old(grid).at(x2, y2),
    {
        let ghost g0 = *grid;
        let mut i: u8 = 0;
        while i < 9
            invariant
                0 <= i <= 9,
                self.x < 9,
                num.wf(),
                grid.wf(),
                g0.wf(),
                forall|x2: int, y2: int|
                    coord_ok(x2, y2) && x2 == self.x as int && y2 < i ==> excludes_to(
                        g0.at(x2, y2),
                        #[trigger] grid.at(x2, y2),
                        num@,
                    ),
                forall|x2: int, y2: int|
                    coord_ok(x2, y2) && (x2 != self.x as int || y2 >= i) ==> #[trigger] grid.at(
                        x2,
                        y2,
                    ) == g0.at(x2, y2),
            decreases 9 - i,
        {
            grid.exclude_cell(self.x, i, num);
            i = i + 1;
        }
    }
}

/// A write cursor over the 3x3 box with top-left corner (x, y).
#[derive(Clone, Copy, Debug)]
pub struct GroupMut {
    pub x: u8,
    pub y: u8,
}

impl GroupMut {
    /// Removes a digit from the domain of every uncertain cell of the box.
    pub fn exclude(&self, grid: &mut Grid, num: Number)
        requires
            old(grid).wf(),
            self.x <= 6,
            self.y <= 6,
            num.wf(),
        ensures
            final(grid).wf(),
            forall|x2: int, y2: int|
                coord_ok(x2, y2) && self.x <= x2 < self.x + 3 && self.y <= y2 < self.y + 3
                    ==> excludes_to(
                    old(grid).at(x2, y2),
                    #[trigger] final(grid).at(x2, y2),
                    num@,
                ),
            forall|x2: int, y2: int|
                coord_ok(x2, y2) && !(self.x <= x2 < self.x + 3 && self.y <= y2 < self.y + 3)
                    ==> #[trigger] final(grid).at(x2, y2) == old(grid).at(x2, y2),
    {
        let ghost g0 = *grid;
        let mut i: u8 = 0;
        while i < 9
            invariant
                0 <= i <= 9,
                self.x <= 6,
                self.y <= 6,
                num.wf(),
                grid.wf(),
                g0.wf(),
                forall|x2: int, y2: int|
                    coord_ok(x2, y2) && self.x <= x2 < self.x + 3 && self.y <= y2 < self.y + 3
                        && (y2 - self.y) * 3 + (x2 - self.x) < i ==> excludes_to(
                        g0.at(x2, y2),
                        #[trigger] grid.at(x2, y2),
                        num@,
                    ),
                forall|x2: int, y2: int|
                    coord_ok(x2, y2) && !(self.x <= x2 < self.x + 3 && self.y <= y2 < self.y + 3
                        && (y2 - self.y) * 3 + (x2 - self.x) < i) ==> #[trigger] grid.at(x2, y2)
                        == g0.at(x2, y2),
            decreases 9 - i,
        {
            let xx: u8 = self.x + i % 3;
            let yy: u8 = self.y + i / 3;
            grid.exclude_cell(xx, yy, num);
            proof {
                assert((yy as int - self.y as int) * 3 + (xx as int - self.x as int) == i as int);
            }
            i = i + 1;
        }
    }
}

/// The top-left corner of the `n`-th 3x3 box (row-major box order).
fn nth_group_xy(n: u8) -> (r: Option<(u8, u8)>)
    ensures
        r is Some <==> n < 9,
        r is Some ==> {
            &&& r->Some_0.0 == (n as int) % 3 * 3
            &&& r->Some_0.1 == (n as int) / 3 * 3
            &&& r->Some_0.0 <= 6
            &&& r->Some_0.1 <= 6
        },
{
    if n >= 9 {
        return None;
    }
    let x: u8 = (n % 3) * 3;
    let y: u8 = (n / 3) * 3;
    Some((x, y))
}

/// The top-left corner of the 3x3 box containing a coordinate.
fn group_xy_containing_xy(x: u8, y: u8) -> (r: Option<(u8, u8)>)
    ensures
        r is Some <==> coord_ok(x as int, y as int),
        r is Some ==> {
            &&& r->Some_0.0 == (x as int) / 3 * 3
            &&& r->Some_0.1 == (y as int) / 3 * 3
            &&& r->Some_0.0 <= 6
            &&& r->Some_0.1 <= 6
        },
{
    if x >= 9 || y >= 9 {
        return None;
    }
    let group_x: u8 = x - (x % 3);
    let group_y: u8 = y - (y % 3);
    Some((group_x, group_y))
}

} // verus!
