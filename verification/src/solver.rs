//! The solving engine: constraint propagation plus depth-first
//! backtracking search over whole-grid snapshots.

use vstd::prelude::*;
use vstd::arithmetic::power2::pow2;
use vstd::arithmetic::power2::lemma_pow2_pos;
use vstd::arithmetic::power2::lemma_pow2_strictly_increases;
use vstd::arithmetic::power2::lemma_pow2_unfold;
use vstd::seq_lib::*;
use vstd::set_lib::*;

use crate::cell::cell_eq;
use crate::cell::count_true;
use crate::cell::excludes_to;
use crate::cell::lemma_count_true_bounds;
use crate::cell::lemma_count_true_pos;
use crate::cell::lemma_count_true_update;
use crate::cell::lemma_excludes_to_trans;
use crate::cell::NumCell;
use crate::grid::coord_ok;
use crate::grid::same_box;
use crate::grid::ColumnMut;
use crate::grid::Grid;
use crate::grid::GroupMut;
use crate::grid::RowMut;
use crate::number::Number;

verus! {

/// Two distinct coordinates constrain each other: same row, column or box.
pub open spec fn peers(x1: int, y1: int, x2: int, y2: int) -> bool {
    &&& !(x1 == x2 && y1 == y2)
    &&& (y1 == y2 || x1 == x2 || same_box(x1, y1, x2, y2))
}

/// The region a propagation from (x, y) touches: row y, column x, and the
/// box containing (x, y).  The origin itself is part of the region.
pub open spec fn prop_region(x: int, y: int, x2: int, y2: int) -> bool {
    y2 == y || x2 == x || same_box(x, y, x2, y2)
}

/// The cell at (x, y) has collapsed to digit `v`.
pub open spec fn collapsed_to(g: Grid, x: int, y: int, v: int) -> bool {
    g.at(x, y) is Collapsed && g.at(x, y)->Collapsed_0@ == v
}

/// The propagation invariant: every uncertain cell's domain excludes every
/// digit already collapsed elsewhere in its row, column and box.
pub open spec fn propagated(g: Grid) -> bool {
    forall|x1: int, y1: int, x2: int, y2: int|
        #![trigger g.at(x1, y1), g.at(x2, y2)]
        coord_ok(x1, y1) && coord_ok(x2, y2) && peers(x1, y1, x2, y2) && g.at(x1, y1) is Collapsed
            && g.at(x2, y2) is Uncertain ==> !g.at(x2, y2)->Uncertain_0.has(
            g.at(x1, y1)->Collapsed_0@,
        )
}

/// No two collapsed peer cells hold the same digit.
pub open spec fn no_dup(g: Grid) -> bool {
    forall|x1: int, y1: int, x2: int, y2: int|
        #![trigger g.at(x1, y1), g.at(x2, y2)]
        coord_ok(x1, y1) && coord_ok(x2, y2) && peers(x1, y1, x2, y2) && g.at(x1, y1) is Collapsed
            && g.at(x2, y2) is Collapsed ==> g.at(x1, y1)->Collapsed_0@ != g.at(
            x2,
            y2,
        )->Collapsed_0@
}

/// Every cell of the grid has collapsed.
pub open spec fn all_collapsed(g: Grid) -> bool {
    forall|x: int, y: int| coord_ok(x, y) ==> (#[trigger] g.at(x, y)) is Collapsed
}

/// Digit `v` appears exactly once in row `y`.
pub open spec fn row_exactly_once(g: Grid, y: int, v: int) -> bool {
    &&& exists|x: int| 0 <= x < 9 && collapsed_to(g, x, y, v)
    &&& forall|x1: int, x2: int|
        0 <= x1 < 9 && 0 <= x2 < 9 && collapsed_to(g, x1, y, v) && collapsed_to(g, x2, y, v)
            ==> x1 == x2
}

/// Digit `v` appears exactly once in column `x`.
pub open spec fn col_exactly_once(g: Grid, x: int, v: int) -> bool {
    &&& exists|y: int| 0 <= y < 9 && collapsed_to(g, x, y, v)
    &&& forall|y1: int, y2: int|
        0 <= y1 < 9 && 0 <= y2 < 9 && collapsed_to(g, x, y1, v) && collapsed_to(g, x, y2, v)
            ==> y1 == y2
}

/// The `i`-th cell of box `b` (both row-major) has collapsed to `v`.
pub open spec fn box_collapsed_to(g: Grid, b: int, i: int, v: int) -> bool {
    collapsed_to(g, b % 3 * 3 + i % 3, b / 3 * 3 + i / 3, v)
}

/// Digit `v` appears exactly once in box `b` (row-major box order).
pub open spec fn box_exactly_once(g: Grid, b: int, v: int) -> bool {
    &&& exists|i: int| 0 <= i < 9 && #[trigger] box_collapsed_to(g, b, i, v)
    &&& forall|i: int, j: int|
        0 <= i < 9 && 0 <= j < 9 && #[trigger] box_collapsed_to(g, b, i, v)
            && #[trigger] box_collapsed_to(g, b, j, v) ==> i == j
}

/// A completely solved board: every cell collapsed, and every row, column
/// and box contains each digit 1..=9 exactly once.
pub open spec fn valid_solution(g: Grid) -> bool {
    &&& all_collapsed(g)
    &&& forall|y: int, v: int| 0 <= y < 9 && 1 <= v <= 9 ==> #[trigger] row_exactly_once(g, y, v)
    &&& forall|x: int, v: int| 0 <= x < 9 && 1 <= v <= 9 ==> #[trigger] col_exactly_once(g, x, v)
    &&& forall|b: int, v: int| 0 <= b < 9 && 1 <= v <= 9 ==> #[trigger] box_exactly_once(g, b, v)
}

/// The clue cells of `g0` stand unchanged in `g`.
pub open spec fn clues_kept(g0: Grid, g: Grid) -> bool {
    forall|x: int, y: int|
        #![trigger g.at(x, y)]
        coord_ok(x, y) && g0.at(x, y) is Collapsed ==> g.at(x, y) == g0.at(x, y)
}

/// The board `g` still allows the completed board `a`: wherever `g` has
/// collapsed, `a` agrees, and wherever `g` is uncertain, its domain
/// contains `a`'s digit.
pub open spec fn admits(g: Grid, a: Grid) -> bool {
    forall|x: int, y: int|
        #![trigger g.at(x, y)]
        coord_ok(x, y) ==> match g.at(x, y) {
            NumCell::Collapsed(n) => a.at(x, y) == NumCell::Collapsed(n),
            NumCell::Uncertain(u) => a.at(x, y) is Collapsed && u.has(
                a.at(x, y)->Collapsed_0@,
            ),
        }
}

/// A solution of the puzzle posed by `g`: a well-formed, fully valid
/// board that keeps `g`'s collapsed cells and draws every other digit
/// from the corresponding domain.
pub open spec fn solution_of(a: Grid, g: Grid) -> bool {
    a.wf() && valid_solution(a) && admits(g, a)
}

/// The domain size a cell contributes to the search's termination measure.
pub open spec fn cell_pot(c: NumCell) -> int {
    match c {
        NumCell::Uncertain(u) => count_true(u.poss@),
        NumCell::Collapsed(_) => 0,
    }
}

/// The total domain size of a grid's uncertain cells.
pub open spec fn sum_pot(s: Seq<NumCell>) -> int
    decreases s.len(),
{
    if s.len() == 0 {
        0
    } else {
        sum_pot(s.drop_last()) + cell_pot(s.last())
    }
}

/// The solver: the board being worked on, and the stack of snapshots kept
/// for alternate branches.
#[derive(Debug)]
pub struct Solver {
    pub grid: Grid,
    pub backups: Vec<Grid>,
}

impl Solver {
    pub fn new(grid: Grid) -> (r: Self)
        ensures
            r.grid == grid,
            r.backups@.len() == 0,
    {
        Solver { grid, backups: Vec::new() }
    }

    /// Removes `num` from the domain of every uncertain cell in the row,
    /// column and box containing (x, y).
    pub fn propagate(&mut self, x: u8, y: u8, num: Number)
        requires
            old(self).grid.wf(),
            coord_ok(x as int, y as int),
            num.wf(),
        ensures
            final(self).grid.wf(),
            final(self).backups == old(self).backups,
            forall|x2: int, y2: int|
                coord_ok(x2, y2) && prop_region(x as int, y as int, x2, y2) ==> excludes_to(
                    old(self).grid.at(x2, y2),
                    #[trigger] final(self).grid.at(x2, y2),
                    num@,
                ),
            forall|x2: int, y2: int|
                coord_ok(x2, y2) && !prop_region(x as int, y as int, x2, y2)
                    ==> #[trigger] final(self).grid.at(x2, y2) == old(self).grid.at(x2, y2),
    {
        let ghost g0 = self.grid;
        let row = RowMut { y };
        row.exclude(&mut self.grid, num);
        let ghost g1 = self.grid;
        let col = ColumnMut { x };
        col.exclude(&mut self.grid, num);
        let ghost g2 = self.grid;
        let gx: u8 = x - x % 3;
        let gy: u8 = y - y % 3;
        let grp = GroupMut { x: gx, y: gy };
        grp.exclude(&mut self.grid, num);
        proof {
            let xi = x as int;
            let yi = y as int;
            assert(gx as int == xi / 3 * 3 && gy as int == yi / 3 * 3);
            assert forall|x2: int, y2: int| coord_ok(x2, y2) implies {
                &&& (prop_region(xi, yi, x2, y2) ==> excludes_to(
                    g0.at(x2, y2),
                    self.grid.at(x2, y2),
                    num@,
                ))
                &&& (!prop_region(xi, yi, x2, y2) ==> self.grid.at(x2, y2) == g0.at(x2, y2))
            } by {
                let in_box = gx as int <= x2 < gx as int + 3 && gy as int <= y2 < gy as int + 3;
                assert(in_box <==> same_box(xi, yi, x2, y2));
                let a = g0.at(x2, y2);
                let b = g1.at(x2, y2);
                let c = g2.at(x2, y2);
                let d = self.grid.at(x2, y2);
                assert(excludes_to(a, b, num@) || b == a);
                assert(excludes_to(b, c, num@) || c == b);
                assert(excludes_to(c, d, num@) || d == c);
                if prop_region(xi, yi, x2, y2) {
                    lemma_excludes_chain(a, b, c, d, num@);
                }
            }
        }
    }

    /// Picks the uncertain cell with the smallest domain; ties go to the
    /// first such cell in row-major order.  Gives nothing when every cell
    /// has collapsed.
    pub fn least_entropic(&self) -> (r: Option<(u8, u8, usize)>)
        requires
            self.grid.wf(),
        ensures
            r is None <==> all_collapsed(self.grid),
            r is Some ==> {
                let x = r->Some_0.0 as int;
                let y = r->Some_0.1 as int;
                let e = r->Some_0.2 as int;
                &&& coord_ok(x, y)
                &&& self.grid.at(x, y) is Uncertain
                &&& e == cell_pot(self.grid.at(x, y))
                &&& forall|x2: int, y2: int|
                    coord_ok(x2, y2) && (#[trigger] self.grid.at(x2, y2)) is Uncertain ==> e
                        <= cell_pot(self.grid.at(x2, y2))
                &&& forall|x2: int, y2: int|
                    coord_ok(x2, y2) && (#[trigger] self.grid.at(x2, y2)) is Uncertain && y2 * 9
                        + x2 < y * 9 + x ==> e < cell_pot(self.grid.at(x2, y2))
            },
    {
        let mut best: Option<(u8, u8, usize)> = None;
        let mut k: usize = 0;
        while k < 81
            invariant
                0 <= k <= 81,
                self.grid.wf(),
                best is None ==> forall|x2: int, y2: int|
                    coord_ok(x2, y2) && y2 * 9 + x2 < k ==> !((#[trigger] self.grid.at(
                        x2,
                        y2,
                    )) is Uncertain),
                best is Some ==> {
                    let x = best->Some_0.0 as int;
                    let y = best->Some_0.1 as int;
                    let e = best->Some_0.2 as int;
                    &&& coord_ok(x, y)
                    &&& y * 9 + x < k
                    &&& self.grid.at(x, y) is Uncertain
                    &&& e == cell_pot(self.grid.at(x, y))
                    &&& forall|x2: int, y2: int|
                        coord_ok(x2, y2) && (#[trigger] self.grid.at(x2, y2)) is Uncertain && y2
                            * 9 + x2 < k ==> e <= cell_pot(self.grid.at(x2, y2))
                    &&& forall|x2: int, y2: int|
                        coord_ok(x2, y2) && (#[trigger] self.grid.at(x2, y2)) is Uncertain && y2
                            * 9 + x2 < y * 9 + x ==> e < cell_pot(self.grid.at(x2, y2))
                },
            decreases 81 - k,
        {
            let x: u8 = (k % 9) as u8;
            let y: u8 = (k / 9) as u8;
            proof {
                assert((y as int) * 9 + (x as int) == k as int);
            }
            let e_here: Option<usize> = match &self.grid.cells[k] {
                NumCell::Uncertain(u) => Some(u.entropy()),
                NumCell::Collapsed(_) => None,
            };
            if let Some(e) = e_here {
                let better: bool = match &best {
                    Option::None => true,
                    Option::Some(b) => e < b.2,
                };
                if better {
                    best = Some((x, y, e));
                }
            }
            k = k + 1;
        }
        best
    }

    /// Runs propagation and backtracking search to completion: `true`
    /// when the board has been collapsed to a valid solution, `false`
    /// when the board has none.
    ///
    /// A board holding the same digit in two collapsed peer cells is
    /// rejected outright: no propagation step would ever notice such a
    /// pair.  Started with an empty backup stack — the lifecycle
    /// `Solver::new` sets up — success yields a fully valid grid that
    /// keeps every clue, and failure means no valid completion of the
    /// initial board exists.  An already collapsed, duplicate-free board
    /// succeeds immediately and pushes no backup.
    pub fn solve(&mut self) -> (r: bool)
        requires
            old(self).grid.wf(),
            forall|k: int|
                0 <= k < old(self).backups@.len() ==> (#[trigger] old(self).backups@[k]).wf(),
        ensures
            final(self).grid.wf(),
            r ==> all_collapsed(final(self).grid),
            !no_dup(old(self).grid) ==> r == false && final(self).grid.cells@
                == old(self).grid.cells@ && final(self).backups@ == old(self).backups@,
            old(self).backups@.len() == 0 ==> {
                &&& (r ==> valid_solution(final(self).grid))
                &&& clues_kept(old(self).grid, final(self).grid)
                &&& (!r ==> forall|a: Grid| !(#[trigger] solution_of(a, old(self).grid)))
                &&& ((exists|a: Grid| #[trigger] solution_of(a, old(self).grid)) ==> r)
            },
            all_collapsed(old(self).grid) && no_dup(old(self).grid) ==> r && final(self).backups@
                == old(self).backups@ && final(self).grid.cells@ == old(self).grid.cells@,
    {
        let ghost g_init = self.grid;
        let ghost b_init = self.backups@;
        let ghost h: bool = b_init.len() == 0;
        let ghost pre_solved: bool = all_collapsed(g_init);

        // A board with two equal collapsed peers can never be completed,
        // but no propagation step would ever notice the pair: it is
        // rejected outright.
        if has_duplicate_clues(&self.grid) {
            proof {
                lemma_no_solution_with_duplicates(g_init);
                assert(clues_kept(g_init, self.grid));
            }
            return false;
        }

        // Phase 1: walk the grid and propagate every pre-filled clue.
        let mut k: usize = 0;
        while k < 81
            invariant
                0 <= k <= 81,
                self.grid.wf(),
                g_init.wf(),
                no_dup(g_init),
                self.backups@ == b_init,
                forall|k2: int| 0 <= k2 < b_init.len() ==> (#[trigger] b_init[k2]).wf(),
                forall|a: Grid|
                    #![trigger admits(g_init, a)]
                    a.wf() && valid_solution(a) && admits(g_init, a) ==> admits(self.grid, a),
                forall|x: int, y: int|
                    coord_ok(x, y) ==> ((#[trigger] self.grid.at(x, y)) is Collapsed
                        <==> g_init.at(x, y) is Collapsed),
                forall|x: int, y: int|
                    coord_ok(x, y) && g_init.at(x, y) is Collapsed ==> #[trigger] self.grid.at(
                        x,
                        y,
                    ) == g_init.at(x, y),
                forall|x: int, y: int, w: int|
                    coord_ok(x, y) && self.grid.at(x, y) is Uncertain
                        && #[trigger] self.grid.at(x, y)->Uncertain_0.has(w) ==> g_init.at(
                        x,
                        y,
                    )->Uncertain_0.has(w),
                forall|j: int| 0 <= j < k ==> #[trigger] clue_done(g_init, self.grid, j),
            decreases 81 - k,
        {
            let x: u8 = (k % 9) as u8;
            let y: u8 = (k / 9) as u8;
            proof {
                assert((y as int) * 9 + (x as int) == k as int);
                assert(self.grid.cells@[k as int].wf());
            }
            let num_opt: Option<Number> = match &self.grid.cells[k] {
                NumCell::Collapsed(n) => Some(*n),
                NumCell::Uncertain(_) => None,
            };
            let ghost g_before = self.grid;
            if let Some(num) = num_opt {
                self.propagate(x, y, num);
                proof {
                    let xi = x as int;
                    let yi = y as int;
                    assert forall|x2: int, y2: int| coord_ok(x2, y2) implies {
                        &&& ((#[trigger] self.grid.at(x2, y2)) is Collapsed <==> g_before.at(
                            x2,
                            y2,
                        ) is Collapsed)
                        &&& (g_before.at(x2, y2) is Collapsed ==> self.grid.at(x2, y2)
                            == g_before.at(x2, y2))
                        &&& (forall|w: int|
                            self.grid.at(x2, y2) is Uncertain && #[trigger] self.grid.at(
                                x2,
                                y2,
                            )->Uncertain_0.has(w) ==> g_before.at(x2, y2)->Uncertain_0.has(w))
                        &&& (prop_region(xi, yi, x2, y2) && self.grid.at(x2, y2) is Uncertain
                            ==> !self.grid.at(x2, y2)->Uncertain_0.has(num@))
                    } by {
                        if prop_region(xi, yi, x2, y2) {
                            lemma_excludes_no_add(g_before.at(x2, y2), self.grid.at(x2, y2), num@);
                        }
                    }
                    assert forall|j: int| 0 <= j < k + 1 implies #[trigger] clue_done(
                        g_init,
                        self.grid,
                        j,
                    ) by {
                        if j < k {
                            assert(clue_done(g_init, g_before, j));
                            if g_init.at(j % 9, j / 9) is Collapsed {
                                let w = g_init.at(j % 9, j / 9)->Collapsed_0@;
                                assert forall|x2: int, y2: int|
                                    coord_ok(x2, y2) && prop_region(j % 9, j / 9, x2, y2)
                                        && (#[trigger] self.grid.at(x2, y2)) is Uncertain
                                    implies !self.grid.at(x2, y2)->Uncertain_0.has(w) by {
                                    assert(g_before.at(x2, y2) is Uncertain);
                                    assert(!g_before.at(x2, y2)->Uncertain_0.has(w));
                                }
                            }
                        } else {
                            assert(g_init.at(xi, yi) is Collapsed);
                            assert(g_before.at(xi, yi) == g_init.at(xi, yi));
                            assert(num == g_init.at(xi, yi)->Collapsed_0);
                        }
                    }
                    assert forall|a: Grid|
                        a.wf() && valid_solution(a) && admits(g_init, a) implies admits(
                        self.grid,
                        a,
                    ) by {
                        assert(admits(g_before, a));
                        lemma_valid_no_dup(a);
                        assert(g_before.at(xi, yi) == NumCell::Collapsed(num));
                        assert(num.wf());
                        lemma_propagate_admits(g_before, self.grid, xi, yi, num, a);
                    }
                }
            } else {
                proof {
                    assert(self.grid.at(x as int, y as int) is Uncertain);
                    assert(g_init.at(k as int % 9, k as int / 9) is Uncertain);
                    assert(clue_done(g_init, self.grid, k as int));
                }
            }
            k = k + 1;
        }
        proof {
            assert forall|x1: int, y1: int, x2: int, y2: int|
                coord_ok(x1, y1) && coord_ok(x2, y2) && peers(x1, y1, x2, y2)
                    && (#[trigger] self.grid.at(x1, y1)) is Collapsed && (#[trigger] self.grid.at(
                    x2,
                    y2,
                )) is Uncertain implies !self.grid.at(x2, y2)->Uncertain_0.has(
                self.grid.at(x1, y1)->Collapsed_0@,
            ) by {
                let j = y1 * 9 + x1;
                assert(0 <= j < 81);
                assert(j % 9 == x1 && j / 9 == y1);
                assert(g_init.at(x1, y1) is Collapsed);
                assert(clue_done(g_init, self.grid, j));
                assert(self.grid.at(x1, y1) == g_init.at(x1, y1));
                assert(prop_region(x1, y1, x2, y2));
            }
            assert(propagated(self.grid));
            assert forall|x1: int, y1: int, x2: int, y2: int|
                coord_ok(x1, y1) && coord_ok(x2, y2) && peers(x1, y1, x2, y2)
                    && (#[trigger] self.grid.at(x1, y1)) is Collapsed && (#[trigger] self.grid.at(
                    x2,
                    y2,
                )) is Collapsed implies self.grid.at(x1, y1)->Collapsed_0@ != self.grid.at(
                x2,
                y2,
            )->Collapsed_0@ by {
                assert(g_init.at(x1, y1) is Collapsed && g_init.at(x2, y2) is Collapsed);
                assert(self.grid.at(x1, y1) == g_init.at(x1, y1));
                assert(self.grid.at(x2, y2) == g_init.at(x2, y2));
            }
            assert(no_dup(self.grid));
            assert(clues_kept(g_init, self.grid));
            if pre_solved {
                assert forall|i: int| 0 <= i < 81 implies self.grid.cells@[i] == g_init.cells@[i]
                    by {
                    let x2 = i % 9;
                    let y2 = i / 9;
                    assert(y2 * 9 + x2 == i);
                    assert(coord_ok(x2, y2));
                    assert(g_init.at(x2, y2) is Collapsed);
                    assert(self.grid.at(x2, y2) == g_init.at(x2, y2));
                }
                assert(self.grid.cells@ =~= g_init.cells@);
            }
        }

        // Phase 2: repeatedly work on the least entropic cell.
        loop
            invariant
                self.grid.wf(),
                g_init.wf(),
                g_init == old(self).grid,
                b_init == old(self).backups@,
                no_dup(g_init),
                h == (b_init.len() == 0),
                pre_solved == all_collapsed(g_init),
                forall|k2: int|
                    0 <= k2 < self.backups@.len() ==> (#[trigger] self.backups@[k2]).wf(),
                h ==> propagated(self.grid) && no_dup(self.grid) && clues_kept(
                    g_init,
                    self.grid,
                ),
                h ==> forall|k2: int|
                    0 <= k2 < self.backups@.len() ==> propagated(#[trigger] self.backups@[k2])
                        && no_dup(self.backups@[k2]) && clues_kept(g_init, self.backups@[k2]),
                h ==> forall|a: Grid|
                    #![trigger admits(g_init, a)]
                    a.wf() && valid_solution(a) && admits(g_init, a) ==> admits(self.grid, a)
                        || (exists|k2: int|
                        0 <= k2 < self.backups@.len() && #[trigger] admits(
                            self.backups@[k2],
                            a,
                        )),
                pre_solved ==> self.grid.cells@ == g_init.cells@ && self.backups@ == b_init,
            decreases search_measure(self.grid, self.backups@),
        {
            let pick = self.least_entropic();
            if pick.is_none() {
                proof {
                    if h {
                        lemma_solved_grid_valid(self.grid);
                    }
                }
                return true;
            }
            let t: (u8, u8, usize) = pick.unwrap();
            let x: u8 = t.0;
            let y: u8 = t.1;
            let e: usize = t.2;
            let ghost xi = x as int;
            let ghost yi = y as int;
            proof {
                if pre_solved {
                    assert(g_init.at(xi, yi) is Collapsed);
                    assert(self.grid.at(xi, yi) == g_init.at(xi, yi));
                    assert(false);
                }
                assert((yi * 9 + xi) < 81 && 0 <= yi * 9 + xi);
                assert(self.grid.cells@[yi * 9 + xi].wf());
                lemma_stack_pot_nonneg(self.backups@);
                lemma_sum_pot_ge_elem(self.grid.cells@, yi * 9 + xi);
                lemma_sum_pot_nonneg(self.grid.cells@);
            }
            if e == 1 {
                let num: Number = match self.grid.get(x, y) {
                    Some(NumCell::Uncertain(u)) => u.collapse(),
                    _ => {
                        proof {
                            assert(false);
                        }
                        Number::new(1)
                    },
                };
                let ghost g0 = self.grid;
                let set_ok = self.grid.set(x, y, NumCell::Collapsed(num));
                let ghost g1 = self.grid;
                proof {
                    assert(set_ok);
                    assert(g1.cells@ == g0.cells@.update(yi * 9 + xi, NumCell::Collapsed(num)));
                    assert forall|i: int| 0 <= i < 81 implies (#[trigger] g1.cells@[i]).wf() by {
                        if i != yi * 9 + xi {
                            assert(g1.cells@[i] == g0.cells@[i]);
                        }
                    }
                }
                self.propagate(x, y, num);
                proof {
                    lemma_after_collapse(g0, g1, self.grid, xi, yi, num);
                    // The measure: the collapsed cell alone contributed 1.
                    assert(grid_pot(self.grid) <= grid_pot(g0) - 1);
                    lemma_sum_pot_nonneg(self.grid.cells@);
                    lemma_pow2_strictly_increases(
                        grid_pot(self.grid) as nat,
                        grid_pot(g0) as nat,
                    );
                    if h {
                        // The collapsed cell was uncertain, so it was no
                        // clue; propagation leaves collapsed cells alone.
                        assert forall|x2: int, y2: int|
                            coord_ok(x2, y2) && g_init.at(x2, y2) is Collapsed implies
                            #[trigger] self.grid.at(x2, y2) == g_init.at(x2, y2) by {
                            assert(g0.at(x2, y2) == g_init.at(x2, y2));
                            assert(!(x2 == xi && y2 == yi));
                            assert(y2 * 9 + x2 != yi * 9 + xi);
                            assert(g1.at(x2, y2) == g0.at(x2, y2));
                            if prop_region(xi, yi, x2, y2) {
                                assert(excludes_to(g1.at(x2, y2), self.grid.at(x2, y2), num@));
                                assert(self.grid.at(x2, y2) == g1.at(x2, y2));
                            }
                        }
                        // Every solution the search still admitted is
                        // admitted after the forced collapse.
                        assert forall|a: Grid|
                            a.wf() && valid_solution(a) && admits(g_init, a) implies admits(
                            self.grid,
                            a,
                        ) || (exists|k2: int|
                            0 <= k2 < self.backups@.len() && #[trigger] admits(
                                self.backups@[k2],
                                a,
                            )) by {
                            if admits(g0, a) {
                                lemma_valid_no_dup(a);
                                let w = a.at(xi, yi)->Collapsed_0;
                                assert(a.at(xi, yi) is Collapsed && g0.at(
                                    xi,
                                    yi,
                                )->Uncertain_0.has(w@));
                                assert(w@ == num@);
                                assert(w == num);
                                assert(a.at(xi, yi) == NumCell::Collapsed(num));
                                lemma_step_admits(g0, g1, self.grid, xi, yi, num, a);
                            } else {
                                let k2 = choose|k2: int|
                                    0 <= k2 < self.backups@.len() && #[trigger] admits(
                                        self.backups@[k2],
                                        a,
                                    );
                                assert(admits(self.backups@[k2], a));
                            }
                        }
                    }
                }
            } else if e == 0 {
                let ghost old_grid = self.grid;
                let ghost old_backups = self.backups@;
                let popped = self.backups.pop();
                match popped {
                    None => {
                        proof {
                            if h {
                                assert(old_backups.len() == 0);
                                assert forall|a: Grid| !(#[trigger] solution_of(a, g_init)) by {
                                    if solution_of(a, g_init) {
                                        assert(admits(old_grid, a));
                                        let w = a.at(xi, yi)->Collapsed_0@;
                                        assert(old_grid.at(xi, yi)->Uncertain_0.has(w));
                                        lemma_count_true_pos(
                                            old_grid.at(xi, yi)->Uncertain_0.poss@,
                                            w - 1,
                                        );
                                        assert(false);
                                    }
                                }
                            }
                        }
                        return false;
                    },
                    Some(b) => {
                        self.grid = b;
                        proof {
                            assert(old_backups.len() > 0);
                            assert(b == old_backups.last());
                            assert(self.backups@ == old_backups.drop_last());
                            lemma_stack_pot_nonneg(self.backups@);
                            lemma_pow2_pos(grid_pot(old_grid) as nat);
                            assert(search_measure(self.grid, self.backups@) == stack_pot(
                                old_backups,
                            ));
                            if h {
                                // The restored snapshot carries the stack's
                                // guarantees, and every admitted solution
                                // stays admitted: the abandoned grid could
                                // not admit any (its selected domain is
                                // empty).
                                assert(b == old_backups[old_backups.len() - 1]);
                                assert(propagated(self.grid) && no_dup(self.grid)
                                    && clues_kept(g_init, self.grid));
                                assert forall|a: Grid|
                                    a.wf() && valid_solution(a) && admits(g_init, a) implies
                                    admits(self.grid, a) || (exists|k2: int|
                                    0 <= k2 < self.backups@.len() && #[trigger] admits(
                                        self.backups@[k2],
                                        a,
                                    )) by {
                                    if admits(old_grid, a) {
                                        let w = a.at(xi, yi)->Collapsed_0@;
                                        assert(old_grid.at(xi, yi)->Uncertain_0.has(w));
                                        lemma_count_true_pos(
                                            old_grid.at(xi, yi)->Uncertain_0.poss@,
                                            w - 1,
                                        );
                                        assert(false);
                                    } else {
                                        let k2 = choose|k2: int|
                                            0 <= k2 < old_backups.len() && #[trigger] admits(
                                                old_backups[k2],
                                                a,
                                            );
                                        if k2 == old_backups.len() - 1 {
                                            assert(admits(self.grid, a));
                                        } else {
                                            assert(self.backups@[k2] == old_backups[k2]);
                                            assert(admits(self.backups@[k2], a));
                                        }
                                    }
                                }
                            }
                        }
                    },
                }
            } else {
                let num: Number = match self.grid.get(x, y) {
                    Some(NumCell::Uncertain(u)) => match u.some_element() {
                        Some(n) => n,
                        None => {
                            proof {
                                assert(false);
                            }
                            Number::new(1)
                        },
                    },
                    _ => {
                        proof {
                            assert(false);
                        }
                        Number::new(1)
                    },
                };
                // The backup keeps everything but the guess just made: the
                // branch to resume if the guess fails.
                let mut bak = self.grid.clone();
                proof {
                    lemma_grid_copy_props(self.grid, bak);
                    assert(cell_eq(bak.cells@[yi * 9 + xi], self.grid.cells@[yi * 9 + xi]));
                    assert(bak.at(xi, yi)->Uncertain_0.poss@ == self.grid.at(
                        xi,
                        yi,
                    )->Uncertain_0.poss@);
                    assert(bak.at(xi, yi) is Uncertain && bak.at(xi, yi)->Uncertain_0.has(num@));
                }
                let ghost bak0 = bak;
                bak.exclude_cell(x, y, num);
                proof {
                    lemma_exclude_one_props(bak0, bak, xi, yi, num@);
                    assert(grid_pot(bak) == grid_pot(self.grid) - 1);
                }
                let ghost old_backups = self.backups@;
                self.backups.push(bak);
                let ghost g0 = self.grid;
                let set_ok = self.grid.set(x, y, NumCell::Collapsed(num));
                let ghost g1 = self.grid;
                proof {
                    assert(set_ok);
                    assert(g1.cells@ == g0.cells@.update(yi * 9 + xi, NumCell::Collapsed(num)));
                    assert forall|i: int| 0 <= i < 81 implies (#[trigger] g1.cells@[i]).wf() by {
                        if i != yi * 9 + xi {
                            assert(g1.cells@[i] == g0.cells@[i]);
                        }
                    }
                }
                self.propagate(x, y, num);
                proof {
                    lemma_after_collapse(g0, g1, self.grid, xi, yi, num);
                    // Stack invariants: the new snapshot is well formed and,
                    // under a sound start, still propagated and duplicate
                    // free.
                    assert(self.backups@ == old_backups.push(bak));
                    assert forall|k2: int|
                        0 <= k2 < self.backups@.len() implies (#[trigger] self.backups@[k2]).wf()
                        by {
                        if k2 < old_backups.len() {
                            assert(self.backups@[k2] == old_backups[k2]);
                        } else {
                            assert(self.backups@[k2] == bak);
                        }
                    }
                    if h {
                        // The fresh snapshot keeps the clues: cloning
                        // copies collapsed cells exactly, and the excluded
                        // cell was uncertain.
                        assert forall|x2: int, y2: int|
                            coord_ok(x2, y2) && g_init.at(x2, y2) is Collapsed implies
                            #[trigger] bak.at(x2, y2) == g_init.at(x2, y2) by {
                            assert(g0.at(x2, y2) == g_init.at(x2, y2));
                            assert(cell_eq(bak0.cells@[y2 * 9 + x2], g0.cells@[y2 * 9 + x2]));
                            assert(bak0.at(x2, y2) == g0.at(x2, y2));
                            assert(!(x2 == xi && y2 == yi));
                            assert(bak.at(x2, y2) == bak0.at(x2, y2));
                        }
                        assert(clues_kept(g_init, bak));
                        assert forall|k2: int|
                            0 <= k2 < self.backups@.len() implies propagated(
                            #[trigger] self.backups@[k2],
                        ) && no_dup(self.backups@[k2]) && clues_kept(
                            g_init,
                            self.backups@[k2],
                        ) by {
                            if k2 < old_backups.len() {
                                assert(self.backups@[k2] == old_backups[k2]);
                            } else {
                                assert(self.backups@[k2] == bak);
                            }
                        }
                        // The grid keeps the clues too.
                        assert forall|x2: int, y2: int|
                            coord_ok(x2, y2) && g_init.at(x2, y2) is Collapsed implies
                            #[trigger] self.grid.at(x2, y2) == g_init.at(x2, y2) by {
                            assert(g0.at(x2, y2) == g_init.at(x2, y2));
                            assert(!(x2 == xi && y2 == yi));
                            assert(y2 * 9 + x2 != yi * 9 + xi);
                            assert(g1.at(x2, y2) == g0.at(x2, y2));
                            if prop_region(xi, yi, x2, y2) {
                                assert(excludes_to(g1.at(x2, y2), self.grid.at(x2, y2), num@));
                                assert(self.grid.at(x2, y2) == g1.at(x2, y2));
                            }
                        }
                        // Every admitted solution either agrees with the
                        // guess (and survives in the grid) or disagrees
                        // (and survives in the snapshot).
                        assert forall|a: Grid|
                            a.wf() && valid_solution(a) && admits(g_init, a) implies admits(
                            self.grid,
                            a,
                        ) || (exists|k2: int|
                            0 <= k2 < self.backups@.len() && #[trigger] admits(
                                self.backups@[k2],
                                a,
                            )) by {
                            if admits(g0, a) {
                                lemma_valid_no_dup(a);
                                let w = a.at(xi, yi)->Collapsed_0;
                                assert(a.at(xi, yi) is Collapsed && g0.at(
                                    xi,
                                    yi,
                                )->Uncertain_0.has(w@));
                                if w@ == num@ {
                                    assert(w == num);
                                    assert(a.at(xi, yi) == NumCell::Collapsed(num));
                                    lemma_step_admits(g0, g1, self.grid, xi, yi, num, a);
                                } else {
                                    lemma_copy_admits(g0, bak0, a);
                                    assert(bak0.at(xi, yi) is Uncertain);
                                    lemma_exclude_admits(bak0, bak, xi, yi, num@, a);
                                    assert(self.backups@[old_backups.len() as int] == bak);
                                    assert(admits(self.backups@[old_backups.len() as int], a));
                                }
                            } else {
                                let k2 = choose|k2: int|
                                    0 <= k2 < old_backups.len() && #[trigger] admits(
                                        old_backups[k2],
                                        a,
                                    );
                                assert(self.backups@[k2] == old_backups[k2]);
                                assert(admits(self.backups@[k2], a));
                            }
                        }
                    }
                    // The measure: the guessed cell contributed e >= 2, the
                    // snapshot weighs in with one digit less than the grid
                    // did.
                    let p = grid_pot(g0);
                    let p2 = grid_pot(self.grid);
                    let pb = grid_pot(bak);
                    assert(p >= 2);
                    assert(p2 <= p - 2);
                    assert(pb == p - 1);
                    lemma_sum_pot_nonneg(self.grid.cells@);
                    if p2 < p - 2 {
                        lemma_pow2_strictly_increases(p2 as nat, (p - 2) as nat);
                    }
                    assert(pow2(p2 as nat) <= pow2((p - 2) as nat));
                    lemma_pow2_strictly_increases((p - 2) as nat, (p - 1) as nat);
                    lemma_pow2_unfold(p as nat);
                    assert(pow2((p - 1) as nat) + pow2((p - 2) as nat) < pow2(p as nat));
                    assert(old_backups.push(bak).drop_last() =~= old_backups);
                    assert(stack_pot(self.backups@) == stack_pot(old_backups) + pow2(
                        pb as nat,
                    ));
                    lemma_stack_pot_nonneg(old_backups);
                }
            }
        }
    }
}

/// Whether two collapsed peer cells hold the same digit anywhere on the
/// board: the contradiction no propagation step would ever notice.
fn has_duplicate_clues(g: &Grid) -> (r: bool)
    requires
        g.wf(),
    ensures
        r == !no_dup(*g),
{
    let mut p: usize = 0;
    while p < 81
        invariant
            0 <= p <= 81,
            g.wf(),
            forall|x1: int, y1: int, x2: int, y2: int|
                #![trigger g.at(x1, y1), g.at(x2, y2)]
                coord_ok(x1, y1) && coord_ok(x2, y2) && y1 * 9 + x1 < p && peers(x1, y1, x2, y2)
                    && g.at(x1, y1) is Collapsed && g.at(x2, y2) is Collapsed ==> g.at(
                    x1,
                    y1,
                )->Collapsed_0@ != g.at(x2, y2)->Collapsed_0@,
        decreases 81 - p,
    {
        let x1: u8 = (p % 9) as u8;
        let y1: u8 = (p / 9) as u8;
        proof {
            assert((y1 as int) * 9 + (x1 as int) == p as int);
        }
        let mut q: usize = 0;
        while q < 81
            invariant
                0 <= q <= 81,
                g.wf(),
                x1 == (p % 9) as u8,
                y1 == (p / 9) as u8,
                p < 81,
                forall|x2: int, y2: int|
                    #![trigger g.at(x2, y2)]
                    coord_ok(x2, y2) && y2 * 9 + x2 < q && peers(x1 as int, y1 as int, x2, y2)
                        && g.at(x1 as int, y1 as int) is Collapsed && g.at(
                        x2,
                        y2,
                    ) is Collapsed ==> g.at(x1 as int, y1 as int)->Collapsed_0@ != g.at(
                        x2,
                        y2,
                    )->Collapsed_0@,
            decreases 81 - q,
        {
            let x2: u8 = (q % 9) as u8;
            let y2: u8 = (q / 9) as u8;
            proof {
                assert((y2 as int) * 9 + (x2 as int) == q as int);
            }
            let distinct: bool = x1 != x2 || y1 != y2;
            let shares: bool = y1 == y2 || x1 == x2 || (x1 / 3 == x2 / 3 && y1 / 3 == y2 / 3);
            if distinct && shares {
                let c1: Option<Number> = match &g.cells[p] {
                    NumCell::Collapsed(n) => Some(*n),
                    NumCell::Uncertain(_) => None,
                };
                let c2: Option<Number> = match &g.cells[q] {
                    NumCell::Collapsed(n) => Some(*n),
                    NumCell::Uncertain(_) => None,
                };
                if let (Some(n1), Some(n2)) = (c1, c2) {
                    if n1 == n2 {
                        proof {
                            let xi1 = x1 as int;
                            let yi1 = y1 as int;
                            let xi2 = x2 as int;
                            let yi2 = y2 as int;
                            assert(g.at(xi1, yi1) == g.cells@[p as int]);
                            assert(g.at(xi2, yi2) == g.cells@[q as int]);
                            assert(g.at(xi1, yi1) is Collapsed && g.at(xi1, yi1)->Collapsed_0
                                == n1);
                            assert(g.at(xi2, yi2) is Collapsed && g.at(xi2, yi2)->Collapsed_0
                                == n2);
                            assert(peers(xi1, yi1, xi2, yi2));
                            assert(g.at(xi1, yi1)->Collapsed_0@ == g.at(xi2, yi2)->Collapsed_0@);
                            assert(!no_dup(*g)) by {
                                if no_dup(*g) {
                                    assert(g.at(xi1, yi1)->Collapsed_0@ != g.at(
                                        xi2,
                                        yi2,
                                    )->Collapsed_0@);
                                }
                            }
                        }
                        return true;
                    }
                }
            }
            q = q + 1;
        }
        p = p + 1;
    }
    false
}

/// A fully valid board never holds the same digit in two peer cells.
#[verifier::rlimit(50)]
proof fn lemma_valid_no_dup(a: Grid)
    requires
        a.wf(),
        valid_solution(a),
    ensures
        no_dup(a),
{
    assert forall|x1: int, y1: int, x2: int, y2: int|
        coord_ok(x1, y1) && coord_ok(x2, y2) && peers(x1, y1, x2, y2) && (#[trigger] a.at(
            x1,
            y1,
        )) is Collapsed && (#[trigger] a.at(x2, y2)) is Collapsed implies a.at(
        x1,
        y1,
    )->Collapsed_0@ != a.at(x2, y2)->Collapsed_0@ by {
        let v = a.at(x1, y1)->Collapsed_0@;
        assert(a.cells@[y1 * 9 + x1].wf());
        assert(1 <= v <= 9);
        if a.at(x2, y2)->Collapsed_0@ == v {
            if y1 == y2 {
                assert(row_exactly_once(a, y1, v));
                assert(collapsed_to(a, x1, y1, v) && collapsed_to(a, x2, y1, v));
                assert(false);
            } else if x1 == x2 {
                assert(col_exactly_once(a, x1, v));
                assert(collapsed_to(a, x1, y1, v) && collapsed_to(a, x1, y2, v));
                assert(false);
            } else {
                let b = x1 / 3 + 3 * (y1 / 3);
                let i1 = x1 % 3 + 3 * (y1 % 3);
                let i2 = x2 % 3 + 3 * (y2 % 3);
                assert(0 <= b < 9 && 0 <= i1 < 9 && 0 <= i2 < 9);
                assert(b % 3 * 3 + i1 % 3 == x1 && b / 3 * 3 + i1 / 3 == y1);
                assert(b % 3 * 3 + i2 % 3 == x2 && b / 3 * 3 + i2 / 3 == y2);
                assert(box_collapsed_to(a, b, i1, v) && box_collapsed_to(a, b, i2, v));
                assert(box_exactly_once(a, b, v));
                assert(i1 == i2);
                assert(false);
            }
        }
    }
}

/// A board with two equal collapsed peers has no solution at all.
proof fn lemma_no_solution_with_duplicates(g: Grid)
    requires
        !no_dup(g),
    ensures
        forall|a: Grid| !(#[trigger] solution_of(a, g)),
{
    let (x1, y1, x2, y2) = choose|x1: int, y1: int, x2: int, y2: int|
        #![trigger g.at(x1, y1), g.at(x2, y2)]
        coord_ok(x1, y1) && coord_ok(x2, y2) && peers(x1, y1, x2, y2) && g.at(x1, y1) is Collapsed
            && g.at(x2, y2) is Collapsed && g.at(x1, y1)->Collapsed_0@ == g.at(
            x2,
            y2,
        )->Collapsed_0@;
    assert forall|a: Grid| !(#[trigger] solution_of(a, g)) by {
        if solution_of(a, g) {
            assert(a.at(x1, y1) == NumCell::Collapsed(g.at(x1, y1)->Collapsed_0));
            assert(a.at(x2, y2) == NumCell::Collapsed(g.at(x2, y2)->Collapsed_0));
            lemma_valid_no_dup(a);
            assert(false);
        }
    }
}

/// Propagating a collapsed digit keeps every solution the board admitted:
/// the digit removed from each peer's domain is never that solution's
/// digit there.
proof fn lemma_propagate_admits(g1: Grid, g2: Grid, x: int, y: int, n: Number, a: Grid)
    requires
        g1.wf(),
        coord_ok(x, y),
        n.wf(),
        g1.at(x, y) == NumCell::Collapsed(n),
        g2.cells@.len() == 81,
        forall|x2: int, y2: int|
            coord_ok(x2, y2) && prop_region(x, y, x2, y2) ==> excludes_to(
                g1.at(x2, y2),
                #[trigger] g2.at(x2, y2),
                n@,
            ),
        forall|x2: int, y2: int|
            coord_ok(x2, y2) && !prop_region(x, y, x2, y2) ==> #[trigger] g2.at(x2, y2) == g1.at(
                x2,
                y2,
            ),
        a.wf(),
        no_dup(a),
        admits(g1, a),
    ensures
        admits(g2, a),
{
    assert forall|x2: int, y2: int| coord_ok(x2, y2) implies match #[trigger] g2.at(x2, y2) {
        NumCell::Collapsed(m) => a.at(x2, y2) == NumCell::Collapsed(m),
        NumCell::Uncertain(u) => a.at(x2, y2) is Collapsed && u.has(a.at(x2, y2)->Collapsed_0@),
    } by {
        assert(g1.at(x2, y2) == g1.cells@[y2 * 9 + x2]);
        if prop_region(x, y, x2, y2) {
            assert(excludes_to(g1.at(x2, y2), g2.at(x2, y2), n@));
            match (g1.at(x2, y2), g2.at(x2, y2)) {
                (NumCell::Collapsed(m1), NumCell::Collapsed(m2)) => {
                    assert(m2 == m1);
                },
                (NumCell::Uncertain(u1), NumCell::Uncertain(u2)) => {
                    assert(!(x2 == x && y2 == y));
                    assert(peers(x, y, x2, y2));
                    let w = a.at(x2, y2)->Collapsed_0@;
                    assert(a.at(x2, y2) is Collapsed && u1.has(w));
                    assert(a.at(x, y) == NumCell::Collapsed(n));
                    assert(a.at(x, y) is Collapsed && a.at(x2, y2) is Collapsed);
                    assert(w != n@);
                    assert(u1.poss@.len() == 9);
                    assert(u2.poss@[w - 1] == u1.poss@[w - 1]);
                    assert(u2.has(w));
                },
                _ => {},
            }
        }
    }
}

/// Collapsing a cell to the digit a solution uses there, then
/// propagating, keeps that solution admitted.
proof fn lemma_step_admits(g0: Grid, g1: Grid, g2: Grid, x: int, y: int, n: Number, a: Grid)
    requires
        g0.wf(),
        coord_ok(x, y),
        n.wf(),
        g0.at(x, y) is Uncertain,
        g1.cells@ == g0.cells@.update(y * 9 + x, NumCell::Collapsed(n)),
        g2.cells@.len() == 81,
        forall|x2: int, y2: int|
            coord_ok(x2, y2) && prop_region(x, y, x2, y2) ==> excludes_to(
                g1.at(x2, y2),
                #[trigger] g2.at(x2, y2),
                n@,
            ),
        forall|x2: int, y2: int|
            coord_ok(x2, y2) && !prop_region(x, y, x2, y2) ==> #[trigger] g2.at(x2, y2) == g1.at(
                x2,
                y2,
            ),
        a.wf(),
        no_dup(a),
        admits(g0, a),
        a.at(x, y) == NumCell::Collapsed(n),
    ensures
        admits(g2, a),
{
    let idx = y * 9 + x;
    assert(g1.at(x, y) == NumCell::Collapsed(n));
    assert(g1.wf()) by {
        assert forall|i: int| 0 <= i < 81 implies (#[trigger] g1.cells@[i]).wf() by {
            if i != idx {
                assert(g1.cells@[i] == g0.cells@[i]);
            }
        }
    }
    assert(admits(g1, a)) by {
        assert forall|x2: int, y2: int| coord_ok(x2, y2) implies match #[trigger] g1.at(x2, y2) {
            NumCell::Collapsed(m) => a.at(x2, y2) == NumCell::Collapsed(m),
            NumCell::Uncertain(u) => a.at(x2, y2) is Collapsed && u.has(
                a.at(x2, y2)->Collapsed_0@,
            ),
        } by {
            if !(x2 == x && y2 == y) {
                assert(y2 * 9 + x2 != idx);
                assert(g1.at(x2, y2) == g0.at(x2, y2));
            }
        }
    }
    lemma_propagate_admits(g1, g2, x, y, n, a);
}

/// Cell-for-cell equal boards admit the same solutions.
proof fn lemma_copy_admits(g: Grid, b: Grid, a: Grid)
    requires
        g.wf(),
        b.cells@.len() == 81,
        forall|i: int| 0 <= i < 81 ==> cell_eq(#[trigger] b.cells@[i], g.cells@[i]),
        admits(g, a),
    ensures
        admits(b, a),
{
    assert forall|x2: int, y2: int| coord_ok(x2, y2) implies match #[trigger] b.at(x2, y2) {
        NumCell::Collapsed(m) => a.at(x2, y2) == NumCell::Collapsed(m),
        NumCell::Uncertain(u) => a.at(x2, y2) is Collapsed && u.has(a.at(x2, y2)->Collapsed_0@),
    } by {
        assert(cell_eq(b.cells@[y2 * 9 + x2], g.cells@[y2 * 9 + x2]));
        assert(g.at(x2, y2) == g.cells@[y2 * 9 + x2]);
    }
}

/// Excluding a digit from one uncertain cell keeps every admitted
/// solution whose digit there is a different one.
proof fn lemma_exclude_admits(b0: Grid, b1: Grid, x: int, y: int, v: int, a: Grid)
    requires
        b0.wf(),
        coord_ok(x, y),
        1 <= v <= 9,
        b1.cells@.len() == 81,
        excludes_to(b0.at(x, y), b1.at(x, y), v),
        forall|x2: int, y2: int|
            coord_ok(x2, y2) && !(x2 == x && y2 == y) ==> #[trigger] b1.at(x2, y2) == b0.at(
                x2,
                y2,
            ),
        admits(b0, a),
        b0.at(x, y) is Uncertain,
        a.at(x, y)->Collapsed_0@ != v,
    ensures
        admits(b1, a),
{
    assert forall|x2: int, y2: int| coord_ok(x2, y2) implies match #[trigger] b1.at(x2, y2) {
        NumCell::Collapsed(m) => a.at(x2, y2) == NumCell::Collapsed(m),
        NumCell::Uncertain(u) => a.at(x2, y2) is Collapsed && u.has(a.at(x2, y2)->Collapsed_0@),
    } by {
        assert(b0.at(x2, y2) == b0.cells@[y2 * 9 + x2]);
        if x2 == x && y2 == y {
            let u0 = b0.at(x, y)->Uncertain_0;
            let u1 = b1.at(x, y)->Uncertain_0;
            let w = a.at(x, y)->Collapsed_0@;
            assert(a.at(x, y) is Collapsed && u0.has(w));
            assert(u0.poss@.len() == 9);
            assert(u1.poss@[w - 1] == u0.poss@[w - 1]);
            assert(u1.has(w));
        }
    }
}

/// Chains up to three exclusion-or-identity steps with the same digit into
/// one; if any step was a real exclusion the result is one exclusion.
proof fn lemma_excludes_chain(a: NumCell, b: NumCell, c: NumCell, d: NumCell, v: int)
    requires
        a.wf(),
        1 <= v <= 9,
        excludes_to(a, b, v) || b == a,
        excludes_to(b, c, v) || c == b,
        excludes_to(c, d, v) || d == c,
        excludes_to(a, b, v) || excludes_to(b, c, v) || excludes_to(c, d, v),
    ensures
        excludes_to(a, d, v),
{
    lemma_excludes_to_wf(a, b, v);
    lemma_excludes_to_wf(b, c, v);
    if excludes_to(a, b, v) {
        if excludes_to(b, c, v) {
            lemma_excludes_to_trans(a, b, c, v);
        }
        // now excludes_to(a, c, v) in every case
        if excludes_to(c, d, v) {
            lemma_excludes_to_trans(a, c, d, v);
        }
    } else {
        if excludes_to(b, c, v) {
            if excludes_to(c, d, v) {
                lemma_excludes_to_trans(b, c, d, v);
            }
        }
    }
}

proof fn lemma_cell_pot_nonneg(c: NumCell)
    ensures
        cell_pot(c) >= 0,
{
    match c {
        NumCell::Uncertain(u) => lemma_count_true_bounds(u.poss@),
        NumCell::Collapsed(_) => {},
    }
}

proof fn lemma_sum_pot_nonneg(s: Seq<NumCell>)
    ensures
        sum_pot(s) >= 0,
    decreases s.len(),
{
    if s.len() > 0 {
        lemma_sum_pot_nonneg(s.drop_last());
        lemma_cell_pot_nonneg(s.last());
    }
}

proof fn lemma_sum_pot_le(a: Seq<NumCell>, b: Seq<NumCell>)
    requires
        a.len() == b.len(),
        forall|i: int| 0 <= i < a.len() ==> cell_pot(#[trigger] a[i]) <= cell_pot(b[i]),
    ensures
        sum_pot(a) <= sum_pot(b),
    decreases a.len(),
{
    if a.len() > 0 {
        lemma_sum_pot_le(a.drop_last(), b.drop_last());
    }
}

proof fn lemma_sum_pot_update(s: Seq<NumCell>, i: int, c: NumCell)
    requires
        0 <= i < s.len(),
    ensures
        sum_pot(s.update(i, c)) == sum_pot(s) - cell_pot(s[i]) + cell_pot(c),
    decreases s.len(),
{
    if i == s.len() - 1 {
        assert(s.update(i, c).drop_last() =~= s.drop_last());
        assert(s.update(i, c).last() == c);
    } else {
        lemma_sum_pot_update(s.drop_last(), i, c);
        assert(s.update(i, c).drop_last() =~= s.drop_last().update(i, c));
        assert(s.update(i, c).last() == s.last());
    }
}

proof fn lemma_sum_pot_ge_elem(s: Seq<NumCell>, i: int)
    requires
        0 <= i < s.len(),
    ensures
        sum_pot(s) >= cell_pot(s[i]),
    decreases s.len(),
{
    if i == s.len() - 1 {
        lemma_sum_pot_nonneg(s.drop_last());
    } else {
        lemma_sum_pot_ge_elem(s.drop_last(), i);
        lemma_cell_pot_nonneg(s.last());
    }
}

/// The total domain size of a grid.
pub open spec fn grid_pot(g: Grid) -> int {
    sum_pot(g.cells@)
}

/// The termination measure contributed by the backup stack.
pub open spec fn stack_pot(s: Seq<Grid>) -> int
    decreases s.len(),
{
    if s.len() == 0 {
        0
    } else {
        stack_pot(s.drop_last()) + pow2(grid_pot(s.last()) as nat) as int
    }
}

/// The termination measure of the search: each grid weighs in
/// exponentially in its total domain size, so that trading one snapshot
/// for two strictly smaller ones still shrinks the measure.
pub open spec fn search_measure(g: Grid, s: Seq<Grid>) -> int {
    pow2(grid_pot(g) as nat) as int + stack_pot(s)
}

proof fn lemma_stack_pot_nonneg(s: Seq<Grid>)
    ensures
        stack_pot(s) >= 0,
    decreases s.len(),
{
    if s.len() > 0 {
        lemma_stack_pot_nonneg(s.drop_last());
    }
}

/// How one exclusion step changes a cell's contribution to the measure.
proof fn lemma_excludes_pot(a: NumCell, b: NumCell, v: int)
    requires
        a.wf(),
        1 <= v <= 9,
        excludes_to(a, b, v),
    ensures
        cell_pot(a) - 1 <= cell_pot(b) <= cell_pot(a),
        a is Uncertain && a->Uncertain_0.has(v) ==> cell_pot(b) == cell_pot(a) - 1,
        a is Uncertain && !a->Uncertain_0.has(v) ==> cell_pot(b) == cell_pot(a),
{
    match (a, b) {
        (NumCell::Uncertain(u1), NumCell::Uncertain(u2)) => {
            lemma_count_true_update(u1.poss@, v - 1, false);
        },
        _ => {},
    }
}

/// An exclusion step never re-admits a digit, and certainly removes the
/// excluded one.
proof fn lemma_excludes_no_add(a: NumCell, b: NumCell, v: int)
    requires
        a.wf(),
        1 <= v <= 9,
        excludes_to(a, b, v),
    ensures
        b is Uncertain <==> a is Uncertain,
        b is Collapsed ==> b->Collapsed_0 == a->Collapsed_0,
        b is Uncertain ==> !b->Uncertain_0.has(v),
        forall|w: int|
            b is Uncertain && #[trigger] b->Uncertain_0.has(w) ==> a->Uncertain_0.has(w),
{
    match (a, b) {
        (NumCell::Uncertain(u1), NumCell::Uncertain(u2)) => {
            assert(u2.poss@[v - 1] == false);
            assert forall|w: int| u2.has(w) implies u1.has(w) by {
                assert(u2.poss@[w - 1] == u1.poss@.update(v - 1, false)[w - 1]);
            }
        },
        _ => {},
    }
}

/// The grid's measure does not grow under a propagation pass.
proof fn lemma_pot_after_propagate(g1: Grid, g2: Grid, x: int, y: int, v: int)
    requires
        g1.wf(),
        g2.cells@.len() == 81,
        coord_ok(x, y),
        1 <= v <= 9,
        forall|x2: int, y2: int|
            coord_ok(x2, y2) && prop_region(x, y, x2, y2) ==> excludes_to(
                g1.at(x2, y2),
                #[trigger] g2.at(x2, y2),
                v,
            ),
        forall|x2: int, y2: int|
            coord_ok(x2, y2) && !prop_region(x, y, x2, y2) ==> #[trigger] g2.at(x2, y2) == g1.at(
                x2,
                y2,
            ),
    ensures
        grid_pot(g2) <= grid_pot(g1),
{
    assert forall|i: int| 0 <= i < 81 implies cell_pot(#[trigger] g2.cells@[i]) <= cell_pot(
        g1.cells@[i],
    ) by {
        let x2 = i % 9;
        let y2 = i / 9;
        assert(y2 * 9 + x2 == i);
        assert(coord_ok(x2, y2));
        assert(g1.at(x2, y2) == g1.cells@[i]);
        assert(g2.at(x2, y2) == g2.cells@[i]);
        assert(g1.at(x2, y2).wf());
        if prop_region(x, y, x2, y2) {
            lemma_excludes_pot(g1.at(x2, y2), g2.at(x2, y2), v);
        }
    }
    lemma_sum_pot_le(g2.cells@, g1.cells@);
}

/// Cell-for-cell equal grids share well-formedness, the propagation
/// invariant, duplicate-freedom and measure.
proof fn lemma_grid_copy_props(a: Grid, b: Grid)
    requires
        a.wf(),
        b.cells@.len() == 81,
        forall|i: int| 0 <= i < 81 ==> cell_eq(#[trigger] b.cells@[i], a.cells@[i]),
    ensures
        b.wf(),
        grid_pot(b) == grid_pot(a),
        propagated(a) ==> propagated(b),
        no_dup(a) ==> no_dup(b),
        all_collapsed(a) ==> all_collapsed(b),
{
    assert forall|x: int, y: int| coord_ok(x, y) implies {
        &&& ((#[trigger] b.at(x, y)) is Collapsed <==> a.at(x, y) is Collapsed)
        &&& (a.at(x, y) is Collapsed ==> b.at(x, y)->Collapsed_0 == a.at(x, y)->Collapsed_0)
        &&& (a.at(x, y) is Uncertain ==> b.at(x, y)->Uncertain_0.poss@ == a.at(
            x,
            y,
        )->Uncertain_0.poss@)
        &&& b.at(x, y).wf()
    } by {
        assert(cell_eq(b.cells@[y * 9 + x], a.cells@[y * 9 + x]));
    }
    assert(b.wf());
    assert forall|i: int| 0 <= i < 81 implies cell_pot(#[trigger] b.cells@[i]) == cell_pot(
        a.cells@[i],
    ) by {
        assert(cell_eq(b.cells@[i], a.cells@[i]));
    }
    lemma_sum_pot_le(b.cells@, a.cells@);
    lemma_sum_pot_le(a.cells@, b.cells@);
    if propagated(a) {
        assert forall|x1: int, y1: int, x2: int, y2: int|
            coord_ok(x1, y1) && coord_ok(x2, y2) && peers(x1, y1, x2, y2) && (#[trigger] b.at(
                x1,
                y1,
            )) is Collapsed && (#[trigger] b.at(x2, y2)) is Uncertain implies !b.at(
            x2,
            y2,
        )->Uncertain_0.has(b.at(x1, y1)->Collapsed_0@) by {
            assert(a.at(x1, y1) is Collapsed && a.at(x2, y2) is Uncertain);
            assert(!a.at(x2, y2)->Uncertain_0.has(a.at(x1, y1)->Collapsed_0@));
        }
    }
    if no_dup(a) {
        assert forall|x1: int, y1: int, x2: int, y2: int|
            coord_ok(x1, y1) && coord_ok(x2, y2) && peers(x1, y1, x2, y2) && (#[trigger] b.at(
                x1,
                y1,
            )) is Collapsed && (#[trigger] b.at(x2, y2)) is Collapsed implies b.at(
            x1,
            y1,
        )->Collapsed_0@ != b.at(x2, y2)->Collapsed_0@ by {
            assert(a.at(x1, y1) is Collapsed && a.at(x2, y2) is Collapsed);
        }
    }
}

/// The heart of the soundness argument: collapsing a cell to a digit of
/// its own domain and propagating restores the propagation invariant and
/// keeps collapsed peers distinct, while the measure drops by at least the
/// collapsed cell's domain size.
proof fn lemma_after_collapse(g0: Grid, g1: Grid, g2: Grid, x: int, y: int, n: Number)
    requires
        g0.wf(),
        coord_ok(x, y),
        n.wf(),
        g0.at(x, y) is Uncertain,
        g0.at(x, y)->Uncertain_0.has(n@),
        g1.cells@ == g0.cells@.update(y * 9 + x, NumCell::Collapsed(n)),
        g2.cells@.len() == 81,
        forall|x2: int, y2: int|
            coord_ok(x2, y2) && prop_region(x, y, x2, y2) ==> excludes_to(
                g1.at(x2, y2),
                #[trigger] g2.at(x2, y2),
                n@,
            ),
        forall|x2: int, y2: int|
            coord_ok(x2, y2) && !prop_region(x, y, x2, y2) ==> #[trigger] g2.at(x2, y2) == g1.at(
                x2,
                y2,
            ),
    ensures
        grid_pot(g2) <= grid_pot(g0) - cell_pot(g0.at(x, y)),
        propagated(g0) ==> propagated(g2),
        propagated(g0) && no_dup(g0) ==> no_dup(g2),
{
    let idx = y * 9 + x;
    assert(g1.cells@.len() == 81);
    assert forall|x2: int, y2: int|
        coord_ok(x2, y2) && !(x2 == x && y2 == y) implies #[trigger] g1.at(x2, y2) == g0.at(
        x2,
        y2,
    ) by {
        assert(y2 * 9 + x2 != idx);
    }
    assert(g1.at(x, y) == NumCell::Collapsed(n));
    assert(g1.wf()) by {
        assert forall|i: int| 0 <= i < 81 implies (#[trigger] g1.cells@[i]).wf() by {
            if i != idx {
                assert(g1.cells@[i] == g0.cells@[i]);
            }
        }
    }
    // The measure: replacing the uncertain cell costs its whole domain,
    // and propagation can only shrink further.
    lemma_sum_pot_update(g0.cells@, idx, NumCell::Collapsed(n));
    lemma_pot_after_propagate(g1, g2, x, y, n@);
    // Step facts for every coordinate.
    assert forall|x2: int, y2: int| coord_ok(x2, y2) implies {
        &&& ((#[trigger] g2.at(x2, y2)) is Uncertain <==> g1.at(x2, y2) is Uncertain)
        &&& (g2.at(x2, y2) is Collapsed ==> g2.at(x2, y2)->Collapsed_0 == g1.at(
            x2,
            y2,
        )->Collapsed_0)
        &&& (prop_region(x, y, x2, y2) && g2.at(x2, y2) is Uncertain ==> !g2.at(
            x2,
            y2,
        )->Uncertain_0.has(n@))
        &&& forall|w: int|
            (#[trigger] g2.at(x2, y2)) is Uncertain && g2.at(x2, y2)->Uncertain_0.has(w) ==> g1.at(
                x2,
                y2,
            )->Uncertain_0.has(w)
    } by {
        if prop_region(x, y, x2, y2) {
            lemma_excludes_no_add(g1.at(x2, y2), g2.at(x2, y2), n@);
        }
    }
    if propagated(g0) {
        assert forall|x1: int, y1: int, x2: int, y2: int|
            coord_ok(x1, y1) && coord_ok(x2, y2) && peers(x1, y1, x2, y2) && (#[trigger] g2.at(
                x1,
                y1,
            )) is Collapsed && (#[trigger] g2.at(x2, y2)) is Uncertain implies !g2.at(
            x2,
            y2,
        )->Uncertain_0.has(g2.at(x1, y1)->Collapsed_0@) by {
            assert(g1.at(x2, y2) is Uncertain);
            assert(!(x2 == x && y2 == y));
            assert(g0.at(x2, y2) is Uncertain);
            if x1 == x && y1 == y {
                // The freshly collapsed cell: its peers lie in the
                // propagation region and have just lost `n`.
                assert(g2.at(x1, y1)->Collapsed_0 == n);
                assert(prop_region(x, y, x2, y2));
            } else {
                assert(g1.at(x1, y1) == g0.at(x1, y1));
                assert(g0.at(x1, y1) is Collapsed);
                let w = g0.at(x1, y1)->Collapsed_0@;
                assert(!g0.at(x2, y2)->Uncertain_0.has(w));
                if g2.at(x2, y2)->Uncertain_0.has(w) {
                    assert(g1.at(x2, y2)->Uncertain_0.has(w));
                    assert(g1.at(x2, y2) == g0.at(x2, y2));
                    assert(false);
                }
            }
        }
    }
    if propagated(g0) && no_dup(g0) {
        assert forall|x1: int, y1: int, x2: int, y2: int|
            coord_ok(x1, y1) && coord_ok(x2, y2) && peers(x1, y1, x2, y2) && (#[trigger] g2.at(
                x1,
                y1,
            )) is Collapsed && (#[trigger] g2.at(x2, y2)) is Collapsed implies g2.at(
            x1,
            y1,
        )->Collapsed_0@ != g2.at(x2, y2)->Collapsed_0@ by {
            if x1 == x && y1 == y {
                assert(g2.at(x1, y1)->Collapsed_0 == n);
                assert(g1.at(x2, y2) == g0.at(x2, y2));
                assert(g0.at(x2, y2) is Collapsed);
                let w = g0.at(x2, y2)->Collapsed_0@;
                // `n` came from the domain at (x, y), which excluded `w`.
                assert(!g0.at(x, y)->Uncertain_0.has(w));
                assert(g0.at(x, y)->Uncertain_0.has(n@));
            } else if x2 == x && y2 == y {
                assert(g2.at(x2, y2)->Collapsed_0 == n);
                assert(g1.at(x1, y1) == g0.at(x1, y1));
                assert(g0.at(x1, y1) is Collapsed);
                let w = g0.at(x1, y1)->Collapsed_0@;
                assert(!g0.at(x, y)->Uncertain_0.has(w));
                assert(g0.at(x, y)->Uncertain_0.has(n@));
            } else {
                assert(g1.at(x1, y1) == g0.at(x1, y1));
                assert(g1.at(x2, y2) == g0.at(x2, y2));
                assert(g0.at(x1, y1) is Collapsed && g0.at(x2, y2) is Collapsed);
            }
        }
    }
}

/// Some entry of the sequence equals `v`.
spec fn seq_has(vs: Seq<int>, v: int) -> bool {
    exists|i: int| 0 <= i < vs.len() && #[trigger] vs[i] == v
}

/// Every uncertain cell in the propagation region of (x, y) excludes `v`.
pub open spec fn clue_propagated(g: Grid, x: int, y: int, v: int) -> bool {
    forall|x2: int, y2: int|
        #![trigger g.at(x2, y2)]
        coord_ok(x2, y2) && prop_region(x, y, x2, y2) && g.at(x2, y2) is Uncertain ==> !g.at(
            x2,
            y2,
        )->Uncertain_0.has(v)
}

/// Clue `j` (a flat index) of the seed grid has been propagated into `g`.
pub open spec fn clue_done(g0: Grid, g: Grid, j: int) -> bool {
    g0.at(j % 9, j / 9) is Collapsed ==> clue_propagated(
        g,
        j % 9,
        j / 9,
        g0.at(j % 9, j / 9)->Collapsed_0@,
    )
}

/// Excluding one digit from one cell keeps the propagation invariant and
/// duplicate-freedom, and (when the digit was present) lowers the measure
/// by exactly one.
proof fn lemma_exclude_one_props(b0: Grid, b1: Grid, x: int, y: int, v: int)
    requires
        b0.wf(),
        coord_ok(x, y),
        1 <= v <= 9,
        b1.cells@.len() == 81,
        excludes_to(b0.at(x, y), b1.at(x, y), v),
        forall|x2: int, y2: int|
            coord_ok(x2, y2) && !(x2 == x && y2 == y) ==> #[trigger] b1.at(x2, y2) == b0.at(
                x2,
                y2,
            ),
    ensures
        propagated(b0) ==> propagated(b1),
        no_dup(b0) ==> no_dup(b1),
        b0.at(x, y) is Uncertain && b0.at(x, y)->Uncertain_0.has(v) ==> grid_pot(b1) == grid_pot(
            b0,
        ) - 1,
{
    let idx = y * 9 + x;
    lemma_excludes_no_add(b0.at(x, y), b1.at(x, y), v);
    if propagated(b0) {
        assert forall|x1: int, y1: int, x2: int, y2: int|
            coord_ok(x1, y1) && coord_ok(x2, y2) && peers(x1, y1, x2, y2) && (#[trigger] b1.at(
                x1,
                y1,
            )) is Collapsed && (#[trigger] b1.at(x2, y2)) is Uncertain implies !b1.at(
            x2,
            y2,
        )->Uncertain_0.has(b1.at(x1, y1)->Collapsed_0@) by {
            assert(b0.at(x1, y1) is Collapsed && b0.at(x1, y1)->Collapsed_0 == b1.at(
                x1,
                y1,
            )->Collapsed_0);
            assert(b0.at(x2, y2) is Uncertain);
            let w = b0.at(x1, y1)->Collapsed_0@;
            assert(!b0.at(x2, y2)->Uncertain_0.has(w));
            if b1.at(x2, y2)->Uncertain_0.has(w) {
                assert(x2 == x && y2 == y);
                assert(b0.at(x2, y2)->Uncertain_0.has(w));
                assert(false);
            }
        }
    }
    if no_dup(b0) {
        assert forall|x1: int, y1: int, x2: int, y2: int|
            coord_ok(x1, y1) && coord_ok(x2, y2) && peers(x1, y1, x2, y2) && (#[trigger] b1.at(
                x1,
                y1,
            )) is Collapsed && (#[trigger] b1.at(x2, y2)) is Collapsed implies b1.at(
            x1,
            y1,
        )->Collapsed_0@ != b1.at(x2, y2)->Collapsed_0@ by {
            assert(b0.at(x1, y1) is Collapsed && b0.at(x1, y1)->Collapsed_0 == b1.at(
                x1,
                y1,
            )->Collapsed_0);
            assert(b0.at(x2, y2) is Collapsed && b0.at(x2, y2)->Collapsed_0 == b1.at(
                x2,
                y2,
            )->Collapsed_0);
        }
    }
    if b0.at(x, y) is Uncertain && b0.at(x, y)->Uncertain_0.has(v) {
        assert(b1.cells@ =~= b0.cells@.update(idx, b1.cells@[idx])) by {
            assert forall|i: int|
                0 <= i < 81 && i != idx implies b1.cells@[i] == b0.cells@[i] by {
                let x2 = i % 9;
                let y2 = i / 9;
                assert(y2 * 9 + x2 == i);
                assert(coord_ok(x2, y2));
                assert(!(x2 == x && y2 == y));
                assert(b1.at(x2, y2) == b0.at(x2, y2));
            }
        }
        lemma_sum_pot_update(b0.cells@, idx, b1.cells@[idx]);
        lemma_excludes_pot(b0.at(x, y), b1.at(x, y), v);
    }
}

/// Nine pairwise distinct values within 1..=9 cover every value of 1..=9.
proof fn lemma_nine_distinct_covers(vs: Seq<int>)
    requires
        vs.len() == 9,
        forall|i: int| 0 <= i < 9 ==> 1 <= #[trigger] vs[i] <= 9,
        forall|i: int, j: int| 0 <= i < 9 && 0 <= j < 9 && i != j ==> vs[i] != vs[j],
    ensures
        forall|v: int| 1 <= v <= 9 ==> #[trigger] seq_has(vs, v),
{
    broadcast use vstd::seq_lib::group_seq_lib_default;
    broadcast use vstd::set::group_set_axioms;

    assert(vs.no_duplicates());
    vs.unique_seq_to_set();
    let range = set_int_range(1, 10);
    lemma_int_range(1, 10);
    assert(vs.to_set() <= range) by {
        assert forall|e: int| vs.to_set().contains(e) implies range.contains(e) by {
            let i = choose|i: int| 0 <= i < vs.len() && vs[i] == e;
        }
    }
    assert forall|v: int| 1 <= v <= 9 implies #[trigger] seq_has(vs, v) by {
        if !vs.to_set().contains(v) {
            assert(vs.to_set() <= range.remove(v));
            lemma_len_subset(vs.to_set(), range.remove(v));
            assert(range.remove(v).len() == 8);
            assert(false);
        }
        assert(vs.contains(v));
        let i = choose|i: int| 0 <= i < vs.len() && vs[i] == v;
        assert(vs[i] == v);
    }
}

/// A fully collapsed board without duplicated peers carries each digit
/// exactly once in every row, column and box.
#[verifier::rlimit(50)]
pub proof fn lemma_solved_grid_valid(g: Grid)
    requires
        g.wf(),
        all_collapsed(g),
        no_dup(g),
    ensures
        valid_solution(g),
{
    assert forall|y: int, v: int| 0 <= y < 9 && 1 <= v <= 9 implies #[trigger] row_exactly_once(
        g,
        y,
        v,
    ) by {
        let vs = Seq::new(9, |x: int| g.at(x, y)->Collapsed_0@);
        assert forall|x: int| 0 <= x < 9 implies 1 <= #[trigger] vs[x] <= 9 by {
            assert(g.cells@[y * 9 + x].wf());
            assert(g.at(x, y) is Collapsed);
        }
        assert forall|i: int, j: int| 0 <= i < 9 && 0 <= j < 9 && i != j implies vs[i] != vs[j] by {
            assert(peers(i, y, j, y));
            assert(g.at(i, y) is Collapsed && g.at(j, y) is Collapsed);
        }
        lemma_nine_distinct_covers(vs);
        assert(seq_has(vs, v));
        let xw = choose|i: int| 0 <= i < vs.len() && #[trigger] vs[i] == v;
        assert(collapsed_to(g, xw, y, v));
        assert forall|x1: int, x2: int|
            0 <= x1 < 9 && 0 <= x2 < 9 && collapsed_to(g, x1, y, v) && collapsed_to(
                g,
                x2,
                y,
                v,
            ) implies x1 == x2 by {
            if x1 != x2 {
                assert(peers(x1, y, x2, y));
                assert(g.at(x1, y) is Collapsed && g.at(x2, y) is Collapsed);
            }
        }
    }
    assert forall|x: int, v: int| 0 <= x < 9 && 1 <= v <= 9 implies #[trigger] col_exactly_once(
        g,
        x,
        v,
    ) by {
        let vs = Seq::new(9, |y: int| g.at(x, y)->Collapsed_0@);
        assert forall|y: int| 0 <= y < 9 implies 1 <= #[trigger] vs[y] <= 9 by {
            assert(g.cells@[y * 9 + x].wf());
            assert(g.at(x, y) is Collapsed);
        }
        assert forall|i: int, j: int| 0 <= i < 9 && 0 <= j < 9 && i != j implies vs[i] != vs[j] by {
            assert(peers(x, i, x, j));
            assert(g.at(x, i) is Collapsed && g.at(x, j) is Collapsed);
        }
        lemma_nine_distinct_covers(vs);
        assert(seq_has(vs, v));
        let yw = choose|i: int| 0 <= i < vs.len() && #[trigger] vs[i] == v;
        assert(collapsed_to(g, x, yw, v));
        assert forall|y1: int, y2: int|
            0 <= y1 < 9 && 0 <= y2 < 9 && collapsed_to(g, x, y1, v) && collapsed_to(
                g,
                x,
                y2,
                v,
            ) implies y1 == y2 by {
            if y1 != y2 {
                assert(peers(x, y1, x, y2));
                assert(g.at(x, y1) is Collapsed && g.at(x, y2) is Collapsed);
            }
        }
    }
    assert forall|b: int, v: int| 0 <= b < 9 && 1 <= v <= 9 implies #[trigger] box_exactly_once(
        g,
        b,
        v,
    ) by {
        let vs = Seq::new(9, |i: int| g.at(b % 3 * 3 + i % 3, b / 3 * 3 + i / 3)->Collapsed_0@);
        assert forall|i: int| 0 <= i < 9 implies 1 <= #[trigger] vs[i] <= 9 by {
            let x = b % 3 * 3 + i % 3;
            let y = b / 3 * 3 + i / 3;
            assert(coord_ok(x, y));
            assert(g.cells@[y * 9 + x].wf());
            assert(g.at(x, y) is Collapsed);
        }
        assert forall|i: int, j: int| 0 <= i < 9 && 0 <= j < 9 && i != j implies vs[i] != vs[j] by {
            let x1 = b % 3 * 3 + i % 3;
            let y1 = b / 3 * 3 + i / 3;
            let x2 = b % 3 * 3 + j % 3;
            let y2 = b / 3 * 3 + j / 3;
            assert(!(x1 == x2 && y1 == y2));
            assert(same_box(x1, y1, x2, y2));
            assert(peers(x1, y1, x2, y2));
            assert(g.at(x1, y1) is Collapsed && g.at(x2, y2) is Collapsed);
        }
        lemma_nine_distinct_covers(vs);
        assert(seq_has(vs, v));
        let iw = choose|i: int| 0 <= i < vs.len() && #[trigger] vs[i] == v;
        assert(box_collapsed_to(g, b, iw, v));
        assert forall|i: int, j: int|
            0 <= i < 9 && 0 <= j < 9 && #[trigger] box_collapsed_to(g, b, i, v)
                && #[trigger] box_collapsed_to(g, b, j, v) implies i == j by {
            if i != j {
                let x1 = b % 3 * 3 + i % 3;
                let y1 = b / 3 * 3 + i / 3;
                let x2 = b % 3 * 3 + j % 3;
                let y2 = b / 3 * 3 + j / 3;
                assert(!(x1 == x2 && y1 == y2));
                assert(same_box(x1, y1, x2, y2));
                assert(peers(x1, y1, x2, y2));
                assert(g.at(x1, y1) is Collapsed && g.at(x2, y2) is Collapsed);
            }
        }
    }
}

/// An exclusion step preserves well-formedness.
proof fn lemma_excludes_to_wf(a: NumCell, b: NumCell, v: int)
    requires
        a.wf(),
        1 <= v <= 9,
    ensures
        excludes_to(a, b, v) ==> b.wf(),
{
    if excludes_to(a, b, v) {
        match (a, b) {
            (NumCell::Uncertain(u1), NumCell::Uncertain(u2)) => {
                assert(u2.poss@.len() == u1.poss@.len());
            },
            _ => {},
        }
    }
}

} // verus!
