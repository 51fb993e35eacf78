use vstd::prelude::*;
use crate::codec::SolvedNonogram;
use crate::grid::{
    below_all_fixpoints, closed, column, fully_known, grid_cells, grid_refines, grid_unknowns,
    is_fixpoint, is_least_fixpoint, is_solution, lemma_closure_monotone, lemma_closure_refines,
    lemma_feasible_coarser, lemma_grid_unknowns_refine, lemma_known_fixpoint,
    lemma_known_line, lemma_solution_fixpoint, resolve_grid, shaped, view_grid, with_column,
};
use crate::line::{feasible, line_closure, refines, solve_line, Cell};
use crate::puzzle::{Axis, InvalidClue, Nonogram};

verus! {

/// Why a puzzle was not solved.
#[derive(Clone, Debug, PartialEq, Eq)]
pub enum SolveFailure {
    /// A clue cannot stand on its line; nothing was solved.
    InvalidClue(InvalidClue),
    /// A line of the puzzle has no arrangement agreeing with what the other lines force.
    Contradiction { axis: Axis, index: usize },
    /// Propagation came to rest with cells still unknown; `cells` is that grid, row by row.
    Underdetermined { cells: Vec<Vec<Cell>> },
}

/// `e` is a contradiction naming a row or a column of the puzzle whose clue has no
/// arrangement on some grid of the puzzle's shape that every fixpoint refines.
pub open spec fn names_line(p: Nonogram, e: SolveFailure) -> bool {
    let rows = p.row_clues();
    let cols = p.col_clues();
    match e {
        SolveFailure::Contradiction { axis: Axis::Row, index } => {
            &&& index < p.rows.len()
            &&& exists|g: Seq<Seq<Cell>>|
                shaped(g, rows.len() as int, cols.len() as int) && #[trigger] below_all_fixpoints(
                    rows,
                    cols,
                    g,
                ) && !feasible(rows[index as int], g[index as int])
        },
        SolveFailure::Contradiction { axis: Axis::Column, index } => {
            &&& index < p.cols.len()
            &&& exists|g: Seq<Seq<Cell>>|
                shaped(g, rows.len() as int, cols.len() as int) && #[trigger] below_all_fixpoints(
                    rows,
                    cols,
                    g,
                ) && !feasible(cols[index as int], column(g, index as int))
        },
        _ => false,
    }
}

/// Some cell unknown in `g` is known in `g2`.
pub open spec fn learned(g: Seq<Seq<Cell>>, g2: Seq<Seq<Cell>>) -> bool {
    exists|r: int, c: int|
        0 <= r < g.len() && 0 <= c < g[r].len() && g[r][c] == Cell::Unknown && #[trigger] g2[r][c]
            != Cell::Unknown
}

/// The puzzle has no fixpoint, so no solution either.
pub open spec fn no_fixpoint(rows: Seq<Seq<u8>>, cols: Seq<Seq<u8>>) -> bool {
    forall|f: Seq<Seq<Cell>>| !#[trigger] is_fixpoint(rows, cols, f)
}

/// The two lines hold the same cells.
fn same_line(a: &Vec<Cell>, b: &Vec<Cell>) -> (same: bool)
    ensures
        same == (a@ == b@),
{
    if a.len() != b.len() {
        return false;
    }
    let mut x: usize = 0;
    while x < a.len()
        invariant
            a.len() == b.len(),
            x <= a.len(),
            forall|y: int| 0 <= y < x ==> a[y] == b[y],
        decreases a.len() - x,
    {
        if a[x] != b[x] {
            return false;
        }
        x = x + 1;
    }
    assert(a@ =~= b@);
    true
}

/// A fixpoint that refines `g` refines the closure of row `r` of `g`.
proof fn lemma_row_step(rows: Seq<Seq<u8>>, cols: Seq<Seq<u8>>, g: Seq<Seq<Cell>>, r: int)
    requires
        shaped(g, rows.len() as int, cols.len() as int),
        below_all_fixpoints(rows, cols, g),
        0 <= r < rows.len(),
    ensures
        !feasible(rows[r], g[r]) ==> no_fixpoint(rows, cols),
        feasible(rows[r], g[r]) ==> below_all_fixpoints(
            rows,
            cols,
            g.update(r, line_closure(rows[r], g[r])),
        ) && grid_refines(g, g.update(r, line_closure(rows[r], g[r]))),
{
    assert forall|f: Seq<Seq<Cell>>| #[trigger] is_fixpoint(rows, cols, f) implies feasible(
        rows[r],
        g[r],
    ) && refines(line_closure(rows[r], g[r]), f[r]) by {
        assert(grid_refines(g, f));
        assert(refines(g[r], f[r]));
        assert(closed(rows[r], f[r]));
        lemma_feasible_coarser(rows[r], g[r], f[r]);
        lemma_closure_monotone(rows[r], g[r], f[r]);
    }
    if feasible(rows[r], g[r]) {
        let g2 = g.update(r, line_closure(rows[r], g[r]));
        lemma_closure_refines(rows[r], g[r]);
        assert forall|f: Seq<Seq<Cell>>| #[trigger] is_fixpoint(rows, cols, f) implies grid_refines(
            g2,
            f,
        ) by {
            assert(grid_refines(g, f));
            assert forall|q: int| 0 <= q < g2.len() implies refines(#[trigger] g2[q], f[q]) by {
                if q != r {
                    assert(refines(g[q], f[q]));
                }
            }
        }
        assert forall|q: int| 0 <= q < g.len() implies refines(#[trigger] g[q], g2[q]) by {
            if q != r {
                assert(g[q] =~= g2[q]);
            }
        }
    }
}

/// A fixpoint that refines `g` refines the closure of column `c` of `g`.
proof fn lemma_column_step(rows: Seq<Seq<u8>>, cols: Seq<Seq<u8>>, g: Seq<Seq<Cell>>, c: int)
    requires
        shaped(g, rows.len() as int, cols.len() as int),
        below_all_fixpoints(rows, cols, g),
        0 <= c < cols.len(),
    ensures
        !feasible(cols[c], column(g, c)) ==> no_fixpoint(rows, cols),
        feasible(cols[c], column(g, c)) ==> below_all_fixpoints(
            rows,
            cols,
            with_column(g, c, line_closure(cols[c], column(g, c))),
        ) && grid_refines(g, with_column(g, c, line_closure(cols[c], column(g, c)))),
{
    let k = column(g, c);
    let out = line_closure(cols[c], k);
    assert forall|f: Seq<Seq<Cell>>| #[trigger] is_fixpoint(rows, cols, f) implies feasible(
        cols[c],
        k,
    ) && refines(out, column(f, c)) by {
        assert(grid_refines(g, f));
        assert(refines(k, column(f, c))) by {
            assert forall|q: int| 0 <= q < k.len() implies k[q] == Cell::Unknown || k[q] == column(
                f,
                c,
            )[q] by {
                assert(refines(g[q], f[q]));
            }
        }
        assert(closed(cols[c], column(f, c)));
        lemma_feasible_coarser(cols[c], k, column(f, c));
        lemma_closure_monotone(cols[c], k, column(f, c));
    }
    if feasible(cols[c], k) {
        let g2 = with_column(g, c, out);
        lemma_closure_refines(cols[c], k);
        assert forall|f: Seq<Seq<Cell>>| #[trigger] is_fixpoint(rows, cols, f) implies grid_refines(
            g2,
            f,
        ) by {
            assert(grid_refines(g, f));
            assert(refines(out, column(f, c)));
            assert forall|q: int| 0 <= q < g2.len() implies refines(#[trigger] g2[q], f[q]) by {
                assert(refines(g[q], f[q]));
                assert(column(f, c)[q] == f[q][c]);
            }
        }
        assert forall|q: int| 0 <= q < g.len() implies refines(#[trigger] g[q], g2[q]) by {
            assert(k[q] == g[q][c]);
        }
    }
}


/// Runs the line solver on row `r` and writes its result back.
fn advance_row(clue: &Vec<u8>, g: &mut Vec<Vec<Cell>>, r: usize) -> (res: Result<bool, ()>)
    requires
        r < old(g).len(),
        clue.len() < usize::MAX,
        old(g)[r as int].len() < usize::MAX,
    ensures
        res is Err <==> !feasible(clue@, old(g)[r as int]@),
        res is Err ==> final(g)@ == old(g)@,
        res matches Ok(changed) ==> view_grid(final(g)@) == view_grid(old(g)@).update(
            r as int,
            line_closure(clue@, old(g)[r as int]@),
        ) && changed == (line_closure(clue@, old(g)[r as int]@) != old(g)[r as int]@),
{
    match solve_line(clue, &g[r]) {
        Err(_) => Err(()),
        Ok(out) => {
            let changed = !same_line(&out, &g[r]);
            g.set(r, out);
            assert(view_grid(g@) =~= view_grid(old(g)@).update(
                r as int,
                line_closure(clue@, old(g)[r as int]@),
            ));
            Ok(changed)
        },
    }
}

/// Runs the line solver on column `c` and writes its result back.
fn advance_column(clue: &Vec<u8>, g: &mut Vec<Vec<Cell>>, c: usize, w: usize) -> (res: Result<
    bool,
    (),
>)
    requires
        shaped(view_grid(old(g)@), old(g).len() as int, w as int),
        c < w,
        clue.len() < usize::MAX,
        old(g).len() < usize::MAX,
    ensures
        res is Err <==> !feasible(clue@, column(view_grid(old(g)@), c as int)),
        res is Err ==> final(g)@ == old(g)@,
        res matches Ok(changed) ==> view_grid(final(g)@) == with_column(
            view_grid(old(g)@),
            c as int,
            line_closure(clue@, column(view_grid(old(g)@), c as int)),
        ) && changed == (line_closure(clue@, column(view_grid(old(g)@), c as int)) != column(
            view_grid(old(g)@),
            c as int,
        )),
{
    let ghost g0 = view_grid(g@);
    let h = g.len();
    let mut line: Vec<Cell> = Vec::new();
    let mut r: usize = 0;
    while r < h
        invariant
            h == g.len(),
            g0 == view_grid(g@),
            shaped(g0, h as int, w as int),
            c < w,
            r <= h,
            line@ == column(g0, c as int).subrange(0, r as int),
        decreases h - r,
    {
        assert(g0[r as int] == g[r as int]@);
        line.push(g[r][c]);
        r = r + 1;
        assert(line@ =~= column(g0, c as int).subrange(0, r as int));
    }
    assert(line@ =~= column(g0, c as int));
    match solve_line(clue, &line) {
        Err(_) => Err(()),
        Ok(out) => {
            let changed = !same_line(&out, &line);
            let ghost target = with_column(g0, c as int, out@);
            let mut r: usize = 0;
            while r < h
                invariant
                    h == g.len(),
                    shaped(g0, h as int, w as int),
                    c < w,
                    r <= h,
                    out.len() == h,
                    target == with_column(g0, c as int, out@),
                    forall|q: int| 0 <= q < r ==> (#[trigger] g[q])@ == target[q],
                    forall|q: int| r <= q < h ==> (#[trigger] g[q])@ == g0[q],
                decreases h - r,
            {
                let mut row = g[r].clone();
                row.set(c, out[r]);
                g.set(r, row);
                r = r + 1;
            }
            assert(view_grid(g@) =~= target);
            Ok(changed)
        },
    }
}

/// One sweep over every row: the grid only gains known cells, stays below every
/// fixpoint, and is unchanged only if every row was already closed.
fn pass_rows(p: &Nonogram, g: &mut Vec<Vec<Cell>>) -> (res: Result<bool, SolveFailure>)
    requires
        p.indexable(),
        shaped(view_grid(old(g)@), p.rows.len() as int, p.cols.len() as int),
        below_all_fixpoints(p.row_clues(), p.col_clues(), view_grid(old(g)@)),
    ensures
        res matches Err(e) ==> e matches SolveFailure::Contradiction { axis: Axis::Row, .. }
            && names_line(*p, e) && no_fixpoint(p.row_clues(), p.col_clues()),
        res matches Ok(changed) ==> {
            &&& shaped(view_grid(final(g)@), p.rows.len() as int, p.cols.len() as int)
            &&& below_all_fixpoints(p.row_clues(), p.col_clues(), view_grid(final(g)@))
            &&& grid_refines(view_grid(old(g)@), view_grid(final(g)@))
            &&& changed ==> learned(view_grid(old(g)@), view_grid(final(g)@))
            &&& !changed ==> view_grid(final(g)@) == view_grid(old(g)@) && forall|r: int|
                0 <= r < p.rows.len() ==> closed(p.row_clues()[r], #[trigger] view_grid(final(g)@)[r])
        },
{
    let ghost rows = p.row_clues();
    let ghost cols = p.col_clues();
    let ghost g0 = view_grid(g@);
    let h = p.rows.len();
    let mut changed = false;
    let mut r: usize = 0;
    while r < h
        invariant
            p.indexable(),
            h == p.rows.len(),
            rows == p.row_clues(),
            cols == p.col_clues(),
            r <= h,
            shaped(g0, h as int, p.cols.len() as int),
            shaped(view_grid(g@), h as int, p.cols.len() as int),
            below_all_fixpoints(rows, cols, view_grid(g@)),
            grid_refines(g0, view_grid(g@)),
            changed ==> learned(g0, view_grid(g@)),
            !changed ==> view_grid(g@) == g0 && forall|q: int|
                0 <= q < r ==> closed(rows[q], #[trigger] g0[q]),
        decreases h - r,
    {
        let ghost before = view_grid(g@);
        proof {
            lemma_row_step(rows, cols, before, r as int);
            assert(rows[r as int] == p.rows[r as int]@);
            assert(before[r as int] == g[r as int]@);
        }
        match advance_row(&p.rows[r], g, r) {
            Err(_) => {
                assert(below_all_fixpoints(rows, cols, before));
                return Err(SolveFailure::Contradiction { axis: Axis::Row, index: r });
            },
            Ok(ch) => {
                proof {
                    let after = view_grid(g@);
                    lemma_closure_refines(rows[r as int], before[r as int]);
                    assert forall|q: int| 0 <= q < g0.len() implies refines(
                        #[trigger] g0[q],
                        after[q],
                    ) by {
                        assert(refines(g0[q], before[q]));
                        assert(refines(before[q], after[q])) by {
                            if q != r {
                                assert(before[q] =~= after[q]);
                            }
                        }
                    }
                    if changed {
                        let (a, b) = choose|a: int, b: int|
                            0 <= a < g0.len() && 0 <= b < g0[a].len() && g0[a][b] == Cell::Unknown
                                && #[trigger] before[a][b] != Cell::Unknown;
                        assert(refines(before[a], after[a]));
                        assert(after[a][b] != Cell::Unknown);
                    } else if ch {
                        let k = before[r as int];
                        let out = after[r as int];
                        assert(out != k);
                        assert(exists|b: int| 0 <= b < k.len() && out[b] != k[b]) by {
                            if forall|b: int| 0 <= b < k.len() ==> out[b] == k[b] {
                                assert(out =~= k);
                            }
                        }
                        let b = choose|b: int| 0 <= b < k.len() && out[b] != k[b];
                        assert(k[b] == Cell::Unknown);
                        assert(after[r as int][b] != Cell::Unknown);
                    } else {
                        assert(after =~= before);
                    }
                }
                changed = changed || ch;
            },
        }
        r = r + 1;
    }
    Ok(changed)
}


/// One sweep over every column, with the guarantees of `pass_rows`.
fn pass_cols(p: &Nonogram, g: &mut Vec<Vec<Cell>>) -> (res: Result<bool, SolveFailure>)
    requires
        p.indexable(),
        shaped(view_grid(old(g)@), p.rows.len() as int, p.cols.len() as int),
        below_all_fixpoints(p.row_clues(), p.col_clues(), view_grid(old(g)@)),
    ensures
        res matches Err(e) ==> e matches SolveFailure::Contradiction { axis: Axis::Column, .. }
            && names_line(*p, e) && no_fixpoint(p.row_clues(), p.col_clues()),
        res matches Ok(changed) ==> {
            &&& shaped(view_grid(final(g)@), p.rows.len() as int, p.cols.len() as int)
            &&& below_all_fixpoints(p.row_clues(), p.col_clues(), view_grid(final(g)@))
            &&& grid_refines(view_grid(old(g)@), view_grid(final(g)@))
            &&& changed ==> learned(view_grid(old(g)@), view_grid(final(g)@))
            &&& !changed ==> view_grid(final(g)@) == view_grid(old(g)@) && forall|c: int|
                0 <= c < p.cols.len() ==> closed(
                    p.col_clues()[c],
                    #[trigger] column(view_grid(final(g)@), c),
                )
        },
{
    let ghost rows = p.row_clues();
    let ghost cols = p.col_clues();
    let ghost g0 = view_grid(g@);
    let h = p.rows.len();
    let w = p.cols.len();
    let mut changed = false;
    let mut c: usize = 0;
    while c < w
        invariant
            p.indexable(),
            h == p.rows.len(),
            w == p.cols.len(),
            rows == p.row_clues(),
            cols == p.col_clues(),
            c <= w,
            g.len() == h,
            shaped(g0, h as int, w as int),
            shaped(view_grid(g@), h as int, w as int),
            below_all_fixpoints(rows, cols, view_grid(g@)),
            grid_refines(g0, view_grid(g@)),
            changed ==> learned(g0, view_grid(g@)),
            !changed ==> view_grid(g@) == g0 && forall|q: int|
                0 <= q < c ==> closed(cols[q], #[trigger] column(g0, q)),
        decreases w - c,
    {
        let ghost before = view_grid(g@);
        proof {
            lemma_column_step(rows, cols, before, c as int);
            assert(cols[c as int] == p.cols[c as int]@);
        }
        match advance_column(&p.cols[c], g, c, w) {
            Err(_) => {
                assert(below_all_fixpoints(rows, cols, before));
                return Err(SolveFailure::Contradiction { axis: Axis::Column, index: c });
            },
            Ok(ch) => {
                proof {
                    let after = view_grid(g@);
                    let k = column(before, c as int);
                    lemma_closure_refines(cols[c as int], k);
                    assert forall|q: int| 0 <= q < g0.len() implies refines(
                        #[trigger] g0[q],
                        after[q],
                    ) by {
                        assert(refines(g0[q], before[q]));
                        assert(refines(before[q], after[q]));
                    }
                    assert(shaped(after, h as int, w as int)) by {
                        assert forall|q: int| 0 <= q < h implies (#[trigger] after[q]).len() == w by {
                            assert(refines(before[q], after[q]));
                        }
                    }
                    if changed {
                        let (a, b) = choose|a: int, b: int|
                            0 <= a < g0.len() && 0 <= b < g0[a].len() && g0[a][b] == Cell::Unknown
                                && #[trigger] before[a][b] != Cell::Unknown;
                        assert(refines(before[a], after[a]));
                        assert(after[a][b] != Cell::Unknown);
                    } else if ch {
                        let out = line_closure(cols[c as int], k);
                        assert(out != k);
                        assert(exists|b: int| 0 <= b < k.len() && out[b] != k[b]) by {
                            if forall|b: int| 0 <= b < k.len() ==> out[b] == k[b] {
                                assert(out =~= k);
                            }
                        }
                        let b = choose|b: int| 0 <= b < k.len() && out[b] != k[b];
                        assert(k[b] == Cell::Unknown);
                        assert(after[b][c as int] == out[b]);
                    } else {
                        assert(after =~= before) by {
                            assert forall|q: int| 0 <= q < h implies after[q] == before[q] by {
                                assert(after[q] =~= before[q]) by {
                                    assert(k[q] == before[q][c as int]);
                                }
                            }
                        }
                    }
                }
                changed = changed || ch;
            },
        }
        c = c + 1;
    }
    Ok(changed)
}

/// A grid of `h` rows of `w` unknown cells.
fn blank(h: usize, w: usize) -> (g: Vec<Vec<Cell>>)
    ensures
        shaped(view_grid(g@), h as int, w as int),
        forall|r: int, c: int| 0 <= r < h && 0 <= c < w ==> g[r][c] == Cell::Unknown,
{
    let mut g: Vec<Vec<Cell>> = Vec::new();
    let mut r: usize = 0;
    while r < h
        invariant
            r <= h,
            g.len() == r,
            forall|q: int| 0 <= q < r ==> (#[trigger] g[q]).len() == w,
            forall|q: int, c: int| 0 <= q < r && 0 <= c < w ==> g[q][c] == Cell::Unknown,
        decreases h - r,
    {
        let mut row: Vec<Cell> = Vec::new();
        let mut c: usize = 0;
        while c < w
            invariant
                c <= w,
                row.len() == c,
                forall|x: int| 0 <= x < c ==> row[x] == Cell::Unknown,
            decreases w - c,
        {
            row.push(Cell::Unknown);
            c = c + 1;
        }
        g.push(row);
        r = r + 1;
    }
    g
}

impl Nonogram {
    /// Runs the line solver over all rows and all columns, pass after pass, until a
    /// whole pass changes nothing. `columns_first` sets which sweep each pass starts
    /// with. The result is the puzzle's least fixpoint, whatever the order; a line
    /// without arrangement ends the work at once.
    pub fn propagate(&self, columns_first: bool) -> (res: Result<Vec<Vec<Cell>>, SolveFailure>)
        requires
            self.indexable(),
        ensures
            res matches Ok(g) ==> is_least_fixpoint(self.row_clues(), self.col_clues(), view_grid(g@)),
            res matches Err(e) ==> names_line(*self, e) && no_fixpoint(self.row_clues(), self.col_clues()),
    {
        let ghost rows = self.row_clues();
        let ghost cols = self.col_clues();
        let h = self.rows.len();
        let w = self.cols.len();
        let mut g = blank(h, w);
        proof {
            assert forall|f: Seq<Seq<Cell>>| #[trigger] is_fixpoint(rows, cols, f) implies grid_refines(
                view_grid(g@),
                f,
            ) by {
                assert forall|r: int| 0 <= r < h implies refines(#[trigger] view_grid(g@)[r], f[r]) by {
                    let k = view_grid(g@)[r];
                    assert(k == g@[r]@);
                    assert(f[r].len() == w);
                    assert forall|x: int| 0 <= x < w implies k[x] == Cell::Unknown by {
                        assert(g[r][x] == Cell::Unknown);
                    }
                }
            }
        }
        loop
            invariant
                self.indexable(),
                rows == self.row_clues(),
                cols == self.col_clues(),
                h == self.rows.len(),
                w == self.cols.len(),
                shaped(view_grid(g@), h as int, w as int),
                below_all_fixpoints(rows, cols, view_grid(g@)),
            decreases grid_unknowns(view_grid(g@)),
        {
            let ghost start = view_grid(g@);
            let changed = if columns_first {
                let a = match pass_cols(self, &mut g) {
                    Err(e) => {
                        return Err(e);
                    },
                    Ok(a) => a,
                };
                let ghost mid = view_grid(g@);
                let b = match pass_rows(self, &mut g) {
                    Err(e) => {
                        return Err(e);
                    },
                    Ok(b) => b,
                };
                proof {
                    lemma_learned_then_refined(start, mid, view_grid(g@), a, b);
                    if !a && !b {
                        assert forall|c: int| 0 <= c < w implies closed(
                            cols[c],
                            #[trigger] column(view_grid(g@), c),
                        ) by {
                            assert(closed(cols[c], column(mid, c)));
                        }
                    }
                }
                a || b
            } else {
                let a = match pass_rows(self, &mut g) {
                    Err(e) => {
                        return Err(e);
                    },
                    Ok(a) => a,
                };
                let ghost mid = view_grid(g@);
                let b = match pass_cols(self, &mut g) {
                    Err(e) => {
                        return Err(e);
                    },
                    Ok(b) => b,
                };
                proof {
                    lemma_learned_then_refined(start, mid, view_grid(g@), a, b);
                    if !a && !b {
                        assert forall|r: int| 0 <= r < h implies closed(
                            rows[r],
                            #[trigger] view_grid(g@)[r],
                        ) by {
                            assert(closed(rows[r], mid[r]));
                        }
                    }
                }
                a || b
            };
            if !changed {
                return Ok(g);
            }
            proof {
                lemma_grid_unknowns_refine(start, view_grid(g@));
            }
        }
    }
}

/// Two sweeps in a row: the second keeps what the first learned.
proof fn lemma_learned_then_refined(
    g0: Seq<Seq<Cell>>,
    g1: Seq<Seq<Cell>>,
    g2: Seq<Seq<Cell>>,
    a: bool,
    b: bool,
)
    requires
        grid_refines(g0, g1),
        grid_refines(g1, g2),
        a ==> learned(g0, g1),
        b ==> learned(g1, g2),
    ensures
        grid_refines(g0, g2),
        a || b ==> learned(g0, g2),
{
    assert forall|r: int| 0 <= r < g0.len() implies refines(#[trigger] g0[r], g2[r]) by {
        assert(refines(g0[r], g1[r]));
        assert(refines(g1[r], g2[r]));
    }
    if a {
        let (r, c) = choose|r: int, c: int|
            0 <= r < g0.len() && 0 <= c < g0[r].len() && g0[r][c] == Cell::Unknown && #[trigger] g1[r][c]
                != Cell::Unknown;
        assert(refines(g1[r], g2[r]));
        assert(g2[r][c] != Cell::Unknown);
    } else if b {
        let (r, c) = choose|r: int, c: int|
            0 <= r < g1.len() && 0 <= c < g1[r].len() && g1[r][c] == Cell::Unknown && #[trigger] g2[r][c]
                != Cell::Unknown;
        assert(refines(g0[r], g1[r]));
        assert(g0[r][c] == Cell::Unknown);
    }
}


/// The grid has no unknown cell.
fn all_known(g: &Vec<Vec<Cell>>) -> (b: bool)
    ensures
        b == fully_known(view_grid(g@)),
{
    let mut r: usize = 0;
    while r < g.len()
        invariant
            r <= g.len(),
            forall|q: int, c: int| 0 <= q < r && 0 <= c < g[q]@.len() ==> g[q]@[c] != Cell::Unknown,
        decreases g.len() - r,
    {
        let mut c: usize = 0;
        while c < g[r].len()
            invariant
                r < g.len(),
                c <= g[r as int].len(),
                forall|x: int| 0 <= x < c ==> g[r as int]@[x] != Cell::Unknown,
            decreases g[r as int].len() - c,
        {
            if g[r][c] == Cell::Unknown {
                assert(view_grid(g@)[r as int][c as int] == Cell::Unknown);
                return false;
            }
            c = c + 1;
        }
        r = r + 1;
    }
    true
}

/// The filled cells of a grid, row by row.
fn filled_cells(g: &Vec<Vec<Cell>>) -> (s: Vec<Vec<bool>>)
    ensures
        view_grid(s@) == resolve_grid(view_grid(g@)),
{
    let mut s: Vec<Vec<bool>> = Vec::new();
    let mut r: usize = 0;
    while r < g.len()
        invariant
            r <= g.len(),
            s.len() == r,
            forall|q: int| 0 <= q < r ==> (#[trigger] s[q])@ == resolve_grid(view_grid(g@))[q],
        decreases g.len() - r,
    {
        let mut row: Vec<bool> = Vec::new();
        let mut c: usize = 0;
        while c < g[r].len()
            invariant
                r < g.len(),
                c <= g[r as int].len(),
                row@ == resolve_grid(view_grid(g@))[r as int].subrange(0, c as int),
            decreases g[r as int].len() - c,
        {
            row.push(g[r][c] == Cell::Filled);
            c = c + 1;
            assert(row@ =~= resolve_grid(view_grid(g@))[r as int].subrange(0, c as int));
        }
        assert(row@ =~= resolve_grid(view_grid(g@))[r as int]);
        s.push(row);
        r = r + 1;
    }
    assert(view_grid(s@) =~= resolve_grid(view_grid(g@)));
    s
}

impl Nonogram {
    /// Checks the clues, then propagates (rows before columns in each pass). Succeeds
    /// with the grid when propagation decides every cell: it is then the puzzle's only
    /// solution. Fails on a bad clue, on a line without arrangement (the puzzle has
    /// no solution), or with the partial grid where propagation stalls.
    pub fn solve(self) -> (res: Result<SolvedNonogram, SolveFailure>)
        requires
            self.indexable(),
        ensures
            res matches Err(SolveFailure::InvalidClue(e)) ==> !self.valid() && self.first_invalid(e),
            !self.valid() ==> res matches Err(SolveFailure::InvalidClue(_)),
            res matches Ok(s) ==> {
                &&& is_solution(self.row_clues(), self.col_clues(), s@)
                &&& forall|t: Seq<Seq<bool>>| #[trigger]
                    is_solution(self.row_clues(), self.col_clues(), t) ==> t == s@
                &&& is_least_fixpoint(self.row_clues(), self.col_clues(), grid_cells(s@))
            },
            res matches Err(e) ==> (e is Contradiction ==> {
                &&& names_line(self, e)
                &&& no_fixpoint(self.row_clues(), self.col_clues())
                &&& forall|t: Seq<Seq<bool>>| !#[trigger] is_solution(self.row_clues(), self.col_clues(), t)
            }),
            res matches Err(SolveFailure::Underdetermined { cells }) ==> is_least_fixpoint(
                self.row_clues(),
                self.col_clues(),
                view_grid(cells@),
            ) && !fully_known(view_grid(cells@)),
    {
        let ghost rows = self.row_clues();
        let ghost cols = self.col_clues();
        match self.validate() {
            Err(e) => {
                return Err(SolveFailure::InvalidClue(e));
            },
            Ok(()) => {},
        }
        let g = match self.propagate(false) {
            Err(e) => {
                proof {
                    assert forall|t: Seq<Seq<bool>>| !#[trigger] is_solution(rows, cols, t) by {
                        if is_solution(rows, cols, t) {
                            lemma_solution_fixpoint(rows, cols, t);
                        }
                    }
                }
                return Err(e);
            },
            Ok(g) => g,
        };
        if !all_known(&g) {
            return Err(SolveFailure::Underdetermined { cells: g });
        }
        let s = filled_cells(&g);
        let ghost gv = view_grid(g@);
        proof {
            lemma_known_fixpoint(rows, cols, gv);
            assert forall|t: Seq<Seq<bool>>| #[trigger] is_solution(rows, cols, t) implies t == view_grid(
                s@,
            ) by {
                lemma_solution_fixpoint(rows, cols, t);
                let f = grid_cells(t);
                assert(grid_refines(gv, f));
                assert forall|r: int| 0 <= r < gv.len() implies gv[r] == #[trigger] f[r] by {
                    assert(refines(gv[r], f[r]));
                    assert(gv[r] =~= f[r]);
                }
                assert(gv =~= f);
                assert forall|r: int| 0 <= r < t.len() implies t[r] == #[trigger] view_grid(s@)[r] by {
                    lemma_known_line(rows[r], t[r]);
                }
                assert(t =~= view_grid(s@));
            }
        }
        Ok(SolvedNonogram { rows: s })
    }
}

} // verus!
