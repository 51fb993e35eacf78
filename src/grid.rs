use vstd::prelude::*;
use crate::line::{
    arrangement, cell_of, cells, consistent, feasible, forced, line_closure, refines, resolve,
    satisfies, Cell,
};

verus! {

/// A grid of `h` rows of `w` cells each.
pub open spec fn shaped<T>(g: Seq<Seq<T>>, h: int, w: int) -> bool {
    &&& g.len() == h
    &&& forall|r: int| 0 <= r < h ==> (#[trigger] g[r]).len() == w
}

/// The rows of a grid of vectors, as sequences.
pub open spec fn view_grid<T>(g: Seq<Vec<T>>) -> Seq<Seq<T>> {
    Seq::new(g.len(), |r: int| g[r]@)
}

/// Column `c` of a grid, top to bottom.
pub open spec fn column<T>(g: Seq<Seq<T>>, c: int) -> Seq<T> {
    Seq::new(g.len(), |r: int| g[r][c])
}

/// The grid with column `c` replaced by `v`.
pub open spec fn with_column<T>(g: Seq<Seq<T>>, c: int, v: Seq<T>) -> Seq<Seq<T>> {
    Seq::new(g.len(), |r: int| g[r].update(c, v[r]))
}

/// `s` fills every row and every column of a grid as its clue asks.
pub open spec fn is_solution(rows: Seq<Seq<u8>>, cols: Seq<Seq<u8>>, s: Seq<Seq<bool>>) -> bool {
    &&& shaped(s, rows.len() as int, cols.len() as int)
    &&& forall|r: int| 0 <= r < rows.len() ==> satisfies(rows[r], #[trigger] s[r])
    &&& forall|c: int| 0 <= c < cols.len() ==> satisfies(cols[c], #[trigger] column(s, c))
}

/// `g2` keeps every known cell of `g` and may know more.
pub open spec fn grid_refines(g: Seq<Seq<Cell>>, g2: Seq<Seq<Cell>>) -> bool {
    &&& g.len() == g2.len()
    &&& forall|r: int| 0 <= r < g.len() ==> refines(#[trigger] g[r], g2[r])
}

/// A line is closed when it has an arrangement and the line solver learns nothing
/// more from it.
pub open spec fn closed(clue: Seq<u8>, k: Seq<Cell>) -> bool {
    feasible(clue, k) && line_closure(clue, k) == k
}

/// A grid of the puzzle's shape on which no row and no column can be advanced.
pub open spec fn is_fixpoint(rows: Seq<Seq<u8>>, cols: Seq<Seq<u8>>, g: Seq<Seq<Cell>>) -> bool {
    &&& shaped(g, rows.len() as int, cols.len() as int)
    &&& forall|r: int| 0 <= r < rows.len() ==> closed(rows[r], #[trigger] g[r])
    &&& forall|c: int| 0 <= c < cols.len() ==> closed(cols[c], #[trigger] column(g, c))
}

/// The fixpoint that knows least: every fixpoint of the puzzle refines it.
pub open spec fn is_least_fixpoint(
    rows: Seq<Seq<u8>>,
    cols: Seq<Seq<u8>>,
    g: Seq<Seq<Cell>>,
) -> bool {
    &&& is_fixpoint(rows, cols, g)
    &&& forall|f: Seq<Seq<Cell>>| #[trigger] is_fixpoint(rows, cols, f) ==> grid_refines(g, f)
}

/// Every fixpoint of the puzzle refines `g`.
pub open spec fn below_all_fixpoints(
    rows: Seq<Seq<u8>>,
    cols: Seq<Seq<u8>>,
    g: Seq<Seq<Cell>>,
) -> bool {
    forall|f: Seq<Seq<Cell>>| #[trigger] is_fixpoint(rows, cols, f) ==> grid_refines(g, f)
}

/// A complete grid as cell states.
pub open spec fn grid_cells(s: Seq<Seq<bool>>) -> Seq<Seq<Cell>> {
    Seq::new(s.len(), |r: int| cells(s[r]))
}

/// Each row resolved: known filled cells are `true`, all others `false`.
pub open spec fn resolve_grid(g: Seq<Seq<Cell>>) -> Seq<Seq<bool>> {
    Seq::new(g.len(), |r: int| resolve(g[r]))
}

/// How many cells of the line are unknown.
pub open spec fn unknowns(k: Seq<Cell>) -> nat
    decreases k.len(),
{
    if k.len() == 0 {
        0
    } else {
        unknowns(k.drop_last()) + if k.last() == Cell::Unknown {
            1nat
        } else {
            0nat
        }
    }
}

/// How many cells of the grid are unknown.
pub open spec fn grid_unknowns(g: Seq<Seq<Cell>>) -> nat
    decreases g.len(),
{
    if g.len() == 0 {
        0
    } else {
        grid_unknowns(g.drop_last()) + unknowns(g.last())
    }
}

/// No cell of the grid is unknown.
pub open spec fn fully_known(g: Seq<Seq<Cell>>) -> bool {
    forall|r: int, c: int| 0 <= r < g.len() && 0 <= c < g[r].len() ==> g[r][c] != Cell::Unknown
}

/// Every cell the line solver determines holds in every arrangement it started from.
pub proof fn lemma_closure_sound(clue: Seq<u8>, k: Seq<Cell>, s: Seq<bool>)
    requires
        arrangement(clue, k, s),
    ensures
        consistent(s, line_closure(clue, k)),
{
    let out = line_closure(clue, k);
    assert forall|x: int| 0 <= x < out.len() implies out[x] == Cell::Unknown || out[x] == cells(
        s,
    )[x] by {
        if forced(clue, k, x, true) {
        } else if forced(clue, k, x, false) {
        }
    }
}

/// The line solver keeps what was known.
pub proof fn lemma_closure_refines(clue: Seq<u8>, k: Seq<Cell>)
    requires
        feasible(clue, k),
    ensures
        refines(k, line_closure(clue, k)),
{
    let s = choose|s: Seq<bool>| arrangement(clue, k, s);
    assert forall|x: int| 0 <= x < k.len() && k[x] != Cell::Unknown implies k[x] == line_closure(
        clue,
        k,
    )[x] by {
        assert forall|t: Seq<bool>| #[trigger] arrangement(clue, k, t) implies t[x] == (k[x]
            == Cell::Filled) by {
            assert(cells(t)[x] == cell_of(t[x]));
        }
        assert(cells(s)[x] == cell_of(s[x]));
    }
}

/// The line solver is monotone: more known cells in give at least as many out.
pub proof fn lemma_closure_monotone(clue: Seq<u8>, k: Seq<Cell>, k2: Seq<Cell>)
    requires
        refines(k, k2),
        feasible(clue, k2),
    ensures
        refines(line_closure(clue, k), line_closure(clue, k2)),
{
    let s = choose|s: Seq<bool>| arrangement(clue, k2, s);
    assert forall|t: Seq<bool>| #[trigger] arrangement(clue, k2, t) implies arrangement(
        clue,
        k,
        t,
    ) by {
        assert forall|x: int| 0 <= x < k.len() implies k[x] == Cell::Unknown || k[x] == cells(t)[x] by {
            assert(k[x] == Cell::Unknown || k[x] == k2[x]);
        }
    }
    assert(arrangement(clue, k, s));
}

/// Refining a line that has an arrangement keeps the arrangements of the finer line.
pub proof fn lemma_feasible_coarser(clue: Seq<u8>, k: Seq<Cell>, k2: Seq<Cell>)
    requires
        refines(k, k2),
        feasible(clue, k2),
    ensures
        feasible(clue, k),
{
    let s = choose|s: Seq<bool>| arrangement(clue, k2, s);
    assert forall|x: int| 0 <= x < k.len() implies k[x] == Cell::Unknown || k[x] == cells(s)[x] by {
        assert(k[x] == Cell::Unknown || k[x] == k2[x]);
    }
    assert(arrangement(clue, k, s));
}

/// A line known in full is closed exactly when it satisfies its clue.
pub proof fn lemma_known_line(clue: Seq<u8>, s: Seq<bool>)
    ensures
        closed(clue, cells(s)) <==> satisfies(clue, s),
        resolve(cells(s)) == s,
{
    let k = cells(s);
    assert forall|t: Seq<bool>| consistent(t, k) implies t == s by {
        assert forall|x: int| 0 <= x < s.len() implies t[x] == s[x] by {
            assert(cells(t)[x] == cell_of(t[x]));
        }
        assert(t =~= s);
    }
    assert(resolve(k) =~= s);
    if satisfies(clue, s) {
        assert(refines(k, cells(s)));
        assert(arrangement(clue, k, s));
        assert(line_closure(clue, k) =~= k);
    }
}

/// Knowing more cells never adds unknowns; learning a cell removes one.
pub proof fn lemma_unknowns_refine(k: Seq<Cell>, k2: Seq<Cell>)
    requires
        refines(k, k2),
    ensures
        unknowns(k2) <= unknowns(k),
        (exists|x: int| 0 <= x < k.len() && k[x] == Cell::Unknown && k2[x] != Cell::Unknown)
            ==> unknowns(k2) < unknowns(k),
    decreases k.len(),
{
    if k.len() > 0 {
        let a = k.drop_last();
        let b = k2.drop_last();
        assert(refines(a, b)) by {
            assert forall|x: int| 0 <= x < a.len() implies a[x] == Cell::Unknown || a[x] == b[x] by {
                assert(k[x] == Cell::Unknown || k[x] == k2[x]);
            }
        }
        lemma_unknowns_refine(a, b);
        if exists|x: int| 0 <= x < k.len() && k[x] == Cell::Unknown && k2[x] != Cell::Unknown {
            let x = choose|x: int|
                0 <= x < k.len() && k[x] == Cell::Unknown && k2[x] != Cell::Unknown;
            if x < k.len() - 1 {
                assert(a[x] == Cell::Unknown && b[x] != Cell::Unknown);
            }
        }
        assert(k.last() == Cell::Unknown || k.last() == k2.last());
    }
}

/// The grid-wide count of unknowns behaves as the line count does.
pub proof fn lemma_grid_unknowns_refine(g: Seq<Seq<Cell>>, g2: Seq<Seq<Cell>>)
    requires
        grid_refines(g, g2),
    ensures
        grid_unknowns(g2) <= grid_unknowns(g),
        (exists|r: int, c: int|
            0 <= r < g.len() && 0 <= c < g[r].len() && g[r][c] == Cell::Unknown && g2[r][c]
                != Cell::Unknown) ==> grid_unknowns(g2) < grid_unknowns(g),
    decreases g.len(),
{
    if g.len() > 0 {
        let a = g.drop_last();
        let b = g2.drop_last();
        assert(grid_refines(a, b)) by {
            assert forall|r: int| 0 <= r < a.len() implies refines(#[trigger] a[r], b[r]) by {
                assert(refines(g[r], g2[r]));
            }
        }
        lemma_grid_unknowns_refine(a, b);
        let n = g.len() - 1;
        assert(refines(g[n], g2[n]));
        lemma_unknowns_refine(g.last(), g2.last());
        if exists|r: int, c: int|
            0 <= r < g.len() && 0 <= c < g[r].len() && g[r][c] == Cell::Unknown && g2[r][c]
                != Cell::Unknown {
            let (r, c) = choose|r: int, c: int|
                0 <= r < g.len() && 0 <= c < g[r].len() && g[r][c] == Cell::Unknown && g2[r][c]
                    != Cell::Unknown;
            if r < n {
                assert(a[r][c] == Cell::Unknown && b[r][c] != Cell::Unknown);
            } else {
                assert(g.last()[c] == Cell::Unknown && g2.last()[c] != Cell::Unknown);
            }
        }
    }
}


/// A solution, as cells, is a fixpoint.
pub proof fn lemma_solution_fixpoint(rows: Seq<Seq<u8>>, cols: Seq<Seq<u8>>, t: Seq<Seq<bool>>)
    requires
        is_solution(rows, cols, t),
    ensures
        is_fixpoint(rows, cols, grid_cells(t)),
{
    let g = grid_cells(t);
    assert forall|r: int| 0 <= r < rows.len() implies closed(rows[r], #[trigger] g[r]) by {
        lemma_known_line(rows[r], t[r]);
    }
    assert forall|c: int| 0 <= c < cols.len() implies closed(cols[c], #[trigger] column(g, c)) by {
        assert(column(g, c) =~= cells(column(t, c)));
        lemma_known_line(cols[c], column(t, c));
    }
}

/// A fixpoint known in full is a solution, and is that solution's cells.
pub proof fn lemma_known_fixpoint(rows: Seq<Seq<u8>>, cols: Seq<Seq<u8>>, g: Seq<Seq<Cell>>)
    requires
        is_fixpoint(rows, cols, g),
        fully_known(g),
    ensures
        is_solution(rows, cols, resolve_grid(g)),
        grid_cells(resolve_grid(g)) == g,
{
    let s = resolve_grid(g);
    assert forall|r: int| 0 <= r < g.len() implies cells(#[trigger] s[r]) == g[r] by {
        assert(cells(s[r]) =~= g[r]);
    }
    assert forall|r: int| 0 <= r < rows.len() implies satisfies(rows[r], #[trigger] s[r]) by {
        assert(cells(s[r]) == g[r]);
        lemma_known_line(rows[r], s[r]);
    }
    assert forall|c: int| 0 <= c < cols.len() implies satisfies(cols[c], #[trigger] column(s, c)) by {
        assert(cells(column(s, c)) =~= column(g, c));
        assert(closed(cols[c], column(g, c)));
        lemma_known_line(cols[c], column(s, c));
    }
    assert(grid_cells(s) =~= g);
}

/// Propagation is confluent: two least fixpoints of one puzzle are the same grid, so
/// every order of sweeps that ends on one ends on the same grid.
pub proof fn lemma_least_fixpoint_unique(
    rows: Seq<Seq<u8>>,
    cols: Seq<Seq<u8>>,
    a: Seq<Seq<Cell>>,
    b: Seq<Seq<Cell>>,
)
    requires
        is_least_fixpoint(rows, cols, a),
        is_least_fixpoint(rows, cols, b),
    ensures
        a == b,
{
    assert(grid_refines(a, b));
    assert(grid_refines(b, a));
    assert forall|r: int| 0 <= r < a.len() implies a[r] == b[r] by {
        assert(refines(a[r], b[r]));
        assert(refines(b[r], a[r]));
        assert(a[r] =~= b[r]);
    }
    assert(a =~= b);
}


/// Propagation never rules out a solution: every solution refines the least fixpoint,
/// and a least fixpoint that decides every cell is that solution.
pub proof fn lemma_solution_refines_fixpoint(
    rows: Seq<Seq<u8>>,
    cols: Seq<Seq<u8>>,
    g: Seq<Seq<Cell>>,
    t: Seq<Seq<bool>>,
)
    requires
        is_least_fixpoint(rows, cols, g),
        is_solution(rows, cols, t),
    ensures
        grid_refines(g, grid_cells(t)),
        fully_known(g) ==> resolve_grid(g) == t,
{
    lemma_solution_fixpoint(rows, cols, t);
    let f = grid_cells(t);
    if fully_known(g) {
        assert forall|r: int| 0 <= r < g.len() implies #[trigger] resolve_grid(g)[r] == t[r] by {
            assert(refines(g[r], f[r]));
            assert(g[r] =~= f[r]);
            lemma_known_line(rows[r], t[r]);
        }
        assert(resolve_grid(g) =~= t);
    }
}


/// The grid's `w` columns as rows.
pub open spec fn transpose<T>(g: Seq<Seq<T>>, w: int) -> Seq<Seq<T>> {
    Seq::new(w as nat, |c: int| column(g, c))
}

proof fn lemma_transpose_shape<T>(g: Seq<Seq<T>>, h: int, w: int)
    requires
        0 <= w,
        shaped(g, h, w),
    ensures
        shaped(transpose(g, w), w, h),
        transpose(transpose(g, w), h) == g,
        forall|r: int| 0 <= r < h ==> #[trigger] column(transpose(g, w), r) == g[r],
{
    let t = transpose(g, w);
    assert forall|r: int| 0 <= r < h implies #[trigger] column(t, r) == g[r] by {
        assert(column(t, r) =~= g[r]);
    }
    assert forall|r: int| 0 <= r < h implies #[trigger] transpose(t, h)[r] == g[r] by {
        assert(column(t, r) == g[r]);
    }
    assert(transpose(t, h) =~= g);
}

proof fn lemma_transpose_fixpoint(rows: Seq<Seq<u8>>, cols: Seq<Seq<u8>>, g: Seq<Seq<Cell>>)
    requires
        is_fixpoint(rows, cols, g),
    ensures
        is_fixpoint(cols, rows, transpose(g, cols.len() as int)),
{
    let t = transpose(g, cols.len() as int);
    lemma_transpose_shape(g, rows.len() as int, cols.len() as int);
    assert forall|r: int| 0 <= r < rows.len() implies closed(rows[r], #[trigger] column(t, r)) by {
        assert(column(t, r) == g[r]);
    }
    assert forall|c: int| 0 <= c < cols.len() implies closed(cols[c], #[trigger] t[c]) by {
        assert(t[c] == column(g, c));
    }
}

proof fn lemma_transpose_refines(g: Seq<Seq<Cell>>, f: Seq<Seq<Cell>>, h: int, w: int)
    requires
        0 <= w,
        shaped(g, h, w),
        shaped(f, h, w),
        grid_refines(g, f),
    ensures
        grid_refines(transpose(g, w), transpose(f, w)),
{
    assert forall|c: int| 0 <= c < w implies refines(
        #[trigger] transpose(g, w)[c],
        transpose(f, w)[c],
    ) by {
        assert forall|r: int| 0 <= r < h implies column(g, c)[r] == Cell::Unknown || column(g, c)[r]
            == column(f, c)[r] by {
            assert(refines(g[r], f[r]));
        }
    }
}

/// Sweeping columns before rows is sweeping the rows of the transposed puzzle first:
/// the least fixpoint of the puzzle with rows and columns exchanged is the transpose
/// of the puzzle's least fixpoint, and one puzzle has a fixpoint exactly when the other
/// has.
pub proof fn lemma_transposed_puzzle(rows: Seq<Seq<u8>>, cols: Seq<Seq<u8>>, g: Seq<Seq<Cell>>)
    ensures
        is_least_fixpoint(rows, cols, g) ==> is_least_fixpoint(
            cols,
            rows,
            transpose(g, cols.len() as int),
        ),
        (exists|f: Seq<Seq<Cell>>| #[trigger] is_fixpoint(rows, cols, f)) <==> (exists|
            f: Seq<Seq<Cell>>,
        | #[trigger] is_fixpoint(cols, rows, f)),
{
    let h = rows.len() as int;
    let w = cols.len() as int;
    if exists|f: Seq<Seq<Cell>>| #[trigger] is_fixpoint(rows, cols, f) {
        let f = choose|f: Seq<Seq<Cell>>| #[trigger] is_fixpoint(rows, cols, f);
        lemma_transpose_fixpoint(rows, cols, f);
    }
    if exists|f: Seq<Seq<Cell>>| #[trigger] is_fixpoint(cols, rows, f) {
        let f = choose|f: Seq<Seq<Cell>>| #[trigger] is_fixpoint(cols, rows, f);
        lemma_transpose_fixpoint(cols, rows, f);
    }
    if is_least_fixpoint(rows, cols, g) {
        let t = transpose(g, w);
        lemma_transpose_fixpoint(rows, cols, g);
        lemma_transpose_shape(g, h, w);
        assert forall|f: Seq<Seq<Cell>>| #[trigger] is_fixpoint(cols, rows, f) implies grid_refines(
            t,
            f,
        ) by {
            lemma_transpose_fixpoint(cols, rows, f);
            let back = transpose(f, h);
            assert(grid_refines(g, back));
            lemma_transpose_shape(f, w, h);
            lemma_transpose_refines(g, back, h, w);
        }
    }
}

} // verus!
