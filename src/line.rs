use vstd::prelude::*;

verus! {

/// The state of one cell of a working grid.
#[derive(Clone, Copy, Debug, PartialEq, Eq, Structural)]
pub enum Cell {
    Unknown,
    Filled,
    Empty,
}

/// The line solver found no arrangement of the clue that agrees with the known cells.
#[derive(Clone, Copy, Debug, PartialEq, Eq, Structural)]
pub struct Contradiction;

/// The runs a clue asks for. The sentinel `[0]` and the empty list both stand for a
/// line without any filled cell.
pub open spec fn runs(clue: Seq<u8>) -> Seq<u8> {
    if clue.len() == 1 && clue[0] == 0 {
        Seq::empty()
    } else {
        clue
    }
}

/// No cell of `k` in `lo..hi` holds `v`.
pub open spec fn none_with(k: Seq<Cell>, lo: int, hi: int, v: Cell) -> bool {
    forall|x: int| lo <= x < hi ==> k[x] != v
}

/// Runs `r[j..]` can be laid out in cells `i..` of `k`, in order, each run followed by
/// at least one empty cell unless it ends the line, with every cell outside the runs
/// empty; a laid-out cell must not be known to hold the other value.
pub open spec fn fits_from(r: Seq<u8>, k: Seq<Cell>, i: int, j: int) -> bool
    decreases k.len() - i, r.len() - j,
{
    if i < 0 || i > k.len() || j < 0 || j > r.len() {
        false
    } else if j == r.len() {
        none_with(k, i, k.len() as int, Cell::Filled)
    } else {
        let e = i + r[j] as int;
        (i < k.len() && k[i] != Cell::Filled && fits_from(r, k, i + 1, j)) || (e <= k.len()
            && none_with(k, i, e, Cell::Empty) && if e == k.len() {
            fits_from(r, k, e, j + 1)
        } else {
            k[e] != Cell::Filled && fits_from(r, k, e + 1, j + 1)
        })
    }
}

/// The state of a decided cell.
pub open spec fn cell_of(b: bool) -> Cell {
    if b {
        Cell::Filled
    } else {
        Cell::Empty
    }
}

/// A complete line (`true` is filled) as cell states.
pub open spec fn cells(s: Seq<bool>) -> Seq<Cell> {
    Seq::new(s.len(), |x: int| cell_of(s[x]))
}

/// `k2` keeps every known cell of `k` and may know more.
pub open spec fn refines(k: Seq<Cell>, k2: Seq<Cell>) -> bool {
    &&& k.len() == k2.len()
    &&& forall|x: int| 0 <= x < k.len() ==> k[x] == Cell::Unknown || k[x] == k2[x]
}

/// The complete line `s` agrees with every known cell of `k`.
pub open spec fn consistent(s: Seq<bool>, k: Seq<Cell>) -> bool {
    refines(k, cells(s))
}

/// The complete line `s` has exactly the runs of `clue`, in order.
pub open spec fn satisfies(clue: Seq<u8>, s: Seq<bool>) -> bool {
    fits_from(runs(clue), cells(s), 0, 0)
}

/// `s` is an arrangement of `clue` that agrees with the known cells `k`.
pub open spec fn arrangement(clue: Seq<u8>, k: Seq<Cell>, s: Seq<bool>) -> bool {
    consistent(s, k) && satisfies(clue, s)
}

/// Some arrangement of `clue` agrees with `k`.
pub open spec fn feasible(clue: Seq<u8>, k: Seq<Cell>) -> bool {
    exists|s: Seq<bool>| arrangement(clue, k, s)
}

/// Every arrangement of `clue` agreeing with `k` holds `v` at cell `x`.
pub open spec fn forced(clue: Seq<u8>, k: Seq<Cell>, x: int, v: bool) -> bool {
    forall|s: Seq<bool>| #[trigger] arrangement(clue, k, s) ==> s[x] == v
}

/// What the arrangements of `clue` agreeing with `k` have in common: a cell is
/// filled or empty where all of them agree, unknown elsewhere.
pub open spec fn line_closure(clue: Seq<u8>, k: Seq<Cell>) -> Seq<Cell> {
    Seq::new(
        k.len(),
        |x: int|
            if forced(clue, k, x, true) {
                Cell::Filled
            } else if forced(clue, k, x, false) {
                Cell::Empty
            } else {
                Cell::Unknown
            },
    )
}

/// A line of `len` cells, none of them known.
pub open spec fn unknown_line(len: nat) -> Seq<Cell> {
    Seq::new(len, |x: int| Cell::Unknown)
}

/// Known cells resolved to values, unknown cells taken as empty.
pub open spec fn resolve(k: Seq<Cell>) -> Seq<bool> {
    Seq::new(k.len(), |x: int| k[x] == Cell::Filled)
}

/// A complete line that follows the layout `fits_from` found from cell `i` and run `j`;
/// before `i` it is `resolve(k)`.
pub open spec fn witness(r: Seq<u8>, k: Seq<Cell>, i: int, j: int) -> Seq<bool>
    decreases k.len() - i, r.len() - j,
{
    if i < 0 || i > k.len() || j < 0 || j >= r.len() {
        resolve(k)
    } else if i < k.len() && k[i] != Cell::Filled && fits_from(r, k, i + 1, j) {
        witness(r, k, i + 1, j)
    } else {
        let e = i + r[j] as int;
        if e > k.len() {
            resolve(k)
        } else {
            let w = if e == k.len() {
                witness(r, k, e, j + 1)
            } else {
                witness(r, k, e + 1, j + 1)
            };
            Seq::new(k.len(), |x: int| if i <= x < e { true } else { w[x] })
        }
    }
}

/// `fits_from` reads only the cells from `i` on.
proof fn lemma_fits_frame(r: Seq<u8>, k1: Seq<Cell>, k2: Seq<Cell>, i: int, j: int)
    requires
        k1.len() == k2.len(),
        forall|x: int| i <= x < k1.len() ==> k1[x] == k2[x],
    ensures
        fits_from(r, k1, i, j) == fits_from(r, k2, i, j),
    decreases k1.len() - i, r.len() - j,
{
    if 0 <= i <= k1.len() && 0 <= j < r.len() {
        if i < k1.len() {
            lemma_fits_frame(r, k1, k2, i + 1, j);
        }
        let e = i + r[j] as int;
        if e == k1.len() {
            lemma_fits_frame(r, k1, k2, e, j + 1);
        } else if e < k1.len() {
            lemma_fits_frame(r, k1, k2, e + 1, j + 1);
        }
    }
}

/// Knowing more cells never makes a layout possible that was not.
pub proof fn lemma_fits_refine(r: Seq<u8>, k: Seq<Cell>, k2: Seq<Cell>, i: int, j: int)
    requires
        refines(k, k2),
        fits_from(r, k2, i, j),
    ensures
        fits_from(r, k, i, j),
    decreases k.len() - i, r.len() - j,
{
    if j < r.len() {
        let e = i + r[j] as int;
        if i < k2.len() && k2[i] != Cell::Filled && fits_from(r, k2, i + 1, j) {
            lemma_fits_refine(r, k, k2, i + 1, j);
        } else if e == k2.len() {
            lemma_fits_refine(r, k, k2, e, j + 1);
        } else {
            lemma_fits_refine(r, k, k2, e + 1, j + 1);
        }
    }
}

/// The line `witness` builds agrees with `k` and follows the layout found.
proof fn lemma_witness(r: Seq<u8>, k: Seq<Cell>, i: int, j: int)
    requires
        fits_from(r, k, i, j),
    ensures
        witness(r, k, i, j).len() == k.len(),
        consistent(witness(r, k, i, j), k),
        fits_from(r, cells(witness(r, k, i, j)), i, j),
        forall|x: int| 0 <= x < i ==> witness(r, k, i, j)[x] == (k[x] == Cell::Filled),
    decreases k.len() - i, r.len() - j,
{
    let w = witness(r, k, i, j);
    if j == r.len() {
        assert(fits_from(r, cells(w), i, j));
    } else if i < k.len() && k[i] != Cell::Filled && fits_from(r, k, i + 1, j) {
        lemma_witness(r, k, i + 1, j);
    } else {
        let e = i + r[j] as int;
        let next = if e == k.len() {
            e
        } else {
            e + 1
        };
        let w0 = witness(r, k, next, j + 1);
        lemma_witness(r, k, next, j + 1);
        assert(w == Seq::new(k.len(), |x: int| if i <= x < e { true } else { w0[x] }));
        lemma_fits_frame(r, cells(w), cells(w0), next, j + 1);
        assert(none_with(cells(w), i, e, Cell::Empty));
        if e < k.len() {
            assert(cells(w)[e] == cell_of(w0[e]));
        }
    }
}

/// The layout search from the line's start succeeds exactly when the clue has an
/// arrangement agreeing with the known cells.
pub proof fn lemma_fits_iff_feasible(clue: Seq<u8>, k: Seq<Cell>)
    ensures
        fits_from(runs(clue), k, 0, 0) <==> feasible(clue, k),
{
    let r = runs(clue);
    if fits_from(r, k, 0, 0) {
        lemma_witness(r, k, 0, 0);
        assert(arrangement(clue, k, witness(r, k, 0, 0)));
    }
    if feasible(clue, k) {
        let s = choose|s: Seq<bool>| arrangement(clue, k, s);
        lemma_fits_refine(r, k, cells(s), 0, 0);
    }
}


/// Whether runs `r` can be laid out over the whole of `k`: a table of `fits_from`,
/// filled from the line's end towards its start.
fn fits(r: &Vec<u8>, k: &Vec<Cell>) -> (b: bool)
    requires
        k.len() < usize::MAX,
        r.len() < usize::MAX,
    ensures
        b == fits_from(r@, k@, 0, 0),
{
    let len = k.len();
    let n = r.len();
    // done[m] holds the answers for cell len - m
    let mut done: Vec<Vec<bool>> = Vec::new();
    let mut i: usize = len + 1;
    while i > 0
        invariant
            len == k.len(),
            n == r.len(),
            len < usize::MAX,
            n < usize::MAX,
            i <= len + 1,
            done.len() == len + 1 - i,
            forall|m: int| 0 <= m < done.len() ==> (#[trigger] done[m]).len() == n + 1,
            forall|m: int, j: int|
                0 <= m < done.len() && 0 <= j <= n ==> #[trigger] done[m][j] == fits_from(
                    r@,
                    k@,
                    len - m,
                    j,
                ),
        decreases i,
    {
        i = i - 1;
        let mut row: Vec<bool> = Vec::new();
        let mut z: usize = 0;
        while z <= n
            invariant
                n < usize::MAX,
                z <= n + 1,
                row.len() == z,
            decreases n + 1 - z,
        {
            row.push(false);
            z = z + 1;
        }
        let mut j: usize = n + 1;
        while j > 0
            invariant
                len == k.len(),
                n == r.len(),
                len < usize::MAX,
                i <= len,
                j <= n + 1,
                done.len() == len - i,
                row.len() == n + 1,
                forall|m: int| 0 <= m < done.len() ==> (#[trigger] done[m]).len() == n + 1,
                forall|m: int, j2: int|
                    0 <= m < done.len() && 0 <= j2 <= n ==> #[trigger] done[m][j2] == fits_from(
                        r@,
                        k@,
                        len - m,
                        j2,
                    ),
                forall|j2: int| j <= j2 <= n ==> #[trigger] row[j2] == fits_from(r@, k@, i as int, j2),
            decreases j,
        {
            j = j - 1;
            let v = if j == n {
                if i == len {
                    true
                } else {
                    k[i] != Cell::Filled && done[len - i - 1][n]
                }
            } else {
                let skip = i < len && k[i] != Cell::Filled && done[len - i - 1][j];
                let rj = r[j] as usize;
                let place = if rj <= len - i {
                    let e = i + rj;
                    let mut clear = true;
                    let mut x = i;
                    while x < e
                        invariant
                            len == k.len(),
                            i <= x <= e,
                            e <= len,
                            clear == none_with(k@, i as int, x as int, Cell::Empty),
                        decreases e - x,
                    {
                        if k[x] == Cell::Empty {
                            clear = false;
                        }
                        x = x + 1;
                    }
                    clear && if e == len {
                        if e == i {
                            row[j + 1]
                        } else {
                            done[len - e][j + 1]
                        }
                    } else {
                        k[e] != Cell::Filled && done[len - e - 1][j + 1]
                    }
                } else {
                    false
                };
                skip || place
            };
            row.set(j, v);
        }
        done.push(row);
    }
    done[len][0]
}

/// The arrangements of `clue` that agree with `known`, intersected: each cell on
/// which all of them agree is determined, every other cell stays unknown. Known cells
/// are kept. Fails when no arrangement agrees with `known`. Each unknown cell is probed:
/// the layout search runs once with the cell taken as empty and once as filled.
pub fn solve_line(clue: &Vec<u8>, known: &Vec<Cell>) -> (res: Result<Vec<Cell>, Contradiction>)
    requires
        clue.len() < usize::MAX,
        known.len() < usize::MAX,
    ensures
        res is Err <==> !feasible(clue@, known@),
        res matches Ok(out) ==> out@ == line_closure(clue@, known@),
{
    let r: Vec<u8> = if clue.len() == 1 && clue[0] == 0 {
        Vec::new()
    } else {
        clue.clone()
    };
    assert(r@ == runs(clue@));
    proof {
        lemma_fits_iff_feasible(clue@, known@);
    }
    if !fits(&r, known) {
        return Err(Contradiction);
    }
    let ghost w = choose|s: Seq<bool>| arrangement(clue@, known@, s);
    let mut probe = known.clone();
    let mut out: Vec<Cell> = Vec::new();
    let mut x: usize = 0;
    while x < known.len()
        invariant
            known.len() < usize::MAX,
            r.len() < usize::MAX,
            r@ == runs(clue@),
            probe@ == known@,
            out.len() == x,
            x <= known.len(),
            arrangement(clue@, known@, w),
            forall|y: int| 0 <= y < x ==> #[trigger] out[y] == line_closure(clue@, known@)[y],
        decreases known.len() - x,
    {
        let c = known[x];
        let v = if c != Cell::Unknown {
            assert forall|s: Seq<bool>| #[trigger]
                arrangement(clue@, known@, s) implies s[x as int] == (c == Cell::Filled) by {
                assert(cells(s)[x as int] == cell_of(s[x as int]));
            }
            c
        } else {
            probe.set(x, Cell::Empty);
            assert(probe@ == known@.update(x as int, cell_of(false)));
            let can_empty = fits(&r, &probe);
            proof {
                lemma_fits_iff_feasible(clue@, probe@);
                lemma_probe(clue@, known@, x as int, false);
            }
            probe.set(x, Cell::Filled);
            assert(probe@ == known@.update(x as int, cell_of(true)));
            let can_fill = fits(&r, &probe);
            proof {
                lemma_fits_iff_feasible(clue@, probe@);
                lemma_probe(clue@, known@, x as int, true);
            }
            probe.set(x, Cell::Unknown);
            assert(probe@ =~= known@);
            if !can_empty {
                Cell::Filled
            } else if !can_fill {
                Cell::Empty
            } else {
                Cell::Unknown
            }
        };
        out.push(v);
        x = x + 1;
    }
    assert(out@ =~= line_closure(clue@, known@));
    Ok(out)
}

/// Setting an unknown cell to a value keeps exactly the arrangements that hold it.
proof fn lemma_probe(clue: Seq<u8>, k: Seq<Cell>, x: int, v: bool)
    requires
        0 <= x < k.len(),
        k[x] == Cell::Unknown,
    ensures
        feasible(clue, k.update(x, cell_of(v))) <==> !forced(clue, k, x, !v),
{
    let k2 = k.update(x, cell_of(v));
    if feasible(clue, k2) {
        let s = choose|s: Seq<bool>| arrangement(clue, k2, s);
        assert(cells(s)[x] == cell_of(s[x]));
        assert(arrangement(clue, k, s));
    }
    if !forced(clue, k, x, !v) {
        let s = choose|s: Seq<bool>| arrangement(clue, k, s) && s[x] != !v;
        assert(cells(s)[x] == cell_of(s[x]));
        assert(arrangement(clue, k2, s));
    }
}


/// The sentinel clue `[0]` makes every cell of an open line empty, and a single run
/// as long as the line makes every cell filled.
pub proof fn lemma_degenerate_clues(len: nat)
    ensures
        line_closure(seq![0u8], unknown_line(len)) == Seq::new(len, |x: int| Cell::Empty),
        1 <= len <= 255 ==> line_closure(seq![len as u8], unknown_line(len)) == Seq::new(
            len,
            |x: int| Cell::Filled,
        ),
{
    let k = unknown_line(len);
    let zero = seq![0u8];
    let blank = Seq::new(len, |x: int| false);
    assert(runs(zero) == Seq::<u8>::empty());
    assert(arrangement(zero, k, blank));
    assert forall|x: int| 0 <= x < len implies #[trigger] line_closure(zero, k)[x] == Cell::Empty by {
        assert forall|s: Seq<bool>| #[trigger] arrangement(zero, k, s) implies s[x] == false by {
            assert(cells(s)[x] == cell_of(s[x]));
        }
    }
    assert(line_closure(zero, k) =~= Seq::new(len, |x: int| Cell::Empty));
    if 1 <= len <= 255 {
        let full = seq![len as u8];
        let all = Seq::new(len, |x: int| true);
        assert(runs(full) == full);
        assert(fits_from(full, cells(all), len as int, 1));
        assert(arrangement(full, k, all));
        assert forall|x: int| 0 <= x < len implies #[trigger] line_closure(full, k)[x] == Cell::Filled by {
            assert forall|s: Seq<bool>| #[trigger] arrangement(full, k, s) implies s[x] == true by {
                if cells(s)[0] != Cell::Filled && fits_from(full, cells(s), 1, 0) {
                    lemma_fits_refine(full, k, cells(s), 1, 0);
                    crate::puzzle::lemma_fits_blank(full, len, 1, 0);
                }
                assert(cells(s)[x] == cell_of(s[x]));
            }
        }
        assert(line_closure(full, k) =~= Seq::new(len, |x: int| Cell::Filled));
    }
}

} // verus!
