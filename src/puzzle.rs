use vstd::prelude::*;
use crate::grid::view_grid;
use crate::line::{
    arrangement, cells, feasible, fits_from, lemma_fits_iff_feasible, runs, satisfies,
    unknown_line,
};

verus! {

/// A puzzle: one clue per column (left to right) and one per row (top to bottom).
/// Each clue lists the lengths of the line's runs of filled cells in order; `[0]` or an
/// empty list stands for a line with no filled cell.
#[derive(Clone, Debug)]
pub struct Nonogram {
    pub cols: Vec<Vec<u8>>,
    pub rows: Vec<Vec<u8>>,
}

/// Whether a line is a row or a column.
#[derive(Clone, Copy, Debug, PartialEq, Eq, Structural)]
pub enum Axis {
    Row,
    Column,
}

/// What is wrong with a clue.
#[derive(Clone, Copy, Debug, PartialEq, Eq, Structural)]
pub enum ClueFault {
    /// A zero stands beside other entries: only `[0]` alone means an empty line.
    ZeroRun,
    /// The runs and their separating gaps need more cells than the line has.
    TooLong,
}

/// The first clue of a puzzle that cannot be used, rows before columns.
#[derive(Clone, Copy, Debug, PartialEq, Eq, Structural)]
pub struct InvalidClue {
    pub axis: Axis,
    pub index: usize,
    pub fault: ClueFault,
}

/// Cells needed by runs `r[j..]`: their lengths and one gap between each two.
pub open spec fn span_from(r: Seq<u8>, j: int) -> int
    decreases r.len() - j,
{
    if j < 0 || j >= r.len() {
        0
    } else if j == r.len() - 1 {
        r[j] as int
    } else {
        r[j] + 1 + span_from(r, j + 1)
    }
}

/// The fewest cells a line needs to hold the runs of `clue`.
pub open spec fn span(clue: Seq<u8>) -> int {
    span_from(runs(clue), 0)
}

/// Why `clue` cannot stand on a line of `len` cells, if it cannot.
pub open spec fn clue_fault(clue: Seq<u8>, len: int) -> Option<ClueFault> {
    if clue.len() > 1 && exists|i: int| 0 <= i < clue.len() && clue[i] == 0 {
        Some(ClueFault::ZeroRun)
    } else if span(clue) > len {
        Some(ClueFault::TooLong)
    } else {
        None
    }
}

proof fn lemma_span_grows(r: Seq<u8>, j: int)
    requires
        0 <= j < r.len(),
    ensures
        span_from(r, 0) >= span_from(r, j),
    decreases j,
{
    if j > 0 {
        lemma_span_grows(r, j - 1);
    }
}

proof fn lemma_span_positive(r: Seq<u8>, j: int)
    requires
        0 <= j < r.len(),
        forall|x: int| 0 <= x < r.len() ==> r[x] > 0,
    ensures
        span_from(r, j) >= r[j] > 0,
    decreases r.len() - j,
{
    if j < r.len() - 1 {
        lemma_span_positive(r, j + 1);
    }
}

/// On a line of unknown cells, runs `r[j..]` fit from cell `i` exactly when their
/// span does.
pub proof fn lemma_fits_blank(r: Seq<u8>, len: nat, i: int, j: int)
    requires
        forall|x: int| 0 <= x < r.len() ==> r[x] > 0,
        0 <= i <= len,
        0 <= j <= r.len(),
    ensures
        fits_from(r, unknown_line(len), i, j) <==> span_from(r, j) <= len - i,
    decreases len - i, r.len() - j,
{
    if j < r.len() {
        let e = i + r[j] as int;
        if i < len {
            lemma_fits_blank(r, len, i + 1, j);
        }
        if e == len {
            lemma_fits_blank(r, len, e, j + 1);
        } else if e < len {
            lemma_fits_blank(r, len, e + 1, j + 1);
        }
        if j + 1 < r.len() {
            lemma_span_positive(r, j + 1);
        }
    }
}

/// A clue with no zero beside other entries has an arrangement on a line of `len`
/// cells exactly when its runs, with one gap between each two, take at most `len`
/// cells.
pub proof fn lemma_arrangement_iff_span(clue: Seq<u8>, len: nat)
    requires
        !(clue.len() > 1 && exists|i: int| 0 <= i < clue.len() && clue[i] == 0),
    ensures
        (exists|s: Seq<bool>| s.len() == len && satisfies(clue, s)) <==> span(clue) <= len,
{
    let k = unknown_line(len);
    let r = runs(clue);
    assert forall|x: int| 0 <= x < r.len() implies r[x] > 0 by {
        if clue.len() > 1 {
            assert(clue[x] != 0);
        }
    }
    lemma_fits_blank(r, len, 0, 0);
    lemma_fits_iff_feasible(clue, k);
    if exists|s: Seq<bool>| s.len() == len && satisfies(clue, s) {
        let s = choose|s: Seq<bool>| s.len() == len && satisfies(clue, s);
        assert(arrangement(clue, k, s));
    }
    if feasible(clue, k) {
        let s = choose|s: Seq<bool>| arrangement(clue, k, s);
        assert(cells(s).len() == s.len());
    }
}

/// Checks one clue against the length of its line.
pub fn check_clue(clue: &Vec<u8>, len: usize) -> (res: Option<ClueFault>)
    ensures
        res == clue_fault(clue@, len as int),
{
    let n = clue.len();
    if n > 1 {
        let mut i: usize = 0;
        while i < n
            invariant
                n == clue.len(),
                n > 1,
                i <= n,
                forall|x: int| 0 <= x < i ==> clue[x] != 0,
            decreases n - i,
        {
            if clue[i] == 0 {
                assert(clue@[i as int] == 0);
                return Some(ClueFault::ZeroRun);
            }
            i = i + 1;
        }
    }
    if n == 0 || (n == 1 && clue[0] == 0) {
        return None;
    }
    assert(runs(clue@) == clue@);
    assert(!exists|i: int| 0 <= i < clue.len() && clue@[i] == 0);
    let mut j: usize = n - 1;
    let mut total: usize = clue[j] as usize;
    if total > len {
        proof {
            lemma_span_grows(clue@, j as int);
        }
        return Some(ClueFault::TooLong);
    }
    while j > 0
        invariant
            n == clue.len(),
            runs(clue@) == clue@,
            !exists|i: int| 0 <= i < clue.len() && clue@[i] == 0,
            j < n,
            total <= len,
            total == span_from(clue@, j as int),
        decreases j,
    {
        j = j - 1;
        let step = clue[j] as usize + 1;
        assert(span_from(clue@, j as int) == clue@[j as int] + 1 + span_from(clue@, j + 1));
        if step > len - total {
            proof {
                lemma_span_grows(clue@, j as int);
            }
            return Some(ClueFault::TooLong);
        }
        total = total + step;
    }
    None
}

impl Nonogram {
    pub open spec fn row_clues(&self) -> Seq<Seq<u8>> {
        view_grid(self.rows@)
    }

    pub open spec fn col_clues(&self) -> Seq<Seq<u8>> {
        view_grid(self.cols@)
    }

    /// Every row clue fits the width and every column clue the height.
    pub open spec fn valid(&self) -> bool {
        &&& forall|r: int| 0 <= r < self.rows.len() ==> clue_fault(
            #[trigger] self.row_clues()[r],
            self.cols.len() as int,
        ) is None
        &&& forall|c: int| 0 <= c < self.cols.len() ==> clue_fault(
            #[trigger] self.col_clues()[c],
            self.rows.len() as int,
        ) is None
    }

    /// `e` names the first clue, rows before columns, that cannot stand, and why.
    pub open spec fn first_invalid(&self, e: InvalidClue) -> bool {
        match e.axis {
            Axis::Row => {
                &&& e.index < self.rows.len()
                &&& clue_fault(self.row_clues()[e.index as int], self.cols.len() as int)
                    == Some(e.fault)
                &&& forall|r: int| 0 <= r < e.index ==> clue_fault(
                    #[trigger] self.row_clues()[r],
                    self.cols.len() as int,
                ) is None
            },
            Axis::Column => {
                &&& e.index < self.cols.len()
                &&& clue_fault(self.col_clues()[e.index as int], self.rows.len() as int)
                    == Some(e.fault)
                &&& forall|r: int| 0 <= r < self.rows.len() ==> clue_fault(
                    #[trigger] self.row_clues()[r],
                    self.cols.len() as int,
                ) is None
                &&& forall|c: int| 0 <= c < e.index ==> clue_fault(
                    #[trigger] self.col_clues()[c],
                    self.rows.len() as int,
                ) is None
            },
        }
    }

    /// Every clue is short enough for the executable line solver to index.
    pub open spec fn indexable(&self) -> bool {
        &&& self.rows.len() < usize::MAX
        &&& self.cols.len() < usize::MAX
        &&& forall|r: int| 0 <= r < self.rows.len() ==> (#[trigger] self.rows[r]).len() < usize::MAX
        &&& forall|c: int| 0 <= c < self.cols.len() ==> (#[trigger] self.cols[c]).len() < usize::MAX
    }
}

impl Nonogram {
    /// Builds a puzzle from its clues, refusing it when a clue cannot stand on its line.
    pub fn new(cols: Vec<Vec<u8>>, rows: Vec<Vec<u8>>) -> (res: Result<Nonogram, InvalidClue>)
        ensures
            res matches Ok(p) ==> p == (Nonogram { cols, rows }) && p.valid(),
            res matches Err(e) ==> !(Nonogram { cols, rows }).valid() && (Nonogram {
                cols,
                rows,
            }).first_invalid(e),
            (Nonogram { cols, rows }).valid() ==> res is Ok,
    {
        let p = Nonogram { cols, rows };
        match p.validate() {
            Ok(()) => Ok(p),
            Err(e) => Err(e),
        }
    }

    /// Checks every clue before any solving: the rows against the width, then the
    /// columns against the height. Reports the first clue that fails.
    pub fn validate(&self) -> (res: Result<(), InvalidClue>)
        ensures
            res is Ok <==> self.valid(),
            res matches Err(e) ==> self.first_invalid(e),
    {
        let h = self.rows.len();
        let w = self.cols.len();
        let mut r: usize = 0;
        while r < h
            invariant
                h == self.rows.len(),
                w == self.cols.len(),
                r <= h,
                forall|q: int| 0 <= q < r ==> clue_fault(
                    #[trigger] self.row_clues()[q],
                    w as int,
                ) is None,
            decreases h - r,
        {
            match check_clue(&self.rows[r], w) {
                Some(fault) => {
                    assert(self.row_clues()[r as int] == self.rows[r as int]@);
                    assert(clue_fault(self.row_clues()[r as int], w as int) is Some);
                    return Err(InvalidClue { axis: Axis::Row, index: r, fault });
                },
                None => {},
            }
            r = r + 1;
        }
        let mut c: usize = 0;
        while c < w
            invariant
                h == self.rows.len(),
                w == self.cols.len(),
                c <= w,
                forall|q: int| 0 <= q < h ==> clue_fault(
                    #[trigger] self.row_clues()[q],
                    w as int,
                ) is None,
                forall|q: int| 0 <= q < c ==> clue_fault(
                    #[trigger] self.col_clues()[q],
                    h as int,
                ) is None,
            decreases w - c,
        {
            match check_clue(&self.cols[c], h) {
                Some(fault) => {
                    assert(self.col_clues()[c as int] == self.cols[c as int]@);
                    assert(clue_fault(self.col_clues()[c as int], h as int) is Some);
                    return Err(InvalidClue { axis: Axis::Column, index: c, fault });
                },
                None => {},
            }
            c = c + 1;
        }
        Ok(())
    }
}

} // verus!
