use vstd::prelude::*;
use crate::grid::view_grid;
use vstd::std_specs::iter::IteratorSpec;

verus! {

broadcast use vstd::string::group_string_axioms;

/// A grid with every cell decided, row by row; `true` is a filled cell.
#[derive(Clone, Debug, PartialEq, Eq)]
pub struct SolvedNonogram {
    pub rows: Vec<Vec<bool>>,
}

impl View for SolvedNonogram {
    type V = Seq<Seq<bool>>;

    open spec fn view(&self) -> Seq<Seq<bool>> {
        view_grid(self.rows@)
    }
}

/// Why a text is not a solved grid.
#[derive(Clone, Debug, PartialEq, Eq)]
pub enum GridTextError {
    /// Not every row has the same number of tokens.
    MismatchedColumns,
    /// A token is neither `0` nor `1`; this is the token.
    InvalidToken(String),
}

/// Unicode white space, the characters trimmed from the text and from each row: tab,
/// newline, vertical tab, form feed, carriage return, space, next line, no-break space,
/// ogham space mark, the spaces from en quad to hair space, line and paragraph
/// separators, narrow no-break space, medium mathematical space, ideographic space.
pub open spec fn is_space(c: char) -> bool {
    c == ' ' || c == '\t' || c == '\n' || c == '\u{0B}' || c == '\u{0C}' || c == '\r'
        || c == '\u{85}' || c == '\u{A0}' || c == '\u{1680}' || ('\u{2000}' <= c && c <= '\u{200A}')
        || c == '\u{2028}' || c == '\u{2029}' || c == '\u{202F}' || c == '\u{205F}'
        || c == '\u{3000}'
}

/// `s` without its leading white space.
pub open spec fn trim_start(s: Seq<char>) -> Seq<char>
    decreases s.len(),
{
    if s.len() > 0 && is_space(s[0]) {
        trim_start(s.drop_first())
    } else {
        s
    }
}

/// `s` without its trailing white space.
pub open spec fn trim_end(s: Seq<char>) -> Seq<char>
    decreases s.len(),
{
    if s.len() > 0 && is_space(s.last()) {
        trim_end(s.drop_last())
    } else {
        s
    }
}

/// `s` without the white space at either end.
pub open spec fn trim(s: Seq<char>) -> Seq<char> {
    trim_end(trim_start(s))
}

/// The pieces of `s` between occurrences of `sep`; there is one more piece than
/// there are separators.
pub open spec fn split(s: Seq<char>, sep: char) -> Seq<Seq<char>>
    decreases s.len(),
{
    if s.len() == 0 {
        seq![Seq::empty()]
    } else if s.last() == sep {
        split(s.drop_last(), sep).push(Seq::empty())
    } else {
        let p = split(s.drop_last(), sep);
        p.update(p.len() - 1, p.last().push(s.last()))
    }
}

/// The pieces written one after the other with `sep` between each two.
pub open spec fn join(p: Seq<Seq<char>>, sep: char) -> Seq<char>
    decreases p.len(),
{
    if p.len() == 0 {
        Seq::empty()
    } else if p.len() == 1 {
        p[0]
    } else {
        join(p.drop_last(), sep) + seq![sep] + p.last()
    }
}

/// The tokens of a text, row by row: the trimmed text cut at newlines, each line
/// trimmed and cut at single spaces.
pub open spec fn tokens(s: Seq<char>) -> Seq<Seq<Seq<char>>> {
    let lines = split(trim(s), '\n');
    Seq::new(lines.len(), |r: int| split(trim(lines[r]), ' '))
}

/// The token of one cell.
pub open spec fn token_of(b: bool) -> Seq<char> {
    if b {
        seq!['1']
    } else {
        seq!['0']
    }
}

/// `t` is `0` or `1`.
pub open spec fn is_cell_token(t: Seq<char>) -> bool {
    t == seq!['0'] || t == seq!['1']
}

/// Some row has a token count other than the first row's.
pub open spec fn ragged(t: Seq<Seq<Seq<char>>>) -> bool {
    exists|r: int| 0 <= r < t.len() && (#[trigger] t[r]).len() != t[0].len()
}

/// Some token is neither `0` nor `1`.
pub open spec fn has_bad_token(t: Seq<Seq<Seq<char>>>) -> bool {
    exists|r: int, c: int| 0 <= r < t.len() && 0 <= c < t[r].len() && !is_cell_token(#[trigger] t[r][c])
}

/// `tok` is the first token of the text, in row-major order, that is neither `0` nor
/// `1`.
pub open spec fn first_bad_token(t: Seq<Seq<Seq<char>>>, tok: Seq<char>) -> bool {
    &&& !is_cell_token(tok)
    &&& exists|r: int, c: int|
        {
            &&& 0 <= r < t.len()
            &&& 0 <= c < t[r].len()
            &&& #[trigger] t[r][c] == tok
            &&& forall|q: int, x: int|
                0 <= q < r && 0 <= x < t[q].len() ==> is_cell_token(#[trigger] t[q][x])
            &&& forall|x: int| 0 <= x < c ==> is_cell_token(#[trigger] t[r][x])
        }
}

/// The grid that well-formed tokens stand for: `1` is a filled cell.
pub open spec fn grid_of(t: Seq<Seq<Seq<char>>>) -> Seq<Seq<bool>> {
    Seq::new(t.len(), |r: int| Seq::new(t[r].len(), |c: int| t[r][c] == seq!['1']))
}

/// One row of the canonical text: its cells as `1` or `0`, joined by one space.
pub open spec fn row_text(row: Seq<bool>) -> Seq<char> {
    join(Seq::new(row.len(), |c: int| token_of(row[c])), ' ')
}

/// The canonical text of a grid: its rows joined by a newline, with nothing before
/// or after.
pub open spec fn render(g: Seq<Seq<bool>>) -> Seq<char> {
    join(Seq::new(g.len(), |r: int| row_text(g[r])), '\n')
}


/// The chars of `value`, in order.
fn chars_of(value: &str) -> (v: Vec<char>)
    ensures
        v@ == value@,
{
    let mut it = value.chars();
    let mut v: Vec<char> = Vec::new();
    loop
        invariant
            it.remaining() == value@.skip(v.len() as int),
            v@ == value@.take(v.len() as int),
            v.len() <= value@.len(),
        decreases value@.len() - v.len(),
    {
        match it.next() {
            Some(c) => {
                v.push(c);
                assert(v@ =~= value@.take(v.len() as int));
            },
            None => {
                assert(v@ =~= value@);
                return v;
            },
        }
    }
}


fn space(c: char) -> (b: bool)
    ensures
        b == is_space(c),
{
    c == ' ' || c == '\t' || c == '\n' || c == '\u{0B}' || c == '\u{0C}' || c == '\r'
        || c == '\u{85}' || c == '\u{A0}' || c == '\u{1680}' || ('\u{2000}' <= c && c <= '\u{200A}')
        || c == '\u{2028}' || c == '\u{2029}' || c == '\u{202F}' || c == '\u{205F}'
        || c == '\u{3000}'
}

/// `s` trimmed at both ends.
fn trim_chars(s: &Vec<char>) -> (t: Vec<char>)
    ensures
        t@ == trim(s@),
{
    let n = s.len();
    let mut lo: usize = 0;
    assert(s@.subrange(0, n as int) =~= s@);
    while lo < n && space(s[lo])
        invariant
            n == s.len(),
            lo <= n,
            trim_start(s@) == trim_start(s@.subrange(lo as int, n as int)),
        decreases n - lo,
    {
        assert(s@.subrange(lo as int, n as int).drop_first() =~= s@.subrange(lo + 1, n as int));
        lo = lo + 1;
    }
    let ghost u = s@.subrange(lo as int, n as int);
    assert(trim_start(s@) == u);
    let mut hi: usize = n;
    while hi > lo && space(s[hi - 1])
        invariant
            n == s.len(),
            lo <= hi <= n,
            u == s@.subrange(lo as int, n as int),
            trim_end(u) == trim_end(s@.subrange(lo as int, hi as int)),
        decreases hi,
    {
        assert(s@.subrange(lo as int, hi as int).drop_last() =~= s@.subrange(lo as int, hi - 1));
        hi = hi - 1;
    }
    let mut t: Vec<char> = Vec::new();
    let mut x: usize = lo;
    while x < hi
        invariant
            n == s.len(),
            lo <= x <= hi,
            hi <= n,
            t@ == s@.subrange(lo as int, x as int),
        decreases hi - x,
    {
        t.push(s[x]);
        x = x + 1;
        assert(t@ =~= s@.subrange(lo as int, x as int));
    }
    t
}

/// `s` cut at every `sep`.
fn split_chars(s: &Vec<char>, sep: char) -> (p: Vec<Vec<char>>)
    ensures
        view_grid(p@) == split(s@, sep),
{
    let mut pieces: Vec<Vec<char>> = Vec::new();
    let mut cur: Vec<char> = Vec::new();
    let mut i: usize = 0;
    assert(s@.take(0) =~= Seq::<char>::empty());
    assert(view_grid(pieces@).push(cur@) =~= split(s@.take(0), sep));
    while i < s.len()
        invariant
            i <= s.len(),
            view_grid(pieces@).push(cur@) == split(s@.take(i as int), sep),
        decreases s.len() - i,
    {
        let c = s[i];
        let ghost before = view_grid(pieces@);
        let ghost t = s@.take(i + 1);
        assert(t.drop_last() =~= s@.take(i as int));
        assert(t.last() == c);
        if c == sep {
            pieces.push(cur);
            cur = Vec::new();
            assert(view_grid(pieces@) =~= before.push(split(s@.take(i as int), sep).last()));
            assert(view_grid(pieces@).push(cur@) =~= split(t, sep));
        } else {
            cur.push(c);
            assert(view_grid(pieces@) =~= before);
            assert(view_grid(pieces@).push(cur@) =~= split(t, sep));
        }
        i = i + 1;
    }
    assert(s@.take(s.len() as int) =~= s@);
    let ghost before = view_grid(pieces@);
    let ghost last = cur@;
    pieces.push(cur);
    assert(view_grid(pieces@) =~= before.push(last));
    pieces
}

/// Relies on `String`'s `FromIterator<&char>` (`String::from_iter`): the string holds the chars in order.
#[verifier::external_body]
fn string_of(v: &Vec<char>) -> (s: String)
    ensures
        s@ == v@,
{
    String::from_iter(v.iter())
}


/// Cutting always gives at least one piece.
proof fn lemma_split_nonempty(s: Seq<char>, sep: char)
    ensures
        split(s, sep).len() >= 1,
    decreases s.len(),
{
    if s.len() > 0 {
        lemma_split_nonempty(s.drop_last(), sep);
    }
}

/// `t` is the token `0` or `1`.
fn is_cell_char(t: &Vec<char>) -> (b: bool)
    ensures
        b == is_cell_token(t@),
{
    if t.len() == 1 && (t[0] == '0' || t[0] == '1') {
        assert(t@ =~= seq![t[0]]);
        true
    } else {
        if t.len() == 1 {
            assert(t@ != seq!['0'] && t@ != seq!['1']) by {
                assert(seq!['0'][0] == '0');
                assert(seq!['1'][0] == '1');
            }
        } else {
            assert(seq!['0'].len() == 1 && seq!['1'].len() == 1);
        }
        false
    }
}

impl SolvedNonogram {
    /// Reads the canonical text of a solved grid. The text is trimmed and cut into
    /// rows at newlines; each row is trimmed and cut into tokens at single spaces.
    /// Every row must have as many tokens as the first, and every token must be `0`
    /// or `1`; the row count is not checked against anything.
    pub fn try_from(value: &str) -> (res: Result<SolvedNonogram, GridTextError>)
        ensures
            res matches Ok(g) ==> !ragged(tokens(value@)) && !has_bad_token(tokens(value@))
                && g@ == grid_of(tokens(value@)),
            res matches Err(GridTextError::MismatchedColumns) ==> ragged(tokens(value@)),
            res matches Err(GridTextError::InvalidToken(t)) ==> !ragged(tokens(value@))
                && first_bad_token(tokens(value@), t@),
    {
        let ghost tk = tokens(value@);
        let chars = chars_of(value);
        let body = trim_chars(&chars);
        let lines = split_chars(&body, '\n');
        proof {
            lemma_split_nonempty(body@, '\n');
        }
        let mut toks: Vec<Vec<Vec<char>>> = Vec::new();
        let mut r: usize = 0;
        while r < lines.len()
            invariant
                tk == tokens(value@),
                view_grid(lines@) == split(trim(value@), '\n'),
                tk.len() == lines.len(),
                r <= lines.len(),
                toks.len() == r,
                forall|q: int| 0 <= q < r ==> view_grid((#[trigger] toks[q])@) == tk[q],
            decreases lines.len() - r,
        {
            let l = trim_chars(&lines[r]);
            toks.push(split_chars(&l, ' '));
            r = r + 1;
        }
        let w0 = toks[0].len();
        let mut r: usize = 0;
        while r < toks.len()
            invariant
                tk == tokens(value@),
                tk.len() == toks.len(),
                toks.len() >= 1,
                forall|q: int| 0 <= q < toks.len() ==> view_grid((#[trigger] toks[q])@) == tk[q],
                w0 == tk[0].len(),
                r <= toks.len(),
                forall|q: int| 0 <= q < r ==> (#[trigger] tk[q]).len() == w0,
            decreases toks.len() - r,
        {
            if toks[r].len() != w0 {
                assert(tk[r as int].len() != tk[0].len());
                return Err(GridTextError::MismatchedColumns);
            }
            r = r + 1;
        }
        let mut rows: Vec<Vec<bool>> = Vec::new();
        let mut r: usize = 0;
        while r < toks.len()
            invariant
                tk == tokens(value@),
                tk.len() == toks.len(),
                !ragged(tk),
                forall|q: int| 0 <= q < toks.len() ==> view_grid((#[trigger] toks[q])@) == tk[q],
                r <= toks.len(),
                rows.len() == r,
                forall|q: int, c: int| 0 <= q < r && 0 <= c < tk[q].len() ==> is_cell_token(#[trigger] tk[q][c]),
                forall|q: int| 0 <= q < r ==> (#[trigger] rows[q])@ == grid_of(tk)[q],
            decreases toks.len() - r,
        {
            let ghost tr = tk[r as int];
            let mut row: Vec<bool> = Vec::new();
            let mut c: usize = 0;
            while c < toks[r].len()
                invariant
                    tk == tokens(value@),
                    !ragged(tk),
                    r < toks.len(),
                    tk.len() == toks.len(),
                    tr == tk[r as int],
                    view_grid(toks[r as int]@) == tr,
                    forall|q: int, x: int|
                        0 <= q < r && 0 <= x < tk[q].len() ==> is_cell_token(#[trigger] tk[q][x]),
                    c <= tr.len(),
                    row.len() == c,
                    forall|x: int| 0 <= x < c ==> is_cell_token(#[trigger] tr[x]),
                    forall|x: int| 0 <= x < c ==> #[trigger] row[x] == (tr[x] == seq!['1']),
                decreases tr.len() - c,
            {
                let t = &toks[r][c];
                assert(t@ == tr[c as int]);
                if !is_cell_char(t) {
                    assert(tk[r as int][c as int] == t@);
                    assert(forall|x: int| 0 <= x < c ==> is_cell_token(#[trigger] tk[r as int][x]));
                    let ghost (rr, cc) = (r as int, c as int);
                    assert(0 <= rr < tk.len() && 0 <= cc < tk[rr].len() && tk[rr][cc] == t@);
                    return Err(GridTextError::InvalidToken(string_of(t)));
                }
                let one = t[0] == '1';
                assert(one == (t@ == seq!['1'])) by {
                    assert(seq!['1'][0] == '1');
                    if one {
                        assert(t@ =~= seq!['1']);
                    }
                }
                row.push(one);
                c = c + 1;
            }
            assert(row@ =~= grid_of(tk)[r as int]);
            rows.push(row);
            r = r + 1;
        }
        let g = SolvedNonogram { rows };
        assert(g@ =~= grid_of(tk));
        Ok(g)
    }

    /// The canonical text of the grid.
    pub fn to_text(&self) -> (s: String)
        ensures
            s@ == render(self@),
    {
        let ghost g = self@;
        let ghost lines = Seq::new(g.len(), |r: int| row_text(g[r]));
        let mut out: Vec<char> = Vec::new();
        let mut r: usize = 0;
        while r < self.rows.len()
            invariant
                g == self@,
                lines == Seq::new(g.len(), |r: int| row_text(g[r])),
                r <= self.rows.len(),
                out@ == join(lines.take(r as int), '\n'),
            decreases self.rows.len() - r,
        {
            if r > 0 {
                out.push('\n');
            }
            let ghost start = out@;
            let row = &self.rows[r];
            let ghost toks = Seq::new(row.len() as nat, |c: int| token_of(row[c]));
            let mut c: usize = 0;
            while c < row.len()
                invariant
                    toks == Seq::new(row.len() as nat, |c: int| token_of(row[c])),
                    c <= row.len(),
                    out@ == start + join(toks.take(c as int), ' '),
                decreases row.len() - c,
            {
                if c > 0 {
                    out.push(' ');
                }
                out.push(if row[c] { '1' } else { '0' });
                assert(toks.take(c + 1).drop_last() =~= toks.take(c as int));
                assert(token_of(row[c as int]) =~= seq![if row[c as int] { '1' } else { '0' }]);
                assert(out@ =~= start + join(toks.take(c + 1), ' '));
                c = c + 1;
            }
            assert(toks.take(row.len() as int) =~= toks);
            assert(row@ == g[r as int]);
            assert(lines.take(r + 1).drop_last() =~= lines.take(r as int));
            assert(out@ =~= join(lines.take(r + 1), '\n'));
            r = r + 1;
        }
        assert(lines.take(self.rows.len() as int) =~= lines);
        string_of(&out)
    }
}


/// A text without the separator is one piece.
proof fn lemma_split_plain(b: Seq<char>, sep: char)
    requires
        forall|x: int| 0 <= x < b.len() ==> b[x] != sep,
    ensures
        split(b, sep) == seq![b],
    decreases b.len(),
{
    if b.len() == 0 {
        assert(b =~= Seq::<char>::empty());
    } else {
        assert(b[b.len() - 1] != sep);
        lemma_split_plain(b.drop_last(), sep);
        assert(b.drop_last().push(b.last()) =~= b);
        assert(seq![b.drop_last()].update(0, b.drop_last().push(b.last())) =~= seq![b]);
    }
}

/// Appending a separator and a plain piece appends that piece.
proof fn lemma_split_append(a: Seq<char>, b: Seq<char>, sep: char)
    requires
        forall|x: int| 0 <= x < b.len() ==> b[x] != sep,
    ensures
        split(a + seq![sep] + b, sep) == split(a, sep).push(b),
    decreases b.len(),
{
    let s = a + seq![sep] + b;
    if b.len() == 0 {
        assert(s.drop_last() =~= a);
        assert(s.last() == sep);
        assert(b =~= Seq::<char>::empty());
    } else {
        assert(b[b.len() - 1] != sep);
        let b0 = b.drop_last();
        assert(s.drop_last() =~= a + seq![sep] + b0);
        assert(s.last() == b.last());
        lemma_split_append(a, b0, sep);
        assert(b0.push(b.last()) =~= b);
        assert(split(a, sep).push(b0).update(split(a, sep).len() as int, b) =~= split(a, sep).push(b));
    }
}

/// Cutting joined pieces at the separator gives the pieces back, when no piece holds
/// the separator.
proof fn lemma_split_join(p: Seq<Seq<char>>, sep: char)
    requires
        p.len() >= 1,
        forall|k: int, x: int| 0 <= k < p.len() && 0 <= x < p[k].len() ==> p[k][x] != sep,
    ensures
        split(join(p, sep), sep) == p,
    decreases p.len(),
{
    if p.len() == 1 {
        lemma_split_plain(p[0], sep);
        assert(p =~= seq![p[0]]);
    } else {
        let q = p.drop_last();
        lemma_split_join(q, sep);
        lemma_split_append(join(q, sep), p.last(), sep);
        assert(q.push(p.last()) =~= p);
    }
}

/// Joined pieces hold no `c` when neither the pieces nor the separator do.
proof fn lemma_join_avoids(p: Seq<Seq<char>>, sep: char, c: char)
    requires
        sep != c,
        forall|k: int, x: int| 0 <= k < p.len() && 0 <= x < p[k].len() ==> p[k][x] != c,
    ensures
        forall|i: int| 0 <= i < join(p, sep).len() ==> join(p, sep)[i] != c,
    decreases p.len(),
{
    if p.len() > 1 {
        let q = p.drop_last();
        lemma_join_avoids(q, sep, c);
        let j = join(q, sep);
        assert forall|i: int| 0 <= i < join(p, sep).len() implies join(p, sep)[i] != c by {
            if i >= j.len() + 1 {
                assert(join(p, sep)[i] == p.last()[i - j.len() - 1]);
            }
        }
    }
}

/// Joined non-empty pieces start with the first piece's first char and end with the
/// last piece's last char.
proof fn lemma_join_ends(p: Seq<Seq<char>>, sep: char)
    requires
        p.len() >= 1,
        forall|k: int| 0 <= k < p.len() ==> (#[trigger] p[k]).len() > 0,
    ensures
        join(p, sep).len() > 0,
        join(p, sep)[0] == p[0][0],
        join(p, sep).last() == p.last().last(),
    decreases p.len(),
{
    if p.len() > 1 {
        lemma_join_ends(p.drop_last(), sep);
    }
}

/// A row's text is already trimmed, cuts back into its tokens, starts and ends with a
/// cell, and holds no newline.
proof fn lemma_row_text(row: Seq<bool>)
    requires
        row.len() >= 1,
    ensures
        trim(row_text(row)) == row_text(row),
        split(row_text(row), ' ') == Seq::new(row.len(), |c: int| token_of(row[c])),
        row_text(row)[0] == '0' || row_text(row)[0] == '1',
        row_text(row).last() == '0' || row_text(row).last() == '1',
        forall|i: int| 0 <= i < row_text(row).len() ==> row_text(row)[i] != '\n',
{
    let p = Seq::new(row.len(), |c: int| token_of(row[c]));
    assert forall|k: int| 0 <= k < p.len() implies (#[trigger] p[k]).len() > 0 && (p[k][0] == '0'
        || p[k][0] == '1') && p[k].len() == 1 by {}
    lemma_join_ends(p, ' ');
    lemma_split_join(p, ' ');
    lemma_join_avoids(p, ' ', '\n');
}

/// Reading the canonical text of a grid gives the grid back, for a grid of at least
/// one row whose rows share one width of at least one cell.
pub proof fn lemma_round_trip(g: Seq<Seq<bool>>)
    requires
        g.len() >= 1,
        g[0].len() >= 1,
        forall|r: int| 0 <= r < g.len() ==> (#[trigger] g[r]).len() == g[0].len(),
    ensures
        !ragged(tokens(render(g))),
        !has_bad_token(tokens(render(g))),
        grid_of(tokens(render(g))) == g,
{
    let lines = Seq::new(g.len(), |r: int| row_text(g[r]));
    assert forall|r: int| 0 <= r < g.len() implies #[trigger] lines[r].len() > 0 && trim(lines[r])
        == lines[r] && split(lines[r], ' ') == Seq::new(g[r].len(), |c: int| token_of(g[r][c]))
        && (forall|i: int| 0 <= i < lines[r].len() ==> lines[r][i] != '\n') by {
        lemma_row_text(g[r]);
    }
    lemma_row_text(g[0]);
    lemma_row_text(g[g.len() - 1]);
    lemma_join_ends(lines, '\n');
    lemma_split_join(lines, '\n');
    let t = render(g);
    assert(trim_start(t) == t);
    assert(trim_end(t) == t);
    let tk = tokens(t);
    assert(tk =~= Seq::new(g.len(), |r: int| Seq::new(g[r].len(), |c: int| token_of(g[r][c]))));
    assert forall|r: int, c: int| 0 <= r < tk.len() && 0 <= c < tk[r].len() implies is_cell_token(
        #[trigger] tk[r][c],
    ) by {}
    assert forall|r: int| 0 <= r < g.len() implies #[trigger] grid_of(tk)[r] == g[r] by {
        assert(grid_of(tk)[r] =~= g[r]);
    }
    assert(grid_of(tk) =~= g);
}

} // verus!
