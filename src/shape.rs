use vstd::prelude::*;

verus! {

/// No room is wider, deeper or higher than this many cells. The bound, with
/// `MAX_ROOMS`, exists only to keep the coordinates of the layout within
/// `i64`; larger nets are rejected with `TooLarge`.
pub const MAX_EXTENT: usize = 1_000_000;

/// A cell of a face: its column and its row.
#[derive(Clone, Copy, Debug, PartialEq, Eq, Structural)]
pub struct GridPos {
    pub col: usize,
    pub row: usize,
}

pub open spec fn cell_of(p: GridPos) -> (int, int) {
    (p.col as int, p.row as int)
}

pub open spec fn cells(s: Seq<GridPos>) -> Seq<(int, int)> {
    s.map_values(|p: GridPos| cell_of(p))
}

pub open spec fn pair_views(s: Seq<(i64, i64)>) -> Seq<(int, int)> {
    s.map_values(|p: (i64, i64)| (p.0 as int, p.1 as int))
}

/// Every cell lies in a face `cols` wide and `rows` high, no larger than
/// `MAX_EXTENT` either way.
pub open spec fn within(s: Seq<(int, int)>, cols: int, rows: int) -> bool {
    &&& cols <= MAX_EXTENT
    &&& rows <= MAX_EXTENT
    &&& forall|i: int| 0 <= i < s.len() ==> 0 <= #[trigger] s[i].0 < cols && 0 <= s[i].1 < rows
}

/// The cells reflected across a face `cols` columns wide: the first column
/// becomes the last.
pub open spec fn mirror_cols(s: Seq<(int, int)>, cols: int) -> Seq<(int, int)> {
    s.map_values(|p: (int, int)| (cols - p.0 - 1, p.1))
}

/// The cells reflected across a face `rows` rows high: the first row becomes
/// the last.
pub open spec fn mirror_rows(s: Seq<(int, int)>, rows: int) -> Seq<(int, int)> {
    s.map_values(|p: (int, int)| (p.0, rows - p.1 - 1))
}

/// Column first, then row.
pub open spec fn lex_lt(a: (int, int), b: (int, int)) -> bool {
    a.0 < b.0 || (a.0 == b.0 && a.1 < b.1)
}

/// The least cell, column first, then row: the first cell once sorted.
pub open spec fn lex_min(s: Seq<(int, int)>) -> (int, int)
    decreases s.len(),
{
    if s.len() <= 1 {
        s[0]
    } else {
        let m = lex_min(s.drop_last());
        if lex_lt(s.last(), m) {
            s.last()
        } else {
            m
        }
    }
}

pub open spec fn shifted(s: Seq<(int, int)>, by: (int, int)) -> Seq<(int, int)> {
    s.map_values(|p: (int, int)| (p.0 - by.0, p.1 - by.1))
}

/// The cells moved so that their least cell is `(0, 0)`.
pub open spec fn normalized(s: Seq<(int, int)>) -> Seq<(int, int)> {
    shifted(s, lex_min(s))
}

/// How often `p` occurs in `s`.
pub open spec fn occurrences(s: Seq<(int, int)>, p: (int, int)) -> nat
    decreases s.len(),
{
    if s.len() == 0 {
        0
    } else {
        occurrences(s.drop_last(), p) + if s.last() == p {
            1nat
        } else {
            0nat
        }
    }
}

/// Both sets of cells, each moved so that its least cell is at `(0, 0)`, hold
/// the same cells as often: sorted, they are equal element by element.
pub open spec fn same_shape(a: Seq<(int, int)>, b: Seq<(int, int)>) -> bool {
    forall|p: (int, int)| occurrences(normalized(a), p) == occurrences(normalized(b), p)
}

/// Mirroring twice across the same face gives back the cells one started
/// from, column-wise and row-wise alike.
pub proof fn lemma_mirror_twice(s: Seq<(int, int)>, cols: int, rows: int)
    ensures
        mirror_cols(mirror_cols(s, cols), cols) == s,
        mirror_rows(mirror_rows(s, rows), rows) == s,
{
    assert(mirror_cols(mirror_cols(s, cols), cols) =~= s);
    assert(mirror_rows(mirror_rows(s, rows), rows) =~= s);
}

pub proof fn lemma_lex_min_in(s: Seq<(int, int)>)
    requires
        s.len() > 0,
    ensures
        exists|i: int| 0 <= i < s.len() && s[i] == lex_min(s),
    decreases s.len(),
{
    if s.len() > 1 {
        lemma_lex_min_in(s.drop_last());
        let i = choose|i: int| 0 <= i < s.drop_last().len() && s.drop_last()[i] == lex_min(s.drop_last());
        assert(s[i] == s.drop_last()[i]);
        assert(s[s.len() - 1] == s.last());
    } else {
        assert(s[0] == lex_min(s));
    }
}

/// The least cell of cells within a face lies within it.
pub proof fn lemma_lex_min_within(s: Seq<(int, int)>, cols: int, rows: int)
    requires
        s.len() > 0,
        within(s, cols, rows),
    ensures
        0 <= lex_min(s).0 < cols,
        0 <= lex_min(s).1 < rows,
{
    lemma_lex_min_in(s);
    let i = choose|i: int| 0 <= i < s.len() && s[i] == lex_min(s);
    assert(0 <= s[i].0 < cols);
}

/// Pairs whose cells lie within a face hold small, nonnegative numbers.
pub proof fn lemma_pairs_within(s: Seq<(i64, i64)>, cols: int, rows: int)
    requires
        within(pair_views(s), cols, rows),
    ensures
        forall|i: int| 0 <= i < s.len() ==> 0 <= #[trigger] s[i].0 <= MAX_EXTENT && 0 <= s[i].1 <= MAX_EXTENT,
{
    assert forall|i: int| 0 <= i < s.len() implies 0 <= #[trigger] s[i].0 <= MAX_EXTENT && 0 <= s[i].1 <= MAX_EXTENT by {
        assert(pair_views(s)[i] == (s[i].0 as int, s[i].1 as int));
    }
}

proof fn lemma_occurrences_positive(s: Seq<(int, int)>, p: (int, int))
    requires
        occurrences(s, p) > 0,
    ensures
        exists|i: int| 0 <= i < s.len() && s[i] == p,
    decreases s.len(),
{
    if s.last() == p {
        assert(s[s.len() - 1] == p);
    } else {
        lemma_occurrences_positive(s.drop_last(), p);
        let i = choose|i: int| 0 <= i < s.drop_last().len() && s.drop_last()[i] == p;
        assert(s[i] == p);
    }
}

/// The cells of a list of positions.
pub fn to_pairs(s: &Vec<GridPos>) -> (r: Vec<(i64, i64)>)
    requires
        forall|i: int| 0 <= i < s.len() ==> s@[i].col <= MAX_EXTENT && s@[i].row <= MAX_EXTENT,
    ensures
        pair_views(r@) == cells(s@),
{
    let mut r: Vec<(i64, i64)> = Vec::new();
    for i in 0..s.len()
        invariant
            forall|i: int| 0 <= i < s.len() ==> s@[i].col <= MAX_EXTENT && s@[i].row <= MAX_EXTENT,
            r.len() == i,
            forall|j: int| 0 <= j < i ==> ((#[trigger] r@[j]).0 as int, r@[j].1 as int) == cell_of(s@[j]),
    {
        let p = s[i];
        r.push((p.col as i64, p.row as i64));
    }
    assert(pair_views(r@) =~= cells(s@));
    r
}

/// The cells reflected across a face `n` columns wide, or, with `rows`, `n`
/// rows high.
pub fn mirror(s: &Vec<(i64, i64)>, n: i64, rows: bool) -> (r: Vec<(i64, i64)>)
    requires
        0 <= n <= MAX_EXTENT,
        forall|i: int| 0 <= i < s.len() ==> 0 <= #[trigger] s@[i].0 <= MAX_EXTENT && 0 <= s@[i].1 <= MAX_EXTENT,
    ensures
        pair_views(r@) == if rows {
            mirror_rows(pair_views(s@), n as int)
        } else {
            mirror_cols(pair_views(s@), n as int)
        },
{
    let ghost want = if rows {
        mirror_rows(pair_views(s@), n as int)
    } else {
        mirror_cols(pair_views(s@), n as int)
    };
    let mut r: Vec<(i64, i64)> = Vec::new();
    for i in 0..s.len()
        invariant
            0 <= n <= MAX_EXTENT,
            forall|i: int| 0 <= i < s.len() ==> 0 <= #[trigger] s@[i].0 <= MAX_EXTENT && 0 <= s@[i].1 <= MAX_EXTENT,
            want == if rows {
                mirror_rows(pair_views(s@), n as int)
            } else {
                mirror_cols(pair_views(s@), n as int)
            },
            want.len() == s.len(),
            r.len() == i,
            forall|j: int| 0 <= j < i ==> ((#[trigger] r@[j]).0 as int, r@[j].1 as int) == want[j],
    {
        let p = s[i];
        if rows {
            r.push((p.0, n - p.1 - 1));
        } else {
            r.push((n - p.0 - 1, p.1));
        }
    }
    assert(pair_views(r@) =~= want);
    r
}

/// The least cell, column first, then row.
pub fn lowest(s: &Vec<(i64, i64)>) -> (m: (i64, i64))
    requires
        s.len() > 0,
    ensures
        (m.0 as int, m.1 as int) == lex_min(pair_views(s@)),
{
    let mut m = s[0];
    assert(pair_views(s@).subrange(0, 1).len() == 1);
    for i in 1..s.len()
        invariant
            s.len() > 0,
            (m.0 as int, m.1 as int) == lex_min(pair_views(s@).subrange(0, i as int)),
    {
        let p = s[i];
        assert(pair_views(s@).subrange(0, i + 1).drop_last() =~= pair_views(s@).subrange(
            0,
            i as int,
        ));
        if p.0 < m.0 || (p.0 == m.0 && p.1 < m.1) {
            m = p;
        }
    }
    assert(pair_views(s@).subrange(0, s.len() as int) =~= pair_views(s@));
    m
}

/// The cells moved by minus `by`.
pub fn shift(s: &Vec<(i64, i64)>, by: (i64, i64)) -> (r: Vec<(i64, i64)>)
    requires
        0 <= by.0 <= MAX_EXTENT,
        0 <= by.1 <= MAX_EXTENT,
        forall|i: int| 0 <= i < s.len() ==> 0 <= #[trigger] s@[i].0 <= MAX_EXTENT && 0 <= s@[i].1 <= MAX_EXTENT,
    ensures
        pair_views(r@) == shifted(pair_views(s@), (by.0 as int, by.1 as int)),
{
    let ghost want = shifted(pair_views(s@), (by.0 as int, by.1 as int));
    let mut r: Vec<(i64, i64)> = Vec::new();
    for i in 0..s.len()
        invariant
            0 <= by.0 <= MAX_EXTENT,
            0 <= by.1 <= MAX_EXTENT,
            forall|i: int| 0 <= i < s.len() ==> 0 <= #[trigger] s@[i].0 <= MAX_EXTENT && 0 <= s@[i].1 <= MAX_EXTENT,
            want == shifted(pair_views(s@), (by.0 as int, by.1 as int)),
            want.len() == s.len(),
            r.len() == i,
            forall|j: int| 0 <= j < i ==> ((#[trigger] r@[j]).0 as int, r@[j].1 as int) == want[j],
    {
        let p = s[i];
        r.push((p.0 - by.0, p.1 - by.1));
    }
    assert(pair_views(r@) =~= want);
    r
}

/// How often `p` occurs in `s`.
fn count(s: &Vec<(i64, i64)>, p: (i64, i64)) -> (n: usize)
    ensures
        n == occurrences(pair_views(s@), (p.0 as int, p.1 as int)),
{
    let ghost q = (p.0 as int, p.1 as int);
    let mut n: usize = 0;
    for i in 0..s.len()
        invariant
            q == (p.0 as int, p.1 as int),
            n == occurrences(pair_views(s@).subrange(0, i as int), q),
            n <= i,
    {
        assert(pair_views(s@).subrange(0, i + 1).drop_last() =~= pair_views(s@).subrange(
            0,
            i as int,
        ));
        let q = s[i];
        if q.0 == p.0 && q.1 == p.1 {
            n += 1;
        }
    }
    assert(pair_views(s@).subrange(0, s.len() as int) =~= pair_views(s@));
    n
}

/// Every cell of `a` occurs in `b` as often as in `a`.
fn counts_agree(a: &Vec<(i64, i64)>, b: &Vec<(i64, i64)>) -> (ok: bool)
    ensures
        ok <==> forall|i: int|
            0 <= i < a.len() ==> occurrences(pair_views(a@), #[trigger] pair_views(a@)[i])
                == occurrences(pair_views(b@), pair_views(a@)[i]),
{
    for i in 0..a.len()
        invariant
            forall|j: int|
                0 <= j < i ==> occurrences(pair_views(a@), #[trigger] pair_views(a@)[j])
                    == occurrences(pair_views(b@), pair_views(a@)[j]),
    {
        if count(a, a[i]) != count(b, a[i]) {
            assert(pair_views(a@)[i as int] == (a@[i as int].0 as int, a@[i as int].1 as int));
            return false;
        }
    }
    true
}

/// Whether two nonempty sets of cells, each within a face, have the same
/// shape (see `same_shape`).
pub fn shapes_match(a: &Vec<(i64, i64)>, b: &Vec<(i64, i64)>) -> (ok: bool)
    requires
        a.len() > 0,
        b.len() > 0,
        forall|i: int| 0 <= i < a.len() ==> 0 <= #[trigger] a@[i].0 <= MAX_EXTENT && 0 <= a@[i].1 <= MAX_EXTENT,
        forall|i: int| 0 <= i < b.len() ==> 0 <= #[trigger] b@[i].0 <= MAX_EXTENT && 0 <= b@[i].1 <= MAX_EXTENT,
    ensures
        ok == same_shape(pair_views(a@), pair_views(b@)),
{
    let ma = lowest(a);
    let mb = lowest(b);
    proof {
        lemma_lex_min_in(pair_views(a@));
        lemma_lex_min_in(pair_views(b@));
    }
    let na = shift(a, ma);
    let nb = shift(b, mb);
    let ghost va = pair_views(na@);
    let ghost vb = pair_views(nb@);
    assert(va == normalized(pair_views(a@)));
    assert(vb == normalized(pair_views(b@)));
    let one = counts_agree(&na, &nb);
    let two = counts_agree(&nb, &na);
    proof {
        if one && two {
            assert forall|p: (int, int)| occurrences(va, p) == occurrences(vb, p) by {
                if occurrences(va, p) > 0 {
                    lemma_occurrences_positive(va, p);
                    let i = choose|i: int| 0 <= i < va.len() && va[i] == p;
                    assert(occurrences(va, va[i]) == occurrences(vb, va[i]));
                } else if occurrences(vb, p) > 0 {
                    lemma_occurrences_positive(vb, p);
                    let i = choose|i: int| 0 <= i < vb.len() && vb[i] == p;
                    assert(occurrences(vb, vb[i]) == occurrences(va, vb[i]));
                }
            }
        }
    }
    one && two
}

} // verus!
