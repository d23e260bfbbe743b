use vstd::prelude::*;

use crate::text::{chars_of, views};

verus! {

/// One placed symbol of a face: its column, its row and the symbol.
pub type Mark = (usize, usize, char);

/// The characters that draw a net rather than place an object.
pub open spec fn is_border(c: char) -> bool {
    c == '+' || c == '-' || c == ' ' || c == '|'
}

pub fn border(c: char) -> (b: bool)
    ensures
        b == is_border(c),
{
    c == '+' || c == '-' || c == ' ' || c == '|'
}

/// The marks of one row of a face, left to right: a mark for every cell that
/// holds no border character, in row `r`.
pub open spec fn row_marks(row: Seq<char>, r: int) -> Seq<Mark>
    decreases row.len(),
{
    if row.len() == 0 {
        Seq::empty()
    } else {
        let prev = row_marks(row.drop_last(), r);
        if is_border(row.last()) {
            prev
        } else {
            prev.push(((row.len() - 1) as usize, r as usize, row.last()))
        }
    }
}

/// The marks of the face that is `w` cells wide and `h` cells high and whose
/// top left cell is column `x` of line `y` of `rows`, row by row.
pub open spec fn grid_marks(rows: Seq<Seq<char>>, x: int, y: int, w: int, h: int) -> Seq<Mark>
    decreases h,
{
    if h <= 0 || w <= 0 {
        Seq::empty()
    } else {
        grid_marks(rows, x, y, w, h - 1) + row_marks(rows[y + h - 1].subrange(x, x + w), h - 1)
    }
}

/// The face lies within `rows`; an empty face always does.
pub open spec fn fits(rows: Seq<Seq<char>>, x: int, y: int, w: int, h: int) -> bool {
    w == 0 || h == 0 || (0 <= x && 0 <= y && y + h <= rows.len() && forall|r: int|
        y <= r < y + h ==> x + w <= #[trigger] rows[r].len())
}

/// What a vector of string slices holds.
pub open spec fn str_views(v: Seq<&str>) -> Seq<Seq<char>> {
    v.map_values(|s: &str| s@)
}

proof fn lemma_row_marks(row: Seq<char>, r: int)
    requires
        0 <= r <= usize::MAX,
        row.len() <= usize::MAX,
    ensures
        forall|k: int|
            0 <= k < row_marks(row, r).len() ==> {
                let m = #[trigger] row_marks(row, r)[k];
                &&& m.0 < row.len()
                &&& m.1 == r
                &&& m.2 == row[m.0 as int]
                &&& !is_border(m.2)
            },
        forall|c: int|
            0 <= c < row.len() && !is_border(row[c]) ==> exists|k: int|
                0 <= k < row_marks(row, r).len() && #[trigger] row_marks(row, r)[k] == (
                    c as usize,
                    r as usize,
                    #[trigger] row[c],
                ),
    decreases row.len(),
{
    if row.len() > 0 {
        let prev = row.drop_last();
        lemma_row_marks(prev, r);
        assert forall|k: int| 0 <= k < row_marks(row, r).len() implies {
            let m = #[trigger] row_marks(row, r)[k];
            &&& m.0 < row.len()
            &&& m.1 == r
            &&& m.2 == row[m.0 as int]
            &&& !is_border(m.2)
        } by {
            if k < row_marks(prev, r).len() {
                let m = row_marks(prev, r)[k];
                assert(row_marks(row, r)[k] == m);
                assert(prev[m.0 as int] == row[m.0 as int]);
            }
        }
        assert forall|c: int| 0 <= c < row.len() && !is_border(row[c]) implies exists|k: int|
            0 <= k < row_marks(row, r).len() && #[trigger] row_marks(row, r)[k] == (
                c as usize,
                r as usize,
                row[c],
            ) by {
            if c < prev.len() {
                assert(prev[c] == row[c]);
                let k = choose|k: int|
                    0 <= k < row_marks(prev, r).len() && #[trigger] row_marks(prev, r)[k] == (
                        c as usize,
                        r as usize,
                        prev[c],
                    );
                assert(row_marks(row, r)[k] == row_marks(prev, r)[k]);
            } else {
                assert(row_marks(row, r)[row_marks(prev, r).len() as int] == (
                    c as usize,
                    r as usize,
                    row[c],
                ));
            }
        }
    }
}

/// A face yields exactly its symbols: each mark is a cell of the face that
/// holds no border character, at that cell's column and row and with that
/// cell's character, and each such cell yields a mark.
pub proof fn lemma_grid_marks_exact(rows: Seq<Seq<char>>, x: int, y: int, w: int, h: int)
    requires
        0 <= x,
        0 <= y,
        0 <= w <= usize::MAX,
        0 <= h <= usize::MAX,
        fits(rows, x, y, w, h),
    ensures
        forall|k: int|
            0 <= k < grid_marks(rows, x, y, w, h).len() ==> {
                let m = #[trigger] grid_marks(rows, x, y, w, h)[k];
                &&& m.0 < w
                &&& m.1 < h
                &&& m.2 == rows[y + m.1][x + m.0]
                &&& !is_border(m.2)
            },
        forall|c: int, r: int|
            0 <= c < w && 0 <= r < h && !is_border(rows[y + r][x + c]) ==> exists|k: int|
                0 <= k < grid_marks(rows, x, y, w, h).len() && #[trigger] grid_marks(
                    rows,
                    x,
                    y,
                    w,
                    h,
                )[k] == (c as usize, r as usize, #[trigger] rows[y + r][x + c]),
    decreases h,
{
    if h > 0 && w > 0 {
        lemma_grid_marks_exact(rows, x, y, w, h - 1);
        let row = rows[y + h - 1].subrange(x, x + w);
        lemma_row_marks(row, h - 1);
        let prev = grid_marks(rows, x, y, w, h - 1);
        let all = grid_marks(rows, x, y, w, h);
        assert(all == prev + row_marks(row, h - 1));
        assert forall|k: int| 0 <= k < all.len() implies {
            let m = #[trigger] all[k];
            &&& m.0 < w
            &&& m.1 < h
            &&& m.2 == rows[y + m.1][x + m.0]
            &&& !is_border(m.2)
        } by {
            if k >= prev.len() {
                assert(all[k] == row_marks(row, h - 1)[k - prev.len()]);
            }
        }
        assert forall|c: int, r: int|
            0 <= c < w && 0 <= r < h && !is_border(rows[y + r][x + c]) implies exists|k: int|
                0 <= k < all.len() && #[trigger] all[k] == (
                    c as usize,
                    r as usize,
                    #[trigger] rows[y + r][x + c],
                ) by {
            if r < h - 1 {
                let k = choose|k: int|
                    0 <= k < prev.len() && #[trigger] prev[k] == (
                        c as usize,
                        r as usize,
                        rows[y + r][x + c],
                    );
                assert(all[k] == prev[k]);
            } else {
                assert(row[c] == rows[y + r][x + c]);
                let j = choose|j: int|
                    0 <= j < row_marks(row, h - 1).len() && #[trigger] row_marks(row, h - 1)[j] == (
                        c as usize,
                        (h - 1) as usize,
                        row[c],
                    );
                assert(all[prev.len() + j] == row_marks(row, h - 1)[j]);
            }
        }
    }
}

/// The marks of a face of `rows` (see `grid_marks`).
pub fn cut_marks(rows: &Vec<Vec<char>>, x: usize, y: usize, w: usize, h: usize) -> (m: Vec<Mark>)
    requires
        fits(views(rows@), x as int, y as int, w as int, h as int),
    ensures
        m@ == grid_marks(views(rows@), x as int, y as int, w as int, h as int),
{
    let ghost rs = views(rows@);
    let mut m: Vec<Mark> = Vec::new();
    if w == 0 {
        return m;
    }
    for r in 0..h
        invariant
            w > 0,
            rs == views(rows@),
            rs.len() == rows@.len(),
            fits(rs, x as int, y as int, w as int, h as int),
            m@ == grid_marks(rs, x as int, y as int, w as int, r as int),
    {
        assert(y + r < rows.len());
        let row = &rows[y + r];
        assert(row@ == rs[y + r]);
        assert(x + w <= rs[y + r].len());
        let ghost base = m@;
        for c in 0..w
            invariant
                w > 0,
                x + w <= row@.len(),
                m@ == base + row_marks(row@.subrange(x as int, x + c), r as int),
        {
            assert(x + c < row.len());
            let ch = row[x + c];
            assert(row@.subrange(x as int, x + c + 1).drop_last() =~= row@.subrange(
                x as int,
                x + c,
            ));
            if !border(ch) {
                m.push((c, r, ch));
            }
            assert(m@ =~= base + row_marks(row@.subrange(x as int, x + c + 1), r as int));
        }
        assert(m@ =~= grid_marks(rs, x as int, y as int, w as int, r + 1));
    }
    m
}

/// The symbols of the face of `image` that is `wdt` cells wide and `hgt`
/// cells high and whose top left cell is column `x` of line `y`: for each
/// cell that holds no border character, its column and row within the face
/// and its character, row by row and left to right.
pub fn get_letters_in_ascii_grid(image: Vec<&str>, x: usize, y: usize, wdt: usize, hgt: usize) -> (m:
    Vec<Mark>)
    requires
        fits(str_views(image@), x as int, y as int, wdt as int, hgt as int),
    ensures
        m@ == grid_marks(str_views(image@), x as int, y as int, wdt as int, hgt as int),
{
    let ghost full = str_views(image@);
    assert(full.len() == image@.len());
    let mut rows: Vec<Vec<char>> = Vec::new();
    let end = if hgt == 0 || wdt == 0 {
        0
    } else {
        assert(y + hgt <= image.len());
        y + hgt
    };
    let mut i: usize = 0;
    while i < end
        invariant
            i <= end,
            end == 0 || (end == y + hgt && y + hgt <= image.len()),
            full == str_views(image@),
            views(rows@) == full.subrange(0, i as int),
        decreases end - i,
    {
        let ghost before = rows@;
        rows.push(chars_of(image[i]));
        assert(views(rows@) =~= views(before).push(rows@.last()@));
        assert(views(rows@) =~= full.subrange(0, i + 1));
        i += 1;
    }
    proof {
        if hgt > 0 && wdt > 0 {
            assert(fits(views(rows@), x as int, y as int, wdt as int, hgt as int));
            lemma_grid_marks_same_rows(views(rows@), full, x as int, y as int, wdt as int, hgt as int);
        }
    }
    cut_marks(&rows, x, y, wdt, hgt)
}

proof fn lemma_grid_marks_same_rows(
    a: Seq<Seq<char>>,
    b: Seq<Seq<char>>,
    x: int,
    y: int,
    w: int,
    h: int,
)
    requires
        0 <= y,
        y + h <= a.len(),
        y + h <= b.len(),
        forall|r: int| y <= r < y + h ==> a[r] == b[r],
    ensures
        grid_marks(a, x, y, w, h) == grid_marks(b, x, y, w, h),
    decreases h,
{
    if h > 0 && w > 0 {
        lemma_grid_marks_same_rows(a, b, x, y, w, h - 1);
        assert(a[y + h - 1] == b[y + h - 1]);
    }
}

} // verus!
