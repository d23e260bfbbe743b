use vstd::prelude::*;

verus! {

/// The characters that trimming removes: Unicode's `White_Space` property.
pub open spec fn is_blank(c: char) -> bool {
    let u = c as u32;
    u == 0x20 || (0x09 <= u && u <= 0x0d) || u == 0x85 || u == 0xa0 || u == 0x1680 || (0x2000 <= u
        && u <= 0x200a) || u == 0x2028 || u == 0x2029 || u == 0x202f || u == 0x205f || u == 0x3000
}

pub fn blank(c: char) -> (b: bool)
    ensures
        b == is_blank(c),
{
    let u = c as u32;
    u == 0x20 || (0x09 <= u && u <= 0x0d) || u == 0x85 || u == 0xa0 || u == 0x1680 || (0x2000 <= u
        && u <= 0x200a) || u == 0x2028 || u == 0x2029 || u == 0x202f || u == 0x205f || u == 0x3000
}

/// `s` without its leading blanks.
pub open spec fn trimmed_start(s: Seq<char>) -> Seq<char>
    decreases s.len(),
{
    if s.len() > 0 && is_blank(s[0]) {
        trimmed_start(s.drop_first())
    } else {
        s
    }
}

/// `s` without its trailing blanks.
pub open spec fn trimmed_end(s: Seq<char>) -> Seq<char>
    decreases s.len(),
{
    if s.len() > 0 && is_blank(s.last()) {
        trimmed_end(s.drop_last())
    } else {
        s
    }
}

/// `s` without its leading and trailing blanks.
pub open spec fn trimmed(s: Seq<char>) -> Seq<char> {
    trimmed_end(trimmed_start(s))
}

/// Where `s` is cut into pieces: at every `sep`, or, with `at_line_start`,
/// only at a `sep` that opens a line.
pub open spec fn cuts_at(s: Seq<char>, i: int, sep: char, at_line_start: bool) -> bool {
    s[i] == sep && (!at_line_start || i == 0 || s[i - 1] == '\n')
}

/// The pieces of `s` between its cuts, the cut characters left out. There is
/// always one piece more than there are cuts.
pub open spec fn pieces(s: Seq<char>, sep: char, at_line_start: bool) -> Seq<Seq<char>>
    decreases s.len(),
{
    if s.len() == 0 {
        seq![Seq::empty()]
    } else {
        let p = pieces(s.drop_last(), sep, at_line_start);
        if cuts_at(s, s.len() - 1, sep, at_line_start) {
            p.push(Seq::empty())
        } else {
            p.update(p.len() - 1, p.last().push(s.last()))
        }
    }
}

/// A line with the carriage return of a `\r\n` ending taken off.
pub open spec fn without_cr(l: Seq<char>) -> Seq<char> {
    if l.len() > 0 && l.last() == '\r' {
        l.drop_last()
    } else {
        l
    }
}

/// The lines of `s`: split at line feeds, each line that a line feed ends
/// loses a carriage return before it, and a last empty line is no line.
pub open spec fn lines(s: Seq<char>) -> Seq<Seq<char>> {
    let p = pieces(s, '\n', false);
    let ended = p.drop_last().map_values(|l: Seq<char>| without_cr(l));
    if p.last().len() == 0 {
        ended
    } else {
        ended.push(p.last())
    }
}

/// The lines of `ls` joined by line feeds.
pub open spec fn joined(ls: Seq<Seq<char>>) -> Seq<char>
    decreases ls.len(),
{
    if ls.len() == 0 {
        Seq::empty()
    } else if ls.len() == 1 {
        ls[0]
    } else {
        joined(ls.drop_last()) + seq!['\n'] + ls.last()
    }
}

/// What a vector of character vectors holds.
pub open spec fn views(v: Seq<Vec<char>>) -> Seq<Seq<char>> {
    v.map_values(|l: Vec<char>| l@)
}

pub proof fn lemma_pieces_nonempty(s: Seq<char>, sep: char, at_line_start: bool)
    ensures
        pieces(s, sep, at_line_start).len() >= 1,
    decreases s.len(),
{
    if s.len() > 0 {
        lemma_pieces_nonempty(s.drop_last(), sep, at_line_start);
    }
}

/// The characters of a string.
pub fn chars_of(text: &str) -> (v: Vec<char>)
    ensures
        v@ == text@,
{
    broadcast use vstd::string::axiom_spec_iter;

    let mut v: Vec<char> = Vec::new();
    for c in it: text.chars()
        invariant
            it.seq() == text@,
            v@ == it.seq().take(it.index() as int),
    {
        v.push(c);
        assert(v@ =~= it.seq().take(it.index() + 1));
    }
    assert(v@ =~= text@);
    v
}

/// The characters `s[from..to]`.
pub fn slice(s: &Vec<char>, from: usize, to: usize) -> (r: Vec<char>)
    requires
        from <= to <= s.len(),
    ensures
        r@ == s@.subrange(from as int, to as int),
{
    let mut r: Vec<char> = Vec::new();
    let mut i = from;
    while i < to
        invariant
            from <= i <= to <= s.len(),
            r@ == s@.subrange(from as int, i as int),
        decreases to - i,
    {
        r.push(s[i]);
        i += 1;
        assert(r@ =~= s@.subrange(from as int, i as int));
    }
    r
}

/// `s` without its leading and trailing blanks.
pub fn trim(s: &Vec<char>) -> (r: Vec<char>)
    ensures
        r@ == trimmed(s@),
{
    let n = s.len();
    let mut i: usize = 0;
    assert(s@.subrange(0, n as int) =~= s@);
    while i < n && blank(s[i])
        invariant
            i <= n == s.len(),
            trimmed_start(s@) == trimmed_start(s@.subrange(i as int, n as int)),
        decreases n - i,
    {
        assert(s@.subrange(i as int, n as int).drop_first() =~= s@.subrange(i + 1, n as int));
        i += 1;
    }
    assert(trimmed_start(s@.subrange(i as int, n as int)) == s@.subrange(i as int, n as int));
    let mut j: usize = n;
    while j > i && blank(s[j - 1])
        invariant
            i <= j <= n == s.len(),
            trimmed(s@) == trimmed_end(s@.subrange(i as int, j as int)),
        decreases j,
    {
        assert(s@.subrange(i as int, j as int).drop_last() =~= s@.subrange(i as int, j - 1));
        j -= 1;
    }
    slice(s, i, j)
}

/// The pieces of `s` between its cuts (see `pieces`).
pub fn split(s: &Vec<char>, sep: char, at_line_start: bool) -> (r: Vec<Vec<char>>)
    ensures
        views(r@) == pieces(s@, sep, at_line_start),
{
    let mut done: Vec<Vec<char>> = Vec::new();
    let mut cur: Vec<char> = Vec::new();
    for i in 0..s.len()
        invariant
            views(done@).push(cur@) == pieces(s@.subrange(0, i as int), sep, at_line_start),
    {
        let ghost before = s@.subrange(0, i as int);
        let ghost after = s@.subrange(0, i + 1);
        assert(after.drop_last() =~= before);
        let cut = s[i] == sep && (!at_line_start || i == 0 || s[i - 1] == '\n');
        assert(cut == cuts_at(after, i as int, sep, at_line_start));
        if cut {
            let ghost old_done = done@;
            done.push(cur);
            cur = Vec::new();
            assert(views(done@) =~= views(old_done).push(views(done@).last()));
            assert(views(done@).push(cur@) =~= pieces(before, sep, at_line_start).push(
                Seq::empty(),
            ));
        } else {
            cur.push(s[i]);
            assert(views(done@).push(cur@) =~= pieces(before, sep, at_line_start).update(
                pieces(before, sep, at_line_start).len() - 1,
                pieces(before, sep, at_line_start).last().push(s[i as int]),
            ));
        }
    }
    assert(s@.subrange(0, s.len() as int) =~= s@);
    let ghost old_done = done@;
    done.push(cur);
    assert(views(done@) =~= views(old_done).push(views(done@).last()));
    done
}

/// The lines of `s` (see `lines`).
pub fn split_lines(s: &Vec<char>) -> (r: Vec<Vec<char>>)
    ensures
        views(r@) == lines(s@),
{
    let p = split(s, '\n', false);
    proof {
        lemma_pieces_nonempty(s@, '\n', false);
    }
    let ghost ps = pieces(s@, '\n', false);
    let last = p.len() - 1;
    let mut r: Vec<Vec<char>> = Vec::new();
    for i in 0..last
        invariant
            last + 1 == p.len() == ps.len(),
            views(p@) == ps,
            views(r@) == ps.drop_last().subrange(0, i as int).map_values(
                |l: Seq<char>| without_cr(l),
            ),
    {
        let line = &p[i];
        assert(line@ == ps[i as int]);
        let n = line.len();
        let kept = if n > 0 && line[n - 1] == '\r' {
            slice(line, 0, n - 1)
        } else {
            slice(line, 0, n)
        };
        assert(kept@ =~= without_cr(ps[i as int]));
        let ghost old_r = r@;
        r.push(kept);
        assert(views(r@) =~= views(old_r).push(kept@));
        assert(views(r@) =~= ps.drop_last().subrange(0, i + 1).map_values(
            |l: Seq<char>| without_cr(l),
        ));
    }
    assert(ps.drop_last().subrange(0, last as int) =~= ps.drop_last());
    let tail = &p[last];
    assert(tail@ == ps.last());
    if tail.len() > 0 {
        let ghost old_r = r@;
        let whole = slice(tail, 0, tail.len());
        assert(whole@ =~= tail@);
        r.push(whole);
        assert(views(r@) =~= views(old_r).push(ps.last()));
    }
    r
}

/// The lines `ls[from..]` joined by line feeds.
pub fn join_lines(ls: &Vec<Vec<char>>, from: usize) -> (r: Vec<char>)
    requires
        from <= ls.len(),
    ensures
        r@ == joined(views(ls@).subrange(from as int, ls.len() as int)),
{
    let mut r: Vec<char> = Vec::new();
    let mut i = from;
    while i < ls.len()
        invariant
            from <= i <= ls.len(),
            r@ == joined(views(ls@).subrange(from as int, i as int)),
        decreases ls.len() - i,
    {
        let ghost prev = views(ls@).subrange(from as int, i as int);
        let ghost next = views(ls@).subrange(from as int, i + 1);
        assert(next.drop_last() =~= prev);
        if i > from {
            r.push('\n');
        }
        let line = &ls[i];
        let mut k: usize = 0;
        let ghost base = r@;
        while k < line.len()
            invariant
                k <= line.len(),
                r@ == base + line@.subrange(0, k as int),
            decreases line.len() - k,
        {
            r.push(line[k]);
            k += 1;
            assert(r@ =~= base + line@.subrange(0, k as int));
        }
        assert(line@.subrange(0, k as int) =~= line@);
        assert(r@ =~= joined(next));
        i += 1;
    }
    r
}

} // verus!
