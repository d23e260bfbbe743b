use vstd::prelude::*;

use crate::grid::{cut_marks, fits, grid_marks, is_border, lemma_grid_marks_exact, Mark};
use crate::shape::MAX_EXTENT;
use crate::text::{lines, split_lines, trim, trimmed, views};

verus! {

/// Why a room net cannot be read.
#[derive(Clone, Copy, Debug, PartialEq, Eq, Structural)]
pub enum FormatError {
    /// No line after the first one starts with `+`, so the net has no depth.
    MissingMarker,
    /// The net has fewer lines than its top and floor take together.
    TooFewLines,
    /// The net does not hold `2 * (w * d + w * h + d * h)` characters.
    AreaMismatch,
    /// A face reaches past the end of a line of the net.
    OutOfBounds,
    /// A room is wider, deeper or higher than `MAX_EXTENT`, or there are
    /// more than `MAX_ROOMS` rooms.
    TooLarge,
}

/// The six faces of a room, in the order in which the net lays them out.
#[derive(Clone, Copy, Debug, PartialEq, Eq, Structural)]
pub enum Face {
    Top,
    Back,
    Right,
    Front,
    Left,
    Floor,
}

/// A point in space, in half cells: a room's center lies on a half cell
/// whenever one of its extents is odd.
#[derive(Clone, Copy, Debug, PartialEq, Eq, Structural)]
pub struct Point {
    pub x: i64,
    pub y: i64,
    pub z: i64,
}

/// A room: its extents in cells, its center, and the symbols on each face.
#[derive(Debug)]
pub struct Room {
    pub width: usize,
    pub depth: usize,
    pub height: usize,
    pub center: Point,
    pub top: Vec<Mark>,
    pub back: Vec<Mark>,
    pub right: Vec<Mark>,
    pub front: Vec<Mark>,
    pub left: Vec<Mark>,
    pub floor: Vec<Mark>,
}

pub open spec fn origin() -> Point {
    Point { x: 0, y: 0, z: 0 }
}

/// Where a face lies in the net of a room `w` wide, `d` deep and `h` high:
/// the column and line of its top left cell, its columns and its rows.
pub open spec fn face_frame(f: Face, w: int, d: int, h: int) -> (int, int, int, int) {
    match f {
        Face::Top => (0, 0, w, d),
        Face::Back => (0, d, w, h),
        Face::Right => (w, d, d, h),
        Face::Front => (w + d, d, w, h),
        Face::Left => (2 * w + d, d, d, h),
        Face::Floor => (0, d + h, w, d),
    }
}

impl Room {
    pub open spec fn marks(self, f: Face) -> Seq<Mark> {
        match f {
            Face::Top => self.top@,
            Face::Back => self.back@,
            Face::Right => self.right@,
            Face::Front => self.front@,
            Face::Left => self.left@,
            Face::Floor => self.floor@,
        }
    }

    /// The columns and the rows of a face.
    pub open spec fn face_size(self, f: Face) -> (int, int) {
        let fr = face_frame(f, self.width as int, self.depth as int, self.height as int);
        (fr.2, fr.3)
    }

    /// Every symbol lies within its face.
    pub open spec fn wf(self) -> bool {
        forall|f: Face, k: int|
            0 <= k < self.marks(f).len() ==> {
                let m = #[trigger] self.marks(f)[k];
                &&& (m.0 as int) < self.face_size(f).0
                &&& (m.1 as int) < self.face_size(f).1
            }
    }

    /// The symbols on a face.
    pub fn face(&self, f: Face) -> (r: &Vec<Mark>)
        ensures
            r@ == self.marks(f),
    {
        match f {
            Face::Top => &self.top,
            Face::Back => &self.back,
            Face::Right => &self.right,
            Face::Front => &self.front,
            Face::Left => &self.left,
            Face::Floor => &self.floor,
        }
    }
}

/// The line opens a border: it starts with `+`.
pub open spec fn opens_border(l: Seq<char>) -> bool {
    l.len() > 0 && l[0] == '+'
}

/// The first line from `i` on that opens a border.
pub open spec fn marker_from(ls: Seq<Seq<char>>, i: int) -> Option<int>
    decreases ls.len() - i,
{
    if i < 0 || i >= ls.len() {
        None
    } else if opens_border(ls[i]) {
        Some(i)
    } else {
        marker_from(ls, i + 1)
    }
}

/// Width, depth and height of the net with lines `ls`: the width is the
/// length of the first line, trimmed; the depth is the index of the first
/// later line that opens a border, which is where the walls begin below the
/// top; the height is what is left of the lines once top and floor have
/// their depth each.
pub open spec fn net_dims(ls: Seq<Seq<char>>) -> Result<(int, int, int), FormatError> {
    match marker_from(ls, 1) {
        None => Err(FormatError::MissingMarker),
        Some(i) => {
            let d = i;
            if ls.len() < 2 * d {
                Err(FormatError::TooFewLines)
            } else {
                Ok((trimmed(ls[0]).len() as int, d, ls.len() - 2 * d))
            }
        },
    }
}

/// The number of characters of `s` other than line feeds and carriage
/// returns.
pub open spec fn net_cells(s: Seq<char>) -> nat
    decreases s.len(),
{
    if s.len() == 0 {
        0
    } else {
        net_cells(s.drop_last()) + if s.last() == '\n' || s.last() == '\r' {
            0nat
        } else {
            1nat
        }
    }
}

/// The number of cells that the six faces of a room take together.
pub open spec fn surface(w: int, d: int, h: int) -> int {
    2 * (w * d + w * h + d * h)
}

pub open spec fn frame_fits(ls: Seq<Seq<char>>, f: Face, w: int, d: int, h: int) -> bool {
    let fr = face_frame(f, w, d, h);
    fits(ls, fr.0, fr.1, fr.2, fr.3)
}

pub open spec fn all_faces_fit(ls: Seq<Seq<char>>, w: int, d: int, h: int) -> bool {
    forall|f: Face| frame_fits(ls, f, w, d, h)
}

/// What is wrong with the net whose text is `content`, if anything: its
/// dimensions first, then its area, then its size, then whether each face
/// lies within it.
pub open spec fn net_error(content: Seq<char>) -> Option<FormatError> {
    let ls = lines(content);
    match net_dims(ls) {
        Err(e) => Some(e),
        Ok(dims) => {
            let (w, d, h) = dims;
            if net_cells(content) != surface(w, d, h) {
                Some(FormatError::AreaMismatch)
            } else if w > MAX_EXTENT || d > MAX_EXTENT || h > MAX_EXTENT {
                Some(FormatError::TooLarge)
            } else if !all_faces_fit(ls, w, d, h) {
                Some(FormatError::OutOfBounds)
            } else {
                None
            }
        },
    }
}

/// The symbols of face `f` in the net with lines `ls`.
pub open spec fn face_marks(ls: Seq<Seq<char>>, f: Face, w: int, d: int, h: int) -> Seq<Mark> {
    let fr = face_frame(f, w, d, h);
    grid_marks(ls, fr.0, fr.1, fr.2, fr.3)
}

/// `r` is the room that the net `content` describes, at the origin.
pub open spec fn decodes(r: Room, content: Seq<char>) -> bool {
    let ls = lines(content);
    &&& net_dims(ls) == Ok::<(int, int, int), FormatError>(
        (r.width as int, r.depth as int, r.height as int),
    )
    &&& r.center == origin()
    &&& forall|f: Face|
        #[trigger] r.marks(f) == face_marks(ls, f, r.width as int, r.depth as int, r.height as int)
}

/// A net whose character count differs from the surface of the room that
/// its lines describe is rejected with `AreaMismatch`, before any face is cut.
pub proof fn lemma_area_mismatch_rejected(content: Seq<char>, w: int, d: int, h: int)
    requires
        net_dims(lines(content)) == Ok::<(int, int, int), FormatError>((w, d, h)),
        net_cells(content) != surface(w, d, h),
    ensures
        net_error(content) == Some(FormatError::AreaMismatch),
{
}

/// Each face of a decoded net holds exactly its symbols: every mark is a cell
/// of the face, at that cell's column and row within the face and with its
/// character, which is no border character; and every such cell yields a
/// mark.
pub proof fn lemma_face_marks_exact(ls: Seq<Seq<char>>, f: Face, w: int, d: int, h: int)
    requires
        0 <= w <= usize::MAX,
        0 <= d <= usize::MAX,
        0 <= h <= usize::MAX,
        all_faces_fit(ls, w, d, h),
    ensures
        ({
            let fr = face_frame(f, w, d, h);
            let m = face_marks(ls, f, w, d, h);
            &&& forall|k: int|
                0 <= k < m.len() ==> {
                    &&& (#[trigger] m[k]).0 < fr.2
                    &&& m[k].1 < fr.3
                    &&& m[k].2 == ls[fr.1 + m[k].1][fr.0 + m[k].0]
                    &&& !is_border(m[k].2)
                }
            &&& forall|c: int, r: int|
                0 <= c < fr.2 && 0 <= r < fr.3 && !is_border(ls[fr.1 + r][fr.0 + c]) ==> exists|
                    k: int,
                | 0 <= k < m.len() && #[trigger] m[k] == (c as usize, r as usize, #[trigger] ls[fr.1
                    + r][fr.0 + c])
        }),
{
    let fr = face_frame(f, w, d, h);
    let m = face_marks(ls, f, w, d, h);
    assert(frame_fits(ls, f, w, d, h));
    lemma_grid_marks_exact(ls, fr.0, fr.1, fr.2, fr.3);
    assert(m == grid_marks(ls, fr.0, fr.1, fr.2, fr.3));
    assert forall|c: int, r: int|
        0 <= c < fr.2 && 0 <= r < fr.3 && !is_border(ls[fr.1 + r][fr.0 + c]) implies exists|k: int|
        0 <= k < m.len() && #[trigger] m[k] == (c as usize, r as usize, #[trigger] ls[fr.1 + r][fr.0
            + c]) by {
        let k = choose|k: int|
            0 <= k < m.len() && #[trigger] grid_marks(ls, fr.0, fr.1, fr.2, fr.3)[k] == (
                c as usize,
                r as usize,
                ls[fr.1 + r][fr.0 + c],
            );
        assert(m[k] == (c as usize, r as usize, ls[fr.1 + r][fr.0 + c]));
    }
}

fn count_cells(s: &Vec<char>) -> (n: usize)
    ensures
        n == net_cells(s@),
{
    let mut n: usize = 0;
    for i in 0..s.len()
        invariant
            n == net_cells(s@.subrange(0, i as int)),
            n <= i,
    {
        assert(s@.subrange(0, i + 1).drop_last() =~= s@.subrange(0, i as int));
        if s[i] != '\n' && s[i] != '\r' {
            n += 1;
        }
    }
    assert(s@.subrange(0, s.len() as int) =~= s@);
    n
}

/// `surface(w, d, h)` where it fits in a `usize`.
fn checked_surface(w: usize, d: usize, h: usize) -> (r: Option<usize>)
    ensures
        r matches Some(a) ==> a == surface(w as int, d as int, h as int),
        r is None ==> surface(w as int, d as int, h as int) > usize::MAX,
{
    proof {
        assert(0 <= w * d && 0 <= w * h && 0 <= d * h) by (nonlinear_arith);
    }
    let wd = match w.checked_mul(d) {
        Some(v) => v,
        None => return None,
    };
    let wh = match w.checked_mul(h) {
        Some(v) => v,
        None => return None,
    };
    let dh = match d.checked_mul(h) {
        Some(v) => v,
        None => return None,
    };
    let s1 = match wd.checked_add(wh) {
        Some(v) => v,
        None => return None,
    };
    let s2 = match s1.checked_add(dh) {
        Some(v) => v,
        None => return None,
    };
    s2.checked_mul(2)
}

/// Where face `f` lies in the net (see `face_frame`).
fn frame(f: Face, w: usize, d: usize, h: usize) -> (r: (u128, u128, u128, u128))
    ensures
        (r.0 as int, r.1 as int, r.2 as int, r.3 as int) == face_frame(f, w as int, d as int, h as int),
        r.0 <= 3 * (usize::MAX as int),
        r.1 <= 2 * (usize::MAX as int),
        r.2 <= usize::MAX,
        r.3 <= usize::MAX,
{
    let (w, d, h) = (w as u128, d as u128, h as u128);
    match f {
        Face::Top => (0, 0, w, d),
        Face::Back => (0, d, w, h),
        Face::Right => (w, d, d, h),
        Face::Front => (w + d, d, w, h),
        Face::Left => (2 * w + d, d, d, h),
        Face::Floor => (0, d + h, w, d),
    }
}

/// Whether face `f` lies within the lines `ls`.
fn face_fits(ls: &Vec<Vec<char>>, f: Face, w: usize, d: usize, h: usize) -> (b: bool)
    ensures
        b == frame_fits(views(ls@), f, w as int, d as int, h as int),
{
    let ghost rs = views(ls@);
    assert(rs.len() == ls@.len());
    let (x, y, cols, rows) = frame(f, w, d, h);
    if cols == 0 || rows == 0 {
        return true;
    }
    if y + rows > ls.len() as u128 {
        return false;
    }
    let y = y as usize;
    let rows = rows as usize;
    let mut r = y;
    while r < y + rows
        invariant
            y <= r <= y + rows <= ls.len(),
            x <= 3 * (usize::MAX as int),
            cols <= usize::MAX,
            rs == views(ls@),
            rs.len() == ls@.len(),
            face_frame(f, w as int, d as int, h as int) == (x as int, y as int, cols as int, rows as int),
            cols > 0,
            rows > 0,
            forall|k: int| y <= k < r ==> x + cols <= #[trigger] rs[k].len(),
        decreases y + rows - r,
    {
        assert(rs[r as int] == ls@[r as int]@);
        let line_len = ls[r].len();
        if x + cols > line_len as u128 {
            assert(!fits(rs, x as int, y as int, cols as int, rows as int)) by {
                assert(x + cols > rs[r as int].len());
            }
            return false;
        }
        r += 1;
    }
    true
}

/// The symbols of face `f` of the net with lines `ls`, which lies within it.
fn cut_face(ls: &Vec<Vec<char>>, f: Face, w: usize, d: usize, h: usize) -> (m: Vec<Mark>)
    requires
        frame_fits(views(ls@), f, w as int, d as int, h as int),
    ensures
        m@ == face_marks(views(ls@), f, w as int, d as int, h as int),
{
    let (x, y, cols, rows) = frame(f, w, d, h);
    assert(face_frame(f, w as int, d as int, h as int) == (x as int, y as int, cols as int, rows as int));
    if cols == 0 || rows == 0 {
        return Vec::new();
    }
    let ghost rs = views(ls@);
    assert(rs.len() == ls@.len());
    assert(fits(rs, x as int, y as int, cols as int, rows as int));
    assert(y + rows <= rs.len());
    assert(x + cols <= rs[y as int].len());
    assert(rs[y as int] == ls@[y as int]@);
    assert(y < ls.len());
    let first = y as usize;
    let line_len = ls[first].len();
    assert(x + cols <= line_len);
    cut_marks(ls, x as usize, first, cols as usize, rows as usize)
}

/// The width, depth and height of the net with lines `ls` (see `net_dims`).
pub fn net_dimensions(ls: &Vec<Vec<char>>) -> (r: Result<(usize, usize, usize), FormatError>)
    ensures
        match r {
            Ok(dims) => net_dims(views(ls@)) == Ok::<(int, int, int), FormatError>(
                (dims.0 as int, dims.1 as int, dims.2 as int),
            ),
            Err(e) => net_dims(views(ls@)) == Err::<(int, int, int), FormatError>(e),
        },
{
    let ghost rs = views(ls@);
    let mut i: usize = 1;
    while i < ls.len() && !(ls[i].len() > 0 && ls[i][0] == '+')
        invariant
            1 <= i,
            rs == views(ls@),
            marker_from(rs, 1) == marker_from(rs, i as int),
        decreases ls.len() - i,
    {
        assert(rs[i as int] == ls@[i as int]@);
        i += 1;
    }
    if i >= ls.len() {
        return Err(FormatError::MissingMarker);
    }
    assert(rs[i as int] == ls@[i as int]@);
    let depth = i;
    let n = ls.len();
    if n - depth < depth {
        return Err(FormatError::TooFewLines);
    }
    let height = n - depth - depth;
    let width = trim(&ls[0]).len();
    assert(rs[0] == ls@[0]@);
    Ok((width, depth, height))
}

/// Whether the net `content` holds as many cells as the six faces of a room
/// `w` wide, `d` deep and `h` high take together; every character but line
/// feeds and carriage returns counts.
pub fn area_matches(content: &Vec<char>, w: usize, d: usize, h: usize) -> (b: bool)
    ensures
        b == (net_cells(content@) == surface(w as int, d as int, h as int)),
{
    let cells = count_cells(content);
    match checked_surface(w, d, h) {
        Some(a) => a == cells,
        None => false,
    }
}

/// Cuts the six faces of a room `w` wide, `d` deep and `h` high out of the
/// lines `ls` of its net, the room placed at the origin; fails with
/// `OutOfBounds` where a face reaches past the end of a line.
pub fn decode_net(ls: &Vec<Vec<char>>, w: usize, d: usize, h: usize) -> (r: Result<Room, FormatError>)
    ensures
        match r {
            Ok(room) => {
                &&& all_faces_fit(views(ls@), w as int, d as int, h as int)
                &&& room.width == w && room.depth == d && room.height == h
                &&& room.center == origin()
                &&& forall|f: Face| #[trigger]
                    room.marks(f) == face_marks(views(ls@), f, w as int, d as int, h as int)
                &&& room.wf()
            },
            Err(e) => !all_faces_fit(views(ls@), w as int, d as int, h as int) && e
                == FormatError::OutOfBounds,
        },
{
    let ghost rs = views(ls@);
    let faces = [Face::Top, Face::Back, Face::Right, Face::Front, Face::Left, Face::Floor];
    let mut k: usize = 0;
    while k < 6
        invariant
            rs == views(ls@),
            faces@ == seq![Face::Top, Face::Back, Face::Right, Face::Front, Face::Left, Face::Floor],
            forall|j: int| 0 <= j < k ==> frame_fits(rs, #[trigger] faces@[j], w as int, d as int, h as int),
        decreases 6 - k,
    {
        if !face_fits(ls, faces[k], w, d, h) {
            return Err(FormatError::OutOfBounds);
        }
        k += 1;
    }
    assert(all_faces_fit(rs, w as int, d as int, h as int)) by {
        assert forall|f: Face| frame_fits(rs, f, w as int, d as int, h as int) by {
            match f {
                Face::Top => assert(faces@[0] == f),
                Face::Back => assert(faces@[1] == f),
                Face::Right => assert(faces@[2] == f),
                Face::Front => assert(faces@[3] == f),
                Face::Left => assert(faces@[4] == f),
                Face::Floor => assert(faces@[5] == f),
            }
        }
    }
    let room = Room {
        width: w,
        depth: d,
        height: h,
        center: Point { x: 0, y: 0, z: 0 },
        top: cut_face(ls, Face::Top, w, d, h),
        back: cut_face(ls, Face::Back, w, d, h),
        right: cut_face(ls, Face::Right, w, d, h),
        front: cut_face(ls, Face::Front, w, d, h),
        left: cut_face(ls, Face::Left, w, d, h),
        floor: cut_face(ls, Face::Floor, w, d, h),
    };
    proof {
        assert forall|f: Face, k: int| 0 <= k < room.marks(f).len() implies {
            let m = #[trigger] room.marks(f)[k];
            &&& (m.0 as int) < room.face_size(f).0
            &&& (m.1 as int) < room.face_size(f).1
        } by {
            let fr = face_frame(f, w as int, d as int, h as int);
            assert(frame_fits(rs, f, w as int, d as int, h as int));
            lemma_grid_marks_exact(rs, fr.0, fr.1, fr.2, fr.3);
            assert(room.marks(f) == grid_marks(rs, fr.0, fr.1, fr.2, fr.3));
        }
    }
    Ok(room)
}

/// Reads the room that the net `content` describes, placed at the origin, or
/// says what is wrong with the net (see `net_error`).
pub fn parse_room(content: &Vec<char>) -> (r: Result<Room, FormatError>)
    ensures
        match r {
            Ok(room) => {
                &&& net_error(content@) is None
                &&& decodes(room, content@)
                &&& room.wf()
                &&& room.width <= MAX_EXTENT && room.depth <= MAX_EXTENT && room.height <= MAX_EXTENT
            },
            Err(e) => net_error(content@) == Some(e),
        },
{
    let ls = split_lines(content);
    let (w, d, h) = match net_dimensions(&ls) {
        Ok(dims) => dims,
        Err(e) => return Err(e),
    };
    if !area_matches(content, w, d, h) {
        return Err(FormatError::AreaMismatch);
    }
    if w > MAX_EXTENT || d > MAX_EXTENT || h > MAX_EXTENT {
        return Err(FormatError::TooLarge);
    }
    decode_net(&ls, w, d, h)
}

} // verus!
