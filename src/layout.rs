use vstd::prelude::*;

use crate::index::{face_at, positions_of, CharacterIndex};
use crate::room::{Face, Point, Room};
use crate::shape::{
    cells, lemma_lex_min_within, lemma_pairs_within, lex_min, lowest, mirror, mirror_cols, mirror_rows, pair_views,
    same_shape, shapes_match, to_pairs, within, GridPos, MAX_EXTENT,
};

verus! {

/// No more rooms than this are placed. The bound, with `MAX_EXTENT`, exists
/// only to keep the coordinates of the layout within `i64`; a document with
/// more rooms is rejected with `TooLarge`.
pub const MAX_ROOMS: usize = 1_000_000;

/// The face that touches `f` when two rooms stand side by side.
pub open spec fn opposite(f: Face) -> Face {
    match f {
        Face::Top => Face::Floor,
        Face::Floor => Face::Top,
        Face::Back => Face::Front,
        Face::Front => Face::Back,
        Face::Left => Face::Right,
        Face::Right => Face::Left,
    }
}

pub fn opposite_face(f: Face) -> (g: Face)
    ensures
        g == opposite(f),
{
    match f {
        Face::Top => Face::Floor,
        Face::Floor => Face::Top,
        Face::Back => Face::Front,
        Face::Front => Face::Back,
        Face::Left => Face::Right,
        Face::Right => Face::Left,
    }
}

/// The faces of the current room that the layout tries, in its order: left,
/// right, top, floor, front, back.
pub open spec fn contact_face(j: int) -> Face {
    if j == 0 {
        Face::Left
    } else if j == 1 {
        Face::Right
    } else if j == 2 {
        Face::Top
    } else if j == 3 {
        Face::Floor
    } else if j == 4 {
        Face::Front
    } else {
        Face::Back
    }
}

/// A top or floor face: its neighbour lies above or below.
pub open spec fn is_level(f: Face) -> bool {
    f == Face::Top || f == Face::Floor
}

/// The extent of a room along the axis that face `f` faces.
pub open spec fn extent(r: Room, f: Face) -> int {
    match f {
        Face::Left | Face::Right => r.width as int,
        Face::Top | Face::Floor => r.height as int,
        Face::Front | Face::Back => r.depth as int,
    }
}

/// How far `c` lies beyond `o` in the direction that face `f` of `c` looks
/// away from: positive when `f` faces `o`.
pub open spec fn gap_along(f: Face, c: Point, o: Point) -> int {
    match f {
        Face::Left => c.x - o.x,
        Face::Right => o.x - c.x,
        Face::Top => o.y - c.y,
        Face::Floor => c.y - o.y,
        Face::Front => o.z - c.z,
        Face::Back => c.z - o.z,
    }
}

/// The positions `there` on the face of room `o` that touches face `f` of
/// another room, reflected so that they read as seen from that other room:
/// across the columns for a wall, across the rows for a top or floor.
pub open spec fn mirrored(o: Room, f: Face, there: Seq<GridPos>) -> Seq<(int, int)> {
    let size = o.face_size(opposite(f));
    if is_level(f) {
        mirror_rows(cells(there), size.1)
    } else {
        mirror_cols(cells(there), size.0)
    }
}

/// Face `f` of room `cur` shows positions `here`, the touching face of room
/// `other` shows `there`, and the two have the same shape.
pub open spec fn matches_at(
    rooms: Seq<Room>,
    f: Face,
    cur: int,
    other: int,
    here: Seq<GridPos>,
    there: Seq<GridPos>,
) -> bool {
    here.len() > 0 && there.len() > 0 && same_shape(cells(here), mirrored(rooms[other], f, there))
}

/// The center of room `c` once its face `f` touches the opposite face of room
/// `o`. Along the axis of `f` the centers lie half of each room's extent
/// apart; across it, `c` moves by the offset between the least cells `a`
/// (of `c`'s face) and `b` (of `o`'s face, mirrored). All in half cells.
pub open spec fn placed_center(c: Room, o: Room, f: Face, a: (int, int), b: (int, int)) -> Point {
    let dc = 2 * (a.0 - b.0);
    let dr = 2 * (a.1 - b.1);
    let gap = extent(c, f) + extent(o, f);
    let p = o.center;
    match f {
        Face::Left => Point { x: (p.x + gap) as i64, y: (p.y + dr) as i64, z: (p.z + dc) as i64 },
        Face::Right => Point { x: (p.x - gap) as i64, y: (p.y + dr) as i64, z: (p.z + dc) as i64 },
        Face::Top => Point { x: (p.x - dc) as i64, y: (p.y - gap) as i64, z: (p.z + dr) as i64 },
        Face::Floor => Point { x: (p.x - dc) as i64, y: (p.y + gap) as i64, z: (p.z + dr) as i64 },
        Face::Front => Point { x: (p.x + dc) as i64, y: (p.y + dr) as i64, z: (p.z - gap) as i64 },
        Face::Back => Point { x: (p.x + dc) as i64, y: (p.y + dr) as i64, z: (p.z + gap) as i64 },
    }
}

/// The rooms after trying to set room `cur` against room `other` through
/// face `f` of `cur`: moved if the faces match, untouched otherwise.
pub open spec fn place(
    rooms: Seq<Room>,
    f: Face,
    cur: int,
    other: int,
    here: Seq<GridPos>,
    there: Seq<GridPos>,
) -> Seq<Room> {
    if matches_at(rooms, f, cur, other, here, there) {
        let c = rooms[cur];
        let center = placed_center(
            c,
            rooms[other],
            f,
            lex_min(cells(here)),
            lex_min(mirrored(rooms[other], f, there)),
        );
        rooms.update(
            cur,
            Room {
                width: c.width,
                depth: c.depth,
                height: c.height,
                center,
                top: c.top,
                back: c.back,
                right: c.right,
                front: c.front,
                left: c.left,
                floor: c.floor,
            },
        )
    } else {
        rooms
    }
}

/// Room `cur` tried against rooms `0 .. o` in turn, for symbol `k` and face `f`.
pub open spec fn relax_others(
    rooms: Seq<Room>,
    idx: CharacterIndex,
    k: int,
    f: Face,
    cur: int,
    o: int,
) -> Seq<Room>
    decreases o,
{
    if o <= 0 {
        rooms
    } else {
        let prev = relax_others(rooms, idx, k, f, cur, o - 1);
        place(prev, f, cur, o - 1, idx.positions(k, f, cur), idx.positions(k, opposite(f), o - 1))
    }
}

/// Rooms `0 .. c` in turn, each tried against every room before it.
pub open spec fn relax_rooms(rooms: Seq<Room>, idx: CharacterIndex, k: int, f: Face, c: int) -> Seq<
    Room,
>
    decreases c,
{
    if c <= 0 {
        rooms
    } else {
        relax_others(relax_rooms(rooms, idx, k, f, c - 1), idx, k, f, c - 1, c - 1)
    }
}

/// The first `j` faces of `contact_face` in turn, for symbol `k`.
pub open spec fn relax_faces(rooms: Seq<Room>, idx: CharacterIndex, k: int, j: int) -> Seq<Room>
    decreases j,
{
    if j <= 0 {
        rooms
    } else {
        let prev = relax_faces(rooms, idx, k, j - 1);
        relax_rooms(prev, idx, k, contact_face(j - 1), prev.len() as int)
    }
}

/// The first `s` symbols of the index in turn.
pub open spec fn relax_symbols(rooms: Seq<Room>, idx: CharacterIndex, s: int) -> Seq<Room>
    decreases s,
{
    if s <= 0 {
        rooms
    } else {
        relax_faces(relax_symbols(rooms, idx, s - 1), idx, s - 1, 6)
    }
}

/// The rooms after the layout: two passes over every symbol.
pub open spec fn laid_out(rooms: Seq<Room>, idx: CharacterIndex) -> Seq<Room> {
    let n = idx.symbols@.len() as int;
    relax_symbols(relax_symbols(rooms, idx, n), idx, n)
}

/// How far from the origin room `i` may lie, along each axis, in half cells.
pub open spec fn reach(i: int) -> int {
    i * 2 * MAX_EXTENT
}

pub open spec fn near(p: Point, b: int) -> bool {
    -b <= p.x <= b && -b <= p.y <= b && -b <= p.z <= b
}

/// Rooms that the layout can place without leaving the range of its
/// coordinates: few enough, none too large, each well formed, and each
/// center within the reach of its number.
pub open spec fn placeable(rooms: Seq<Room>) -> bool {
    &&& rooms.len() <= MAX_ROOMS
    &&& forall|i: int|
        0 <= i < rooms.len() ==> {
            &&& (#[trigger] rooms[i]).wf()
            &&& rooms[i].width <= MAX_EXTENT
            &&& rooms[i].depth <= MAX_EXTENT
            &&& rooms[i].height <= MAX_EXTENT
            &&& near(rooms[i].center, reach(i))
        }
}

/// The same rooms but for where they stand.
pub open spec fn same_but_centers(a: Seq<Room>, b: Seq<Room>) -> bool {
    &&& a.len() == b.len()
    &&& forall|i: int|
        0 <= i < a.len() ==> {
            &&& (#[trigger] a[i]).width == b[i].width
            &&& a[i].depth == b[i].depth
            &&& a[i].height == b[i].height
            &&& a[i].top == b[i].top
            &&& a[i].back == b[i].back
            &&& a[i].right == b[i].right
            &&& a[i].front == b[i].front
            &&& a[i].left == b[i].left
            &&& a[i].floor == b[i].floor
        }
}

/// No face of room `i` matches the touching face of a room before it, for
/// any symbol of the index.
pub open spec fn unmatched(rooms: Seq<Room>, idx: CharacterIndex, i: int) -> bool {
    forall|k: int, j: int, o: int|
        0 <= k < idx.symbols@.len() && 0 <= j < 6 && 0 <= o < i ==> !#[trigger] matches_at(
            rooms,
            contact_face(j),
            i,
            o,
            idx.positions(k, contact_face(j), i),
            idx.positions(k, opposite(contact_face(j)), o),
        )
}

proof fn lemma_reach_grows(i: int, j: int)
    requires
        0 <= i < j,
    ensures
        reach(i) + 2 * MAX_EXTENT <= reach(j),
        0 <= reach(i),
{
    assert(i * 2 * MAX_EXTENT + 2 * MAX_EXTENT <= j * 2 * MAX_EXTENT) by (nonlinear_arith)
        requires
            0 <= i < j,
    ;
    assert(0 <= i * 2 * MAX_EXTENT) by (nonlinear_arith)
        requires
            0 <= i,
    ;
}

proof fn lemma_same_but_centers_trans(a: Seq<Room>, b: Seq<Room>, c: Seq<Room>)
    requires
        same_but_centers(a, b),
        same_but_centers(b, c),
    ensures
        same_but_centers(a, c),
{
    assert forall|i: int| 0 <= i < a.len() implies {
        &&& (#[trigger] a[i]).width == c[i].width
        &&& a[i].depth == c[i].depth
        &&& a[i].height == c[i].height
        &&& a[i].top == c[i].top
        &&& a[i].back == c[i].back
        &&& a[i].right == c[i].right
        &&& a[i].front == c[i].front
        &&& a[i].left == c[i].left
        &&& a[i].floor == c[i].floor
    } by {
        assert(a[i].width == b[i].width);
        assert(b[i].width == c[i].width);
    }
}

proof fn lemma_same_but_centers_refl(a: Seq<Room>)
    ensures
        same_but_centers(a, a),
{
}

/// Whether faces match depends on the rooms' extents and symbols alone.
proof fn lemma_matches_same(
    a: Seq<Room>,
    b: Seq<Room>,
    f: Face,
    cur: int,
    other: int,
    here: Seq<GridPos>,
    there: Seq<GridPos>,
)
    requires
        same_but_centers(a, b),
        0 <= other < a.len(),
    ensures
        matches_at(a, f, cur, other, here, there) == matches_at(b, f, cur, other, here, there),
{
    assert(a[other].width == b[other].width);
    assert(a[other].face_size(opposite(f)) == b[other].face_size(opposite(f)));
}

/// Placing moves at most room `cur`, and only its center.
proof fn lemma_place_keeps(
    rooms: Seq<Room>,
    f: Face,
    cur: int,
    other: int,
    here: Seq<GridPos>,
    there: Seq<GridPos>,
)
    requires
        0 <= cur < rooms.len(),
    ensures
        same_but_centers(place(rooms, f, cur, other, here, there), rooms),
        forall|i: int|
            0 <= i < rooms.len() && i != cur ==> #[trigger] place(
                rooms,
                f,
                cur,
                other,
                here,
                there,
            )[i] == rooms[i],
{
}

proof fn lemma_positions_within(room: Room, f: Face, s: char)
    requires
        room.wf(),
        room.width <= MAX_EXTENT,
        room.depth <= MAX_EXTENT,
        room.height <= MAX_EXTENT,
    ensures
        within(cells(positions_of(room.marks(f), s)), room.face_size(f).0, room.face_size(f).1),
        forall|i: int|
            0 <= i < positions_of(room.marks(f), s).len() ==> (#[trigger] positions_of(
                room.marks(f),
                s,
            )[i]).col <= MAX_EXTENT && positions_of(room.marks(f), s)[i].row <= MAX_EXTENT,
{
    lemma_positions_from_marks(room.marks(f), s);
    let ps = positions_of(room.marks(f), s);
    assert forall|i: int| 0 <= i < ps.len() implies 0 <= #[trigger] cells(ps)[i].0 < room.face_size(
        f,
    ).0 && 0 <= cells(ps)[i].1 < room.face_size(f).1 && ps[i].col <= MAX_EXTENT && ps[i].row
        <= MAX_EXTENT by {
        let k = choose|k: int|
            0 <= k < room.marks(f).len() && room.marks(f)[k].0 == ps[i].col && room.marks(f)[k].1
                == ps[i].row;
        let m = room.marks(f)[k];
        assert((m.0 as int) < room.face_size(f).0);
    }
    assert forall|i: int| 0 <= i < ps.len() implies (#[trigger] ps[i]).col <= MAX_EXTENT
        && ps[i].row <= MAX_EXTENT by {
        assert(cells(ps)[i].0 == ps[i].col);
    }
}

proof fn lemma_positions_from_marks(marks: Seq<(usize, usize, char)>, s: char)
    ensures
        forall|i: int|
            0 <= i < positions_of(marks, s).len() ==> exists|k: int|
                0 <= k < marks.len() && marks[k].0 == (#[trigger] positions_of(marks, s)[i]).col
                    && marks[k].1 == positions_of(marks, s)[i].row,
    decreases marks.len(),
{
    if marks.len() > 0 {
        let prev = marks.drop_last();
        lemma_positions_from_marks(prev, s);
        assert forall|i: int| 0 <= i < positions_of(marks, s).len() implies exists|k: int|
            0 <= k < marks.len() && marks[k].0 == (#[trigger] positions_of(marks, s)[i]).col
                && marks[k].1 == positions_of(marks, s)[i].row by {
            if i < positions_of(prev, s).len() {
                assert(positions_of(marks, s)[i] == positions_of(prev, s)[i]);
                let k = choose|k: int|
                    0 <= k < prev.len() && prev[k].0 == (#[trigger] positions_of(prev, s)[i]).col
                        && prev[k].1 == positions_of(prev, s)[i].row;
                assert(marks[k] == prev[k]);
            } else {
                assert(marks[marks.len() - 1] == marks.last());
            }
        }
    }
}

proof fn lemma_mirrored_within(o: Room, f: Face, there: Seq<GridPos>)
    requires
        within(cells(there), o.face_size(opposite(f)).0, o.face_size(opposite(f)).1),
    ensures
        within(mirrored(o, f, there), o.face_size(opposite(f)).0, o.face_size(opposite(f)).1),
{
}

/// Placing keeps the rooms placeable.
proof fn lemma_place_placeable(
    rooms: Seq<Room>,
    idx: CharacterIndex,
    k: int,
    f: Face,
    cur: int,
    other: int,
)
    requires
        placeable(rooms),
        0 <= other < cur < rooms.len(),
        idx.positions(k, f, cur) == positions_of(rooms[cur].marks(f), idx.symbols@[k]),
        idx.positions(k, opposite(f), other) == positions_of(
            rooms[other].marks(opposite(f)),
            idx.symbols@[k],
        ),
    ensures
        placeable(place(rooms, f, cur, other, idx.positions(k, f, cur), idx.positions(k, opposite(f), other))),
{
    let here = idx.positions(k, f, cur);
    let there = idx.positions(k, opposite(f), other);
    let after = place(rooms, f, cur, other, here, there);
    lemma_place_keeps(rooms, f, cur, other, here, there);
    if matches_at(rooms, f, cur, other, here, there) {
        let c = rooms[cur];
        let o = rooms[other];
        lemma_positions_within(c, f, idx.symbols@[k]);
        lemma_positions_within(o, opposite(f), idx.symbols@[k]);
        lemma_mirrored_within(o, f, there);
        lemma_lex_min_within(cells(here), c.face_size(f).0, c.face_size(f).1);
        lemma_lex_min_within(
            mirrored(o, f, there),
            o.face_size(opposite(f)).0,
            o.face_size(opposite(f)).1,
        );
        lemma_reach_grows(other, cur);
        assert(near(o.center, reach(other)));
        assert(near(after[cur].center, reach(cur)));
        assert forall|i: int| 0 <= i < after.len() implies {
            &&& (#[trigger] after[i]).wf()
            &&& after[i].width <= MAX_EXTENT
            &&& after[i].depth <= MAX_EXTENT
            &&& after[i].height <= MAX_EXTENT
            &&& near(after[i].center, reach(i))
        } by {
            if i == cur {
                assert forall|g: Face| #[trigger] after[i].marks(g) == c.marks(g) by {}
            }
        }
    }
}

/// The positions of the `k`-th symbol on face `f` of room `cur` and on the
/// touching face of room `other`, both taken from the index.
proof fn lemma_index_positions(
    rooms: Seq<Room>,
    base: Seq<Room>,
    idx: CharacterIndex,
    k: int,
    f: Face,
    r: int,
)
    requires
        idx.indexes(base),
        same_but_centers(rooms, base),
        0 <= k < idx.symbols@.len(),
        0 <= r < rooms.len(),
    ensures
        idx.positions(k, f, r) == positions_of(rooms[r].marks(f), idx.symbols@[k]),
        idx.hits@[k]@.len() == 6,
        idx.hits@[k]@[crate::index::face_slot(f)]@.len() == rooms.len(),
{
    let i = crate::index::face_slot(f);
    assert(face_at(i) == f);
    assert(0 <= i < 6);
    assert(idx.hits@[k]@[i]@.len() == base.len());
    assert(idx.hits@[k]@[i]@[r]@ == positions_of(base[r].marks(face_at(i)), idx.symbols@[k]));
    assert(rooms[r].marks(f) == base[r].marks(f));
}

/// Sets room `cur` against room `other` through face `f` of `cur` for the
/// `k`-th symbol of the index, if the faces match.
fn try_place(
    rooms: &mut Vec<Room>,
    idx: &CharacterIndex,
    k: usize,
    f: Face,
    cur: usize,
    other: usize,
    Ghost(base): Ghost<Seq<Room>>,
)
    requires
        placeable(old(rooms)@),
        same_but_centers(old(rooms)@, base),
        idx.indexes(base),
        k < idx.symbols@.len(),
        other < cur < old(rooms)@.len(),
    ensures
        final(rooms)@ == place(
            old(rooms)@,
            f,
            cur as int,
            other as int,
            idx.positions(k as int, f, cur as int),
            idx.positions(k as int, opposite(f), other as int),
        ),
        placeable(final(rooms)@),
        same_but_centers(final(rooms)@, base),
{
    let ghost start = rooms@;
    let g = opposite_face(f);
    proof {
        lemma_index_positions(start, base, *idx, k as int, f, cur as int);
        lemma_index_positions(start, base, *idx, k as int, g, other as int);
        lemma_place_placeable(start, *idx, k as int, f, cur as int, other as int);
        lemma_place_keeps(
            start,
            f,
            cur as int,
            other as int,
            idx.positions(k as int, f, cur as int),
            idx.positions(k as int, g, other as int),
        );
        lemma_same_but_centers_trans(
            place(
                start,
                f,
                cur as int,
                other as int,
                idx.positions(k as int, f, cur as int),
                idx.positions(k as int, g, other as int),
            ),
            start,
            base,
        );
    }
    let here = idx.at(k, f, cur);
    let there = idx.at(k, g, other);
    if here.len() == 0 || there.len() == 0 {
        return;
    }
    proof {
        lemma_positions_within(start[cur as int], f, idx.symbols@[k as int]);
        lemma_positions_within(start[other as int], g, idx.symbols@[k as int]);
        lemma_mirrored_within(start[other as int], f, there@);
    }
    let a = to_pairs(here);
    let b0 = to_pairs(there);
    proof {
        lemma_pairs_within(a@, start[cur as int].face_size(f).0, start[cur as int].face_size(f).1);
        lemma_pairs_within(b0@, start[other as int].face_size(g).0, start[other as int].face_size(g).1);
    }
    let o = &rooms[other];
    let level = match f {
        Face::Top | Face::Floor => true,
        _ => false,
    };
    let (cols, rows) = match g {
        Face::Top | Face::Floor => (o.width, o.depth),
        Face::Back | Face::Front => (o.width, o.height),
        Face::Right | Face::Left => (o.depth, o.height),
    };
    assert((cols as int, rows as int) == start[other as int].face_size(g));
    let b = if level {
        mirror(&b0, rows as i64, true)
    } else {
        mirror(&b0, cols as i64, false)
    };
    assert(pair_views(b@) == mirrored(start[other as int], f, there@));
    assert(pair_views(a@) == cells(here@));
    proof {
        lemma_pairs_within(b@, cols as int, rows as int);
    }
    if !shapes_match(&a, &b) {
        return;
    }
    let ma = lowest(&a);
    let mb = lowest(&b);
    proof {
        lemma_lex_min_within(cells(here@), start[cur as int].face_size(f).0, start[cur as int].face_size(f).1);
        lemma_lex_min_within(pair_views(b@), cols as int, rows as int);
        lemma_reach_grows(other as int, cur as int);
    }
    let dc = 2 * (ma.0 - mb.0);
    let dr = 2 * (ma.1 - mb.1);
    let p = o.center;
    let c = &rooms[cur];
    let gap = match f {
        Face::Left | Face::Right => c.width as i64 + o.width as i64,
        Face::Top | Face::Floor => c.height as i64 + o.height as i64,
        Face::Front | Face::Back => c.depth as i64 + o.depth as i64,
    };
    let center = match f {
        Face::Left => Point { x: p.x + gap, y: p.y + dr, z: p.z + dc },
        Face::Right => Point { x: p.x - gap, y: p.y + dr, z: p.z + dc },
        Face::Top => Point { x: p.x - dc, y: p.y - gap, z: p.z + dr },
        Face::Floor => Point { x: p.x - dc, y: p.y + gap, z: p.z + dr },
        Face::Front => Point { x: p.x + dc, y: p.y + dr, z: p.z - gap },
        Face::Back => Point { x: p.x + dc, y: p.y + dr, z: p.z + gap },
    };
    rooms[cur].center = center;
    assert(rooms@ =~= place(
        start,
        f,
        cur as int,
        other as int,
        idx.positions(k as int, f, cur as int),
        idx.positions(k as int, g, other as int),
    ));
}

/// One pass of the layout over every symbol of the index.
fn relax_pass(rooms: &mut Vec<Room>, idx: &CharacterIndex, Ghost(base): Ghost<Seq<Room>>)
    requires
        placeable(old(rooms)@),
        same_but_centers(old(rooms)@, base),
        idx.indexes(base),
    ensures
        final(rooms)@ == relax_symbols(old(rooms)@, *idx, idx.symbols@.len() as int),
        placeable(final(rooms)@),
        same_but_centers(final(rooms)@, base),
{
    let ghost start = rooms@;
    let n = rooms.len();
    let contacts = [Face::Left, Face::Right, Face::Top, Face::Floor, Face::Front, Face::Back];
    for k in 0..idx.symbols.len()
        invariant
            placeable(rooms@),
            same_but_centers(rooms@, base),
            idx.indexes(base),
            n == base.len(),
            contacts@ == seq![Face::Left, Face::Right, Face::Top, Face::Floor, Face::Front, Face::Back],
            rooms@ == relax_symbols(start, *idx, k as int),
    {
        let ghost at_k = rooms@;
        for j in 0..6
            invariant
                placeable(rooms@),
                same_but_centers(rooms@, base),
                idx.indexes(base),
                n == base.len(),
                k < idx.symbols@.len(),
                contacts@ == seq![Face::Left, Face::Right, Face::Top, Face::Floor, Face::Front, Face::Back],
                rooms@ == relax_faces(at_k, *idx, k as int, j as int),
        {
            let f = contacts[j];
            assert(f == contact_face(j as int));
            let ghost at_j = rooms@;
            for cur in 0..n
                invariant
                    placeable(rooms@),
                    same_but_centers(rooms@, base),
                    idx.indexes(base),
                    n == base.len(),
                    n == at_j.len(),
                    k < idx.symbols@.len(),
                    rooms@ == relax_rooms(at_j, *idx, k as int, f, cur as int),
            {
                let ghost at_c = rooms@;
                for o in 0..cur
                    invariant
                        placeable(rooms@),
                        same_but_centers(rooms@, base),
                        idx.indexes(base),
                        n == base.len(),
                        cur < n,
                        k < idx.symbols@.len(),
                        rooms@ == relax_others(at_c, *idx, k as int, f, cur as int, o as int),
                {
                    try_place(rooms, idx, k, f, cur, o, Ghost(base));
                }
            }
        }
    }
}

/// Places the rooms by matching the symbols on the faces that touch. Two
/// passes go over every symbol of the index, every face of the current room
/// (left, right, top, floor, front, back), every room as the current one and,
/// for each, every room before it: where the current room's face and the
/// other room's opposite face have the same shape for the symbol, the current
/// room is set against the other one (see `place`); a later match overrides
/// an earlier one. Only centers change; room 0 stays where it is.
pub fn solve_layout(rooms: &mut Vec<Room>, idx: &CharacterIndex)
    requires
        placeable(old(rooms)@),
        idx.indexes(old(rooms)@),
    ensures
        final(rooms)@ == laid_out(old(rooms)@, *idx),
        placeable(final(rooms)@),
        same_but_centers(final(rooms)@, old(rooms)@),
{
    let ghost start = rooms@;
    proof {
        lemma_same_but_centers_refl(start);
    }
    relax_pass(rooms, idx, Ghost(start));
    relax_pass(rooms, idx, Ghost(start));
}

pub(crate) proof fn lemma_reach_nonnegative(i: int)
    requires
        0 <= i,
    ensures
        near(Point { x: 0, y: 0, z: 0 }, reach(i)),
{
    assert(0 <= i * 2 * MAX_EXTENT) by (nonlinear_arith)
        requires
            0 <= i,
    ;
}

proof fn lemma_reach_bounded(i: int)
    requires
        0 <= i <= MAX_ROOMS,
    ensures
        0 <= reach(i) <= MAX_ROOMS * 2 * MAX_EXTENT,
{
    assert(0 <= i * 2 * MAX_EXTENT <= MAX_ROOMS * 2 * MAX_EXTENT) by (nonlinear_arith)
        requires
            0 <= i <= MAX_ROOMS,
    ;
}

/// Two rooms whose touching faces match end up touching: along the axis that
/// face `f` of room `cur` looks along, the centers lie exactly half the extent
/// of the one room plus half the extent of the other apart, on the side of
/// `f`, with neither gap nor overlap. Centers are kept in half cells, so the
/// difference of the two is the sum of the two extents.
pub proof fn lemma_matched_rooms_touch(
    rooms: Seq<Room>,
    f: Face,
    cur: int,
    other: int,
    here: Seq<GridPos>,
    there: Seq<GridPos>,
)
    requires
        placeable(rooms),
        0 <= other < cur < rooms.len(),
        matches_at(rooms, f, cur, other, here, there),
    ensures
        gap_along(f, place(rooms, f, cur, other, here, there)[cur].center, rooms[other].center)
            == extent(rooms[cur], f) + extent(rooms[other], f),
{
    lemma_reach_bounded(other);
    assert(near(rooms[other].center, reach(other)));
}

proof fn lemma_others_keep(
    rooms: Seq<Room>,
    base: Seq<Room>,
    idx: CharacterIndex,
    k: int,
    j: int,
    cur: int,
    o: int,
    i: int,
)
    requires
        same_but_centers(rooms, base),
        0 <= k < idx.symbols@.len(),
        0 <= j < 6,
        0 <= o <= cur < rooms.len(),
        0 <= i < rooms.len(),
        unmatched(base, idx, i),
    ensures
        same_but_centers(relax_others(rooms, idx, k, contact_face(j), cur, o), rooms),
        relax_others(rooms, idx, k, contact_face(j), cur, o)[i].center == rooms[i].center,
    decreases o,
{
    let f = contact_face(j);
    if o > 0 {
        lemma_others_keep(rooms, base, idx, k, j, cur, o - 1, i);
        let prev = relax_others(rooms, idx, k, f, cur, o - 1);
        let here = idx.positions(k, f, cur);
        let there = idx.positions(k, opposite(f), o - 1);
        lemma_place_keeps(prev, f, cur, o - 1, here, there);
        lemma_same_but_centers_trans(place(prev, f, cur, o - 1, here, there), prev, rooms);
        lemma_same_but_centers_trans(prev, rooms, base);
        if cur == i {
            lemma_matches_same(prev, base, f, cur, o - 1, here, there);
            assert(!matches_at(base, contact_face(j), i, o - 1, here, there));
        }
    } else {
        lemma_same_but_centers_refl(rooms);
    }
}

proof fn lemma_rooms_keep(
    rooms: Seq<Room>,
    base: Seq<Room>,
    idx: CharacterIndex,
    k: int,
    j: int,
    c: int,
    i: int,
)
    requires
        same_but_centers(rooms, base),
        0 <= k < idx.symbols@.len(),
        0 <= j < 6,
        0 <= c <= rooms.len(),
        0 <= i < rooms.len(),
        unmatched(base, idx, i),
    ensures
        same_but_centers(relax_rooms(rooms, idx, k, contact_face(j), c), rooms),
        relax_rooms(rooms, idx, k, contact_face(j), c)[i].center == rooms[i].center,
    decreases c,
{
    if c > 0 {
        lemma_rooms_keep(rooms, base, idx, k, j, c - 1, i);
        let prev = relax_rooms(rooms, idx, k, contact_face(j), c - 1);
        lemma_same_but_centers_trans(prev, rooms, base);
        lemma_others_keep(prev, base, idx, k, j, c - 1, c - 1, i);
        lemma_same_but_centers_trans(
            relax_others(prev, idx, k, contact_face(j), c - 1, c - 1),
            prev,
            rooms,
        );
    } else {
        lemma_same_but_centers_refl(rooms);
    }
}

proof fn lemma_faces_keep(
    rooms: Seq<Room>,
    base: Seq<Room>,
    idx: CharacterIndex,
    k: int,
    j: int,
    i: int,
)
    requires
        same_but_centers(rooms, base),
        0 <= k < idx.symbols@.len(),
        0 <= j <= 6,
        0 <= i < rooms.len(),
        unmatched(base, idx, i),
    ensures
        same_but_centers(relax_faces(rooms, idx, k, j), rooms),
        relax_faces(rooms, idx, k, j)[i].center == rooms[i].center,
    decreases j,
{
    if j > 0 {
        lemma_faces_keep(rooms, base, idx, k, j - 1, i);
        let prev = relax_faces(rooms, idx, k, j - 1);
        lemma_same_but_centers_trans(prev, rooms, base);
        lemma_rooms_keep(prev, base, idx, k, j - 1, prev.len() as int, i);
        lemma_same_but_centers_trans(
            relax_rooms(prev, idx, k, contact_face(j - 1), prev.len() as int),
            prev,
            rooms,
        );
    } else {
        lemma_same_but_centers_refl(rooms);
    }
}

proof fn lemma_symbols_keep(rooms: Seq<Room>, base: Seq<Room>, idx: CharacterIndex, s: int, i: int)
    requires
        same_but_centers(rooms, base),
        0 <= s <= idx.symbols@.len(),
        0 <= i < rooms.len(),
        unmatched(base, idx, i),
    ensures
        same_but_centers(relax_symbols(rooms, idx, s), rooms),
        relax_symbols(rooms, idx, s)[i].center == rooms[i].center,
    decreases s,
{
    if s > 0 {
        lemma_symbols_keep(rooms, base, idx, s - 1, i);
        let prev = relax_symbols(rooms, idx, s - 1);
        lemma_same_but_centers_trans(prev, rooms, base);
        lemma_faces_keep(prev, base, idx, s - 1, 6, i);
        lemma_same_but_centers_trans(relax_faces(prev, idx, s - 1, 6), prev, rooms);
    } else {
        lemma_same_but_centers_refl(rooms);
    }
}

/// The layout keeps every room, none dropped and none added, and a room
/// whose faces match no face of a room before it stays where it stood: at
/// the origin, for rooms as they are read. Room 0, the anchor, has no room
/// before it and never moves.
pub proof fn lemma_unmatched_room_stays(rooms: Seq<Room>, idx: CharacterIndex, i: int)
    requires
        0 <= i < rooms.len(),
        unmatched(rooms, idx, i),
    ensures
        laid_out(rooms, idx).len() == rooms.len(),
        laid_out(rooms, idx)[i].center == rooms[i].center,
{
    let n = idx.symbols@.len() as int;
    lemma_same_but_centers_refl(rooms);
    lemma_symbols_keep(rooms, rooms, idx, n, i);
    let first = relax_symbols(rooms, idx, n);
    lemma_same_but_centers_trans(first, rooms, rooms);
    lemma_symbols_keep(first, rooms, idx, n, i);
}

} // verus!
