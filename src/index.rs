use vstd::prelude::*;

use crate::grid::Mark;
use crate::room::{Face, Room};
use crate::shape::GridPos;

verus! {

/// The faces in the order in which the index lists them.
pub open spec fn face_at(i: int) -> Face {
    if i == 0 {
        Face::Top
    } else if i == 1 {
        Face::Back
    } else if i == 2 {
        Face::Right
    } else if i == 3 {
        Face::Front
    } else if i == 4 {
        Face::Left
    } else {
        Face::Floor
    }
}

pub open spec fn face_slot(f: Face) -> int {
    match f {
        Face::Top => 0,
        Face::Back => 1,
        Face::Right => 2,
        Face::Front => 3,
        Face::Left => 4,
        Face::Floor => 5,
    }
}

pub fn slot_of(f: Face) -> (i: usize)
    ensures
        i == face_slot(f),
        face_at(i as int) == f,
{
    match f {
        Face::Top => 0,
        Face::Back => 1,
        Face::Right => 2,
        Face::Front => 3,
        Face::Left => 4,
        Face::Floor => 5,
    }
}

/// Where symbol `s` occurs among `marks`, in their order.
pub open spec fn positions_of(marks: Seq<Mark>, s: char) -> Seq<GridPos>
    decreases marks.len(),
{
    if marks.len() == 0 {
        Seq::empty()
    } else {
        let prev = positions_of(marks.drop_last(), s);
        if marks.last().2 == s {
            prev.push(GridPos { col: marks.last().0, row: marks.last().1 })
        } else {
            prev
        }
    }
}

/// The symbols of a room, face after face in the order of the net.
pub open spec fn room_symbols(r: Room) -> Seq<char> {
    (r.top@ + r.back@ + r.right@ + r.front@ + r.left@ + r.floor@).map_values(|m: Mark| m.2)
}

/// The symbols of all rooms, room after room.
pub open spec fn all_symbols(rooms: Seq<Room>) -> Seq<char>
    decreases rooms.len(),
{
    if rooms.len() == 0 {
        Seq::empty()
    } else {
        all_symbols(rooms.drop_last()) + room_symbols(rooms.last())
    }
}

/// Each character of `s` once, in the order in which it first occurs.
pub open spec fn first_seen(s: Seq<char>) -> Seq<char>
    decreases s.len(),
{
    if s.len() == 0 {
        Seq::empty()
    } else {
        let prev = first_seen(s.drop_last());
        if prev.contains(s.last()) {
            prev
        } else {
            prev.push(s.last())
        }
    }
}

/// For every symbol, face and room, where the symbol occurs on that face of
/// that room. `hits[k][i][r]` holds the positions of `symbols[k]` on face
/// `face_at(i)` of room `r`, in the order in which the face is read; it is
/// empty where the symbol does not occur there.
pub struct CharacterIndex {
    pub symbols: Vec<char>,
    pub hits: Vec<Vec<Vec<Vec<GridPos>>>>,
}

impl CharacterIndex {
    pub open spec fn positions(self, k: int, f: Face, r: int) -> Seq<GridPos> {
        self.hits@[k]@[face_slot(f)]@[r]@
    }

    /// The index is that of `rooms`: every symbol that occurs in them once,
    /// in the order of first occurrence, and for each its positions.
    pub open spec fn indexes(self, rooms: Seq<Room>) -> bool {
        &&& self.symbols@ == first_seen(all_symbols(rooms))
        &&& self.hits@.len() == self.symbols@.len()
        &&& forall|k: int|
            0 <= k < self.symbols@.len() ==> {
                &&& (#[trigger] self.hits@[k])@.len() == 6
                &&& forall|i: int|
                    0 <= i < 6 ==> (#[trigger] self.hits@[k]@[i])@.len() == rooms.len()
                        && forall|r: int|
                        0 <= r < rooms.len() ==> (#[trigger] self.hits@[k]@[i]@[r])@
                            == positions_of(rooms[r].marks(face_at(i)), self.symbols@[k])
            }
    }

    /// The positions of the `k`-th symbol on face `f` of room `r`.
    pub fn at(&self, k: usize, f: Face, r: usize) -> (p: &Vec<GridPos>)
        requires
            k < self.hits@.len(),
            self.hits@[k as int]@.len() == 6,
            r < self.hits@[k as int]@[face_slot(f)]@.len(),
        ensures
            p@ == self.positions(k as int, f, r as int),
    {
        &self.hits[k][slot_of(f)][r]
    }
}

fn append_symbols(dst: &mut Vec<char>, src: &Vec<Mark>)
    ensures
        final(dst)@ == old(dst)@ + src@.map_values(|m: Mark| m.2),
{
    let ghost start = dst@;
    for i in 0..src.len()
        invariant
            dst@ == start + src@.subrange(0, i as int).map_values(|m: Mark| m.2),
    {
        dst.push(src[i].2);
        assert(dst@ =~= start + src@.subrange(0, i + 1).map_values(|m: Mark| m.2));
    }
    assert(src@.subrange(0, src.len() as int) =~= src@);
}

fn symbols_of(rooms: &Vec<Room>) -> (v: Vec<char>)
    ensures
        v@ == all_symbols(rooms@),
{
    let mut v: Vec<char> = Vec::new();
    for r in 0..rooms.len()
        invariant
            v@ == all_symbols(rooms@.subrange(0, r as int)),
    {
        let room = &rooms[r];
        let ghost before = v@;
        append_symbols(&mut v, &room.top);
        append_symbols(&mut v, &room.back);
        append_symbols(&mut v, &room.right);
        append_symbols(&mut v, &room.front);
        append_symbols(&mut v, &room.left);
        append_symbols(&mut v, &room.floor);
        assert(rooms@.subrange(0, r + 1).drop_last() =~= rooms@.subrange(0, r as int));
        assert(v@ =~= before + room_symbols(*room));
    }
    assert(rooms@.subrange(0, rooms.len() as int) =~= rooms@);
    v
}

fn distinct_in_order(s: &Vec<char>) -> (v: Vec<char>)
    ensures
        v@ == first_seen(s@),
{
    let mut v: Vec<char> = Vec::new();
    for i in 0..s.len()
        invariant
            v@ == first_seen(s@.subrange(0, i as int)),
    {
        assert(s@.subrange(0, i + 1).drop_last() =~= s@.subrange(0, i as int));
        let c = s[i];
        let mut seen = false;
        for j in 0..v.len()
            invariant
                seen <==> exists|t: int| 0 <= t < j && v@[t] == c,
        {
            if v[j] == c {
                seen = true;
            }
        }
        if !seen {
            v.push(c);
        }
    }
    assert(s@.subrange(0, s.len() as int) =~= s@);
    v
}

fn positions_in(marks: &Vec<Mark>, s: char) -> (p: Vec<GridPos>)
    ensures
        p@ == positions_of(marks@, s),
{
    let mut p: Vec<GridPos> = Vec::new();
    for i in 0..marks.len()
        invariant
            p@ == positions_of(marks@.subrange(0, i as int), s),
    {
        assert(marks@.subrange(0, i + 1).drop_last() =~= marks@.subrange(0, i as int));
        let m = marks[i];
        if m.2 == s {
            p.push(GridPos { col: m.0, row: m.1 });
        }
    }
    assert(marks@.subrange(0, marks.len() as int) =~= marks@);
    p
}

/// For each symbol, face and room, the positions at which the symbol occurs.
pub fn build_index(rooms: &Vec<Room>) -> (idx: CharacterIndex)
    ensures
        idx.indexes(rooms@),
{
    let all = symbols_of(rooms);
    let symbols = distinct_in_order(&all);
    let faces = [Face::Top, Face::Back, Face::Right, Face::Front, Face::Left, Face::Floor];
    let mut hits: Vec<Vec<Vec<Vec<GridPos>>>> = Vec::new();
    for k in 0..symbols.len()
        invariant
            faces@ == seq![Face::Top, Face::Back, Face::Right, Face::Front, Face::Left, Face::Floor],
            hits@.len() == k,
            forall|k2: int|
                0 <= k2 < k ==> {
                    &&& (#[trigger] hits@[k2])@.len() == 6
                    &&& forall|i: int|
                        0 <= i < 6 ==> (#[trigger] hits@[k2]@[i])@.len() == rooms.len()
                            && forall|r: int|
                            0 <= r < rooms.len() ==> (#[trigger] hits@[k2]@[i]@[r])@
                                == positions_of(rooms@[r].marks(face_at(i)), symbols@[k2])
                },
    {
        let s = symbols[k];
        let mut per_face: Vec<Vec<Vec<GridPos>>> = Vec::new();
        for i in 0..6
            invariant
                faces@ == seq![Face::Top, Face::Back, Face::Right, Face::Front, Face::Left, Face::Floor],
                per_face@.len() == i,
                forall|i2: int|
                    0 <= i2 < i ==> (#[trigger] per_face@[i2])@.len() == rooms.len()
                        && forall|r: int|
                        0 <= r < rooms.len() ==> (#[trigger] per_face@[i2]@[r])@ == positions_of(
                            rooms@[r].marks(face_at(i2)),
                            s,
                        ),
        {
            let f = faces[i];
            assert(f == face_at(i as int));
            let mut per_room: Vec<Vec<GridPos>> = Vec::new();
            for r in 0..rooms.len()
                invariant
                    per_room@.len() == r,
                    forall|r2: int|
                        0 <= r2 < r ==> (#[trigger] per_room@[r2])@ == positions_of(
                            rooms@[r2].marks(f),
                            s,
                        ),
            {
                per_room.push(positions_in(rooms[r].face(f), s));
            }
            per_face.push(per_room);
        }
        hits.push(per_face);
    }
    CharacterIndex { symbols, hits }
}

} // verus!
