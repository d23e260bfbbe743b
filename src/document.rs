use vstd::prelude::*;

use crate::index::{build_index, CharacterIndex};
use crate::layout::{laid_out, placeable, solve_layout, MAX_ROOMS};
use crate::room::{decodes, net_error, origin, parse_room, FormatError, Room};
use crate::shape::MAX_EXTENT;
use crate::text::{
    chars_of, join_lines, joined, lines, pieces, split, split_lines, trim, trimmed, views,
};

verus! {

/// What each symbol stands for, as free text; a later description of a symbol
/// replaces an earlier one.
pub struct Descriptions {
    entries: Vec<(char, String)>,
}

/// The descriptions that `entries` make, a later entry for a symbol winning.
pub open spec fn entries_map(entries: Seq<(char, String)>) -> Map<char, Seq<char>>
    decreases entries.len(),
{
    if entries.len() == 0 {
        Map::empty()
    } else {
        entries_map(entries.drop_last()).insert(entries.last().0, entries.last().1@)
    }
}

impl View for Descriptions {
    type V = Map<char, Seq<char>>;

    closed spec fn view(&self) -> Map<char, Seq<char>> {
        entries_map(self.entries@)
    }
}

impl Descriptions {
    pub fn new() -> (d: Descriptions)
        ensures
            d@ == Map::<char, Seq<char>>::empty(),
    {
        Descriptions { entries: Vec::new() }
    }

    /// Describes symbol `c` by `text`, replacing what described it before.
    pub fn insert(&mut self, c: char, text: String)
        ensures
            final(self)@ == old(self)@.insert(c, text@),
    {
        self.entries.push((c, text));
        assert(self.entries@.drop_last() =~= old(self).entries@);
    }

    /// The description of symbol `c`, if it has one.
    pub fn get(&self, c: char) -> (r: Option<&String>)
        ensures
            match r {
                Some(s) => self@.contains_key(c) && self@[c] == s@,
                None => !self@.contains_key(c),
            },
    {
        let ghost all = self.entries@;
        let mut i = self.entries.len();
        assert(all.subrange(0, i as int) =~= all);
        while i > 0
            invariant
                i <= all.len(),
                all == self.entries@,
                entries_map(all).contains_key(c) == entries_map(all.subrange(0, i as int)).contains_key(c),
                entries_map(all).contains_key(c) ==> entries_map(all)[c] == entries_map(
                    all.subrange(0, i as int),
                )[c],
            decreases i,
        {
            let e = &self.entries[i - 1];
            assert(all.subrange(0, i as int).drop_last() =~= all.subrange(0, i - 1));
            if e.0 == c {
                return Some(&e.1);
            }
            i -= 1;
        }
        None
    }
}

/// The sections of a document: the pieces between `#` characters that open
/// a line.
pub open spec fn sections(text: Seq<char>) -> Seq<Seq<char>> {
    pieces(text, '#', true)
}

pub open spec fn section_lines(sec: Seq<char>) -> Seq<Seq<char>> {
    lines(trimmed(sec))
}

/// The first line of a section, trimmed.
pub open spec fn heading(sec: Seq<char>) -> Seq<char> {
    let ls = section_lines(sec);
    if ls.len() > 0 {
        trimmed(ls[0])
    } else {
        Seq::empty()
    }
}

/// The lines of a section after its heading, joined and trimmed.
pub open spec fn body(sec: Seq<char>) -> Seq<char> {
    let ls = section_lines(sec);
    if ls.len() > 0 {
        trimmed(joined(ls.drop_first()))
    } else {
        Seq::empty()
    }
}

/// A section that holds anything: blank ones are skipped.
pub open spec fn counts(sec: Seq<char>) -> bool {
    trimmed(sec).len() > 0
}

/// A section that describes a symbol: its heading is that one character.
pub open spec fn describes(sec: Seq<char>) -> bool {
    counts(sec) && heading(sec).len() == 1
}

/// A section that holds the net of a room: any other heading.
pub open spec fn holds_net(sec: Seq<char>) -> bool {
    counts(sec) && heading(sec).len() != 1
}

/// The descriptions that the sections `secs` give, in order, later ones for
/// a symbol winning.
pub open spec fn descriptions_in(secs: Seq<Seq<char>>) -> Map<char, Seq<char>>
    decreases secs.len(),
{
    if secs.len() == 0 {
        Map::empty()
    } else {
        let m = descriptions_in(secs.drop_last());
        if describes(secs.last()) {
            m.insert(heading(secs.last())[0], body(secs.last()))
        } else {
            m
        }
    }
}

/// The nets that the sections `secs` hold, in order.
pub open spec fn nets_in(secs: Seq<Seq<char>>) -> Seq<Seq<char>>
    decreases secs.len(),
{
    if secs.len() == 0 {
        Seq::empty()
    } else {
        let p = nets_in(secs.drop_last());
        if holds_net(secs.last()) {
            p.push(body(secs.last()))
        } else {
            p
        }
    }
}

/// What is wrong with the first net that has something wrong with it.
pub open spec fn first_error(nets: Seq<Seq<char>>) -> Option<FormatError>
    decreases nets.len(),
{
    if nets.len() == 0 {
        None
    } else {
        match first_error(nets.drop_last()) {
            Some(e) => Some(e),
            None => net_error(nets.last()),
        }
    }
}

/// What is wrong with a document: the first net that cannot be read, else
/// too many rooms.
pub open spec fn document_error(text: Seq<char>) -> Option<FormatError> {
    let nets = nets_in(sections(text));
    match first_error(nets) {
        Some(e) => Some(e),
        None => if nets.len() > MAX_ROOMS {
            Some(FormatError::TooLarge)
        } else {
            None
        },
    }
}

/// A document as read: the descriptions of its symbols and its rooms, each
/// at the origin, numbered in the order of the document.
pub struct Document {
    pub descriptions: Descriptions,
    pub rooms: Vec<Room>,
}

/// `rooms` are the rooms of `nets`, one for each, in order.
pub open spec fn rooms_of(rooms: Seq<Room>, nets: Seq<Seq<char>>) -> bool {
    &&& rooms.len() == nets.len()
    &&& forall|i: int| 0 <= i < rooms.len() ==> decodes(#[trigger] rooms[i], nets[i])
}

/// Relies on `String`'s `FromIterator<&char>`: the string collected from the
/// characters holds them in order.
#[verifier::external_body]
fn string_of(chars: &Vec<char>) -> (s: String)
    ensures
        s@ == chars@,
{
    chars.iter().collect()
}

/// Heading and body of a section that counts.
fn split_section(sec: &Vec<char>) -> (r: (Vec<char>, Vec<char>))
    ensures
        r.0@ == heading(sec@),
        r.1@ == body(sec@),
{
    let t = trim(sec);
    let ls = split_lines(&t);
    if ls.len() == 0 {
        return (Vec::new(), Vec::new());
    }
    let head = trim(&ls[0]);
    assert(views(ls@)[0] == ls@[0]@);
    let rest = join_lines(&ls, 1);
    assert(views(ls@).subrange(1, ls.len() as int) =~= views(ls@).drop_first());
    (head, trim(&rest))
}

/// Reads a document: its sections, split at each `#` that opens a line and
/// skipped where blank, are descriptions where the heading is one character
/// and room nets otherwise. Fails with the error of the first net that
/// cannot be read, or with `TooLarge` where there are more than `MAX_ROOMS`
/// rooms.
pub fn parse_document(text: &str) -> (r: Result<Document, FormatError>)
    ensures
        match r {
            Ok(doc) => {
                &&& document_error(text@) is None
                &&& doc.descriptions@ == descriptions_in(sections(text@))
                &&& rooms_of(doc.rooms@, nets_in(sections(text@)))
                &&& placeable(doc.rooms@)
            },
            Err(e) => document_error(text@) == Some(e),
        },
{
    let chars = chars_of(text);
    let secs = split(&chars, '#', true);
    let ghost ss = views(secs@);
    let mut descriptions = Descriptions::new();
    let mut rooms: Vec<Room> = Vec::new();
    for i in 0..secs.len()
        invariant
            ss == views(secs@),
            ss == sections(text@),
            descriptions@ == descriptions_in(ss.subrange(0, i as int)),
            rooms_of(rooms@, nets_in(ss.subrange(0, i as int))),
            first_error(nets_in(ss.subrange(0, i as int))) is None,
            forall|j: int|
                0 <= j < rooms@.len() ==> {
                    &&& (#[trigger] rooms@[j]).wf()
                    &&& rooms@[j].width <= MAX_EXTENT
                    &&& rooms@[j].depth <= MAX_EXTENT
                    &&& rooms@[j].height <= MAX_EXTENT
                },
    {
        let ghost before = ss.subrange(0, i as int);
        let ghost after = ss.subrange(0, i + 1);
        assert(after.drop_last() =~= before);
        let sec = &secs[i];
        assert(sec@ == ss[i as int]);
        let t = trim(sec);
        if t.len() > 0 {
            let (head, content) = split_section(sec);
            if head.len() == 1 {
                descriptions.insert(head[0], string_of(&content));
            } else {
                assert(nets_in(after).drop_last() =~= nets_in(before));
                match parse_room(&content) {
                    Ok(room) => {
                        let ghost old_rooms = rooms@;
                        rooms.push(room);
                        assert(rooms_of(rooms@, nets_in(after))) by {
                            assert forall|j: int| 0 <= j < rooms@.len() implies decodes(
                                #[trigger] rooms@[j],
                                nets_in(after)[j],
                            ) by {
                                if j < old_rooms.len() {
                                    assert(rooms@[j] == old_rooms[j]);
                                }
                            }
                        }
                    },
                    Err(e) => {
                        proof {
                            lemma_first_error_stays(ss, i as int + 1);
                        }
                        return Err(e);
                    },
                }
            }
        }
    }
    assert(ss.subrange(0, secs.len() as int) =~= ss);
    if rooms.len() > MAX_ROOMS {
        return Err(FormatError::TooLarge);
    }
    assert(placeable(rooms@)) by {
        assert forall|j: int| 0 <= j < rooms@.len() implies crate::layout::near(
            #[trigger] rooms@[j].center,
            crate::layout::reach(j),
        ) by {
            assert(decodes(rooms@[j], nets_in(ss)[j]));
            assert(rooms@[j].center == origin());
            crate::layout::lemma_reach_nonnegative(j);
        }
    }
    Ok(Document { descriptions, rooms })
}

/// Once a net of the first `i` sections cannot be read, the document fails
/// with that net's error.
proof fn lemma_first_error_stays(ss: Seq<Seq<char>>, i: int)
    requires
        0 <= i <= ss.len(),
        first_error(nets_in(ss.subrange(0, i))) is Some,
    ensures
        first_error(nets_in(ss)) == first_error(nets_in(ss.subrange(0, i))),
    decreases ss.len() - i,
{
    if i < ss.len() {
        let next = ss.subrange(0, i + 1);
        let p = nets_in(ss.subrange(0, i));
        assert(next.drop_last() =~= ss.subrange(0, i));
        if holds_net(next.last()) {
            assert(nets_in(next).drop_last() =~= p);
        }
        lemma_first_error_stays(ss, i + 1);
    } else {
        assert(ss.subrange(0, i) =~= ss);
    }
}

/// A document laid out: its descriptions, its rooms in their places, and the
/// index of its symbols.
pub struct FloorPlan {
    pub descriptions: Descriptions,
    pub rooms: Vec<Room>,
    pub index: CharacterIndex,
}

/// Reads a document, indexes its symbols and lays its rooms out.
pub fn build_floor_plan(text: &str) -> (r: Result<FloorPlan, FormatError>)
    ensures
        match r {
            Ok(plan) => {
                &&& document_error(text@) is None
                &&& plan.descriptions@ == descriptions_in(sections(text@))
                &&& exists|read: Seq<Room>|
                    {
                        &&& #[trigger] rooms_of(read, nets_in(sections(text@)))
                        &&& plan.index.indexes(read)
                        &&& plan.rooms@ == laid_out(read, plan.index)
                    }
            },
            Err(e) => document_error(text@) == Some(e),
        },
{
    let doc = match parse_document(text) {
        Ok(doc) => doc,
        Err(e) => return Err(e),
    };
    let Document { descriptions, mut rooms } = doc;
    let ghost read = rooms@;
    let index = build_index(&rooms);
    solve_layout(&mut rooms, &index);
    let plan = FloorPlan { descriptions, rooms, index };
    assert(rooms_of(read, nets_in(sections(text@))) && plan.index.indexes(read) && plan.rooms@
        == laid_out(read, plan.index));
    Ok(plan)
}

} // verus!
