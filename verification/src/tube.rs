//! A tube of four slots and the rule by which one tube is poured into another.
//!
//! Slot 0 is the opening at the top, slot 3 the sealed bottom. The rule is
//! stated over the plain sequence of a tube's four colours, so that it can be
//! read on its own, apart from the executable code: the top run of the source,
//! as far as the destination has room for it, leaves the source and comes to
//! rest in the destination, directly above what the destination already holds.

use std::cmp::Ordering;
use vstd::prelude::*;
use crate::color::Color;

verus! {

/// Index of the first occupied slot, counted from the opening; 4 for an
/// empty tube.
pub open spec fn top(slots: Seq<Color>) -> int {
    if slots[0] is Full {
        0
    } else if slots[1] is Full {
        1
    } else if slots[2] is Full {
        2
    } else if slots[3] is Full {
        3
    } else {
        4
    }
}

/// Number of slots in a row, from `from` towards the bottom, that hold `color`.
pub open spec fn run(slots: Seq<Color>, from: int, color: Color) -> nat
    decreases 4 - from,
{
    if 0 <= from < 4 && slots[from] == color {
        1 + run(slots, from + 1, color)
    } else {
        0
    }
}

/// The slot in which a unit entering the tube comes to rest: it falls until
/// the slot below it is occupied, or to the bottom.
pub open spec fn resting_slot(slots: Seq<Color>) -> int {
    if slots[1] is Full {
        0
    } else if slots[2] is Full {
        1
    } else if slots[3] is Full {
        2
    } else {
        3
    }
}

/// Whether the tube takes a unit of `color`: the resting slot must be free,
/// and what lies directly below it must be of the same colour.
pub open spec fn accepts(slots: Seq<Color>, color: Color) -> bool {
    let o = resting_slot(slots);
    slots[o] is Empty && (o == 3 || slots[o + 1] == color)
}

/// The slot in which a unit of `color` lands, if the tube takes it.
pub open spec fn landing(slots: Seq<Color>, color: Color) -> Option<int> {
    if accepts(slots, color) {
        Some(resting_slot(slots))
    } else {
        None
    }
}

/// How many units of `color` the tube takes in a row: every slot from the
/// resting slot up to the opening, as far as the opening itself is free.
pub open spec fn room(slots: Seq<Color>, color: Color) -> nat {
    if !accepts(slots, color) {
        0
    } else if slots[0] is Empty {
        (resting_slot(slots) + 1) as nat
    } else {
        resting_slot(slots) as nat
    }
}

/// Number of units that one pour moves from `src` to `dst`: the length of
/// the top run of the source, cut down to the room that the destination has
/// for that colour.
pub open spec fn units_moved(src: Seq<Color>, dst: Seq<Color>) -> nat {
    let k = top(src);
    if k == 4 {
        0
    } else {
        let r = run(src, k, src[k]);
        let space = room(dst, src[k]);
        if r <= space {
            r
        } else {
            space
        }
    }
}

/// `slots` with `count` slots emptied, starting at `from`.
pub open spec fn drained(slots: Seq<Color>, from: int, count: int) -> Seq<Color> {
    Seq::new(4, |i: int| if from <= i < from + count { Color::Empty } else { slots[i] })
}

/// `slots` with `count` slots set to `color`, the lowest of them at `last`.
pub open spec fn filled(slots: Seq<Color>, last: int, count: int, color: Color) -> Seq<Color> {
    Seq::new(4, |i: int| if last - count < i <= last { color } else { slots[i] })
}

/// The source after it has been poured into `dst`.
pub open spec fn source_after(src: Seq<Color>, dst: Seq<Color>) -> Seq<Color> {
    drained(src, top(src), units_moved(src, dst) as int)
}

/// The destination after `src` has been poured into it.
pub open spec fn dest_after(src: Seq<Color>, dst: Seq<Color>) -> Seq<Color> {
    if top(src) == 4 {
        dst
    } else {
        filled(dst, resting_slot(dst), units_moved(src, dst) as int, src[top(src)])
    }
}

/// No liquid floats above a gap: below an occupied slot every slot is occupied.
pub open spec fn settled(slots: Seq<Color>) -> bool {
    &&& slots.len() == 4
    &&& slots[0] is Full ==> slots[1] is Full
    &&& slots[1] is Full ==> slots[2] is Full
    &&& slots[2] is Full ==> slots[3] is Full
}

/// All four slots hold the same thing, be it a dye or nothing.
pub open spec fn uniform(slots: Seq<Color>) -> bool {
    slots[1] == slots[0] && slots[2] == slots[0] && slots[3] == slots[0]
}

/// The contents of a tube read as a number of four digits in base 257, the
/// top slot first and each digit the rank of its colour. Tubes are ordered
/// by this number, which is the lexicographic order of their colours.
pub open spec fn content_key(slots: Seq<Color>) -> int {
    ((slots[0].rank() * 257 + slots[1].rank()) * 257 + slots[2].rank()) * 257 + slots[3].rank()
}

/// Every content key lies below this number, 257 to the fourth power.
pub const KEY_LIMIT: u64 = 4_362_470_401;

/// A tube as contracts see it: its four colours, top to bottom, and its
/// identity.
pub struct TubeView {
    pub slots: Seq<Color>,
    pub id: usize,
}

impl TubeView {
    /// The number by which tubes are ordered.
    pub open spec fn key(self) -> int {
        content_key(self.slots)
    }
}

/// A tube: four slots, top to bottom, and the identity it was given when the
/// puzzle was set up. Two tubes are equal when they hold the same colours,
/// whatever their identities.
#[derive(Clone, Copy, Debug)]
pub struct Tube {
    pub colors: [Color; 4],
    pub id: usize,
}

impl View for Tube {
    type V = TubeView;

    open spec fn view(&self) -> TubeView {
        TubeView { slots: self.colors@, id: self.id }
    }
}

impl PartialEq for Tube {
    fn eq(&self, other: &Self) -> (b: bool) {
        let b = self.colors[0] == other.colors[0] && self.colors[1] == other.colors[1]
            && self.colors[2] == other.colors[2] && self.colors[3] == other.colors[3];
        assert(b == (self.colors@ =~= other.colors@));
        b
    }
}

impl vstd::std_specs::cmp::PartialEqSpecImpl for Tube {
    open spec fn obeys_eq_spec() -> bool {
        true
    }

    open spec fn eq_spec(&self, other: &Self) -> bool {
        self.colors@ == other.colors@
    }
}

impl Eq for Tube {

}

/// Tubes are ordered by what they hold, slot by slot from the top, whatever
/// their identities: the order of their content keys.
impl PartialOrd for Tube {
    fn partial_cmp(&self, other: &Self) -> (r: Option<Ordering>) {
        let mine = self.sort_key();
        let theirs = other.sort_key();
        if mine < theirs {
            Some(Ordering::Less)
        } else if mine > theirs {
            Some(Ordering::Greater)
        } else {
            Some(Ordering::Equal)
        }
    }
}

impl vstd::std_specs::cmp::PartialOrdSpecImpl for Tube {
    open spec fn obeys_partial_cmp_spec() -> bool {
        true
    }

    open spec fn partial_cmp_spec(&self, other: &Self) -> Option<Ordering> {
        if self@.key() < other@.key() {
            Some(Ordering::Less)
        } else if self@.key() > other@.key() {
            Some(Ordering::Greater)
        } else {
            Some(Ordering::Equal)
        }
    }
}

impl vstd::std_specs::core::IndexSpecImpl<usize> for Tube {
    open spec fn index_req(&self, index: &usize) -> bool {
        true
    }
}

/// Reads a slot. Past the bottom of the tube there is nothing: every index
/// from 4 on reads as an empty slot.
impl core::ops::Index<usize> for Tube {
    type Output = Color;

    fn index(&self, index: usize) -> (c: &Color)
        ensures
            *c == (if index < 4 {
                self.colors[index as int]
            } else {
                Color::Empty
            }),
    {
        if index < 4 {
            return &self.colors[index];
        }
        &Color::Empty
    }
}

/// While a tube is being filled, each unit lands directly above the one
/// before it, until the room is used up.
proof fn lemma_landing_after_fill(dst: Seq<Color>, color: Color, done: int)
    requires
        dst.len() == 4,
        color is Full,
        1 <= done <= room(dst, color),
    ensures
        landing(filled(dst, resting_slot(dst), done, color), color) == if done < room(dst, color) {
            Some(resting_slot(dst) - done)
        } else {
            None::<int>
        },
{
}

impl Tube {
    /// The tube with identity `id` that holds the colours for which the
    /// four numbers stand, top to bottom.
    pub fn new(number_list: [u8; 4], id: usize) -> (t: Tube)
        ensures
            t.id == id,
            t@.slots == number_list@.map_values(|n: u8| Color::of(n)),
    {
        let t = Tube {
            colors: [
                Color::new(number_list[0]),
                Color::new(number_list[1]),
                Color::new(number_list[2]),
                Color::new(number_list[3]),
            ],
            id,
        };
        assert(t.colors@ =~= number_list@.map_values(|n: u8| Color::of(n)));
        t
    }

    /// The slot in which a unit of `color` would land in this tube.
    pub fn landing_slot(&self, color: Color) -> (slot: Option<usize>)
        requires
            color is Full,
        ensures
            match slot {
                Some(o) => landing(self@.slots, color) == Some(o as int),
                None => landing(self@.slots, color) is None,
            },
    {
        let mut o: usize = 0;
        while o < 4
            invariant
                o <= 4,
                color is Full,
                forall|p: int| 1 <= p <= o && p < 4 ==> #[trigger] self.colors@[p] is Empty,
                o == 4 ==> self.colors[3] is Full,
            decreases 4 - o,
        {
            if self.colors[o].is_empty() && (o == 3 || self[o + 1] == color) {
                return Some(o);
            } else if self[o + 1].is_value() {
                return None;
            }
            o += 1;
        }
        None
    }

    /// Pours this tube into `tube` and says whether anything moved.
    pub fn pour(&mut self, tube: &mut Tube) -> (moved: bool)
        ensures
            final(self)@.slots == source_after(old(self)@.slots, old(tube)@.slots),
            final(tube)@.slots == dest_after(old(self)@.slots, old(tube)@.slots),
            final(self).id == old(self).id,
            final(tube).id == old(tube).id,
            moved == (units_moved(old(self)@.slots, old(tube)@.slots) > 0),
    {
        let ghost src = self.colors@;
        let ghost dst = tube.colors@;
        let ghost done: int = 0;
        let mut output = false;
        let mut color = Color::Empty;
        let mut i: usize = 0;
        while i < 4
            invariant
                i <= 4,
                self.id == old(self).id,
                tube.id == old(tube).id,
                src == old(self).colors@,
                dst == old(tube).colors@,
                color is Empty ==> {
                    &&& done == 0
                    &&& forall|p: int| 0 <= p < i ==> #[trigger] src[p] is Empty
                    &&& self.colors@ == src
                    &&& tube.colors@ == dst
                    &&& !output
                },
                color is Full ==> {
                    &&& top(src) + done == i
                    &&& done >= 1
                    &&& color == src[top(src)]
                    &&& run(src, top(src), color) == done + run(src, i as int, color)
                    &&& done <= room(dst, color)
                    &&& self.colors@ == drained(src, top(src), done)
                    &&& tube.colors@ == filled(dst, resting_slot(dst), done, color)
                    &&& output
                },
            decreases 4 - i,
        {
            if color.is_empty() && self.colors[i].is_value() {
                color = self.colors[i];
            }
            if color.is_value() {
                if color != self.colors[i] {
                    return output;
                }
                proof {
                    if done > 0 {
                        lemma_landing_after_fill(dst, color, done);
                    }
                }
                match tube.landing_slot(color) {
                    Some(o) => {
                        output = true;
                        tube.colors[o] = self.colors[i];
                        self.colors[i] = Color::Empty;
                        proof {
                            done = done + 1;
                        }
                    },
                    None => {
                        return output;
                    },
                }
            }
            i += 1;
        }
        output
    }

    /// The number by which tubes are ordered, computed.
    pub fn sort_key(&self) -> (k: u64)
        ensures
            k == self@.key(),
    {
        let mut k: u64 = 0;
        let mut i: usize = 0;
        while i < 4
            invariant
                i <= 4,
                i == 0 ==> k == 0,
                i == 1 ==> k == self.colors@[0].rank(),
                i == 2 ==> k == self.colors@[0].rank() * 257 + self.colors@[1].rank(),
                i == 3 ==> k == (self.colors@[0].rank() * 257 + self.colors@[1].rank()) * 257
                    + self.colors@[2].rank(),
                i == 4 ==> k == content_key(self.colors@),
            decreases 4 - i,
        {
            k = k * 257 + self.colors[i].ordinal() as u64;
            i += 1;
        }
        k
    }

    /// Whether all four slots hold the same: one dye, or nothing.
    pub fn is_uniform(&self) -> (b: bool)
        ensures
            b == uniform(self@.slots),
    {
        let mut i: usize = 1;
        while i < 4
            invariant
                1 <= i <= 4,
                forall|p: int| 1 <= p < i ==> #[trigger] self.colors@[p] == self.colors@[0],
            decreases 4 - i,
        {
            if self.colors[i] != self.colors[0] {
                return false;
            }
            i += 1;
        }
        true
    }
}

} // verus!
