//! The value held by one slot of a tube.

use std::cmp::Ordering;
use vstd::prelude::*;
use vstd::std_specs::cmp::PartialOrdSpecImpl;

verus! {

/// One slot of a tube: nothing, or one unit of the dye with the given number.
/// The empty slot comes before every dye, and the dyes are ordered by their
/// numbers.
#[derive(Clone, Copy, Debug, Hash, PartialEq, Eq, Ord, Structural)]
pub enum Color {
    Empty,
    Full(u8),
}

impl PartialOrd for Color {
    fn partial_cmp(&self, other: &Self) -> (r: Option<Ordering>) {
        let mine = self.ordinal();
        let theirs = other.ordinal();
        if mine < theirs {
            Some(Ordering::Less)
        } else if mine > theirs {
            Some(Ordering::Greater)
        } else {
            Some(Ordering::Equal)
        }
    }
}

impl PartialOrdSpecImpl for Color {
    open spec fn obeys_partial_cmp_spec() -> bool {
        true
    }

    open spec fn partial_cmp_spec(&self, other: &Self) -> Option<Ordering> {
        if self.rank() < other.rank() {
            Some(Ordering::Less)
        } else if self.rank() > other.rank() {
            Some(Ordering::Greater)
        } else {
            Some(Ordering::Equal)
        }
    }
}

impl Color {
    /// The colour that a number stands for: zero is the empty slot, every
    /// other number is the dye of that number.
    pub open spec fn of(number: u8) -> Color {
        if number == 0 {
            Color::Empty
        } else {
            Color::Full(number)
        }
    }

    /// Position of the colour in the total order of colours: the empty slot
    /// comes first, the dyes follow by number.
    pub open spec fn rank(self) -> int {
        match self {
            Color::Empty => 0,
            Color::Full(v) => v + 1,
        }
    }

    /// The rank of the colour, computed.
    pub fn ordinal(&self) -> (r: u16)
        ensures
            r == self.rank(),
    {
        match self {
            Color::Empty => 0,
            Color::Full(v) => *v as u16 + 1,
        }
    }

    /// The colour that `number` stands for.
    pub fn new(number: u8) -> (c: Color)
        ensures
            c == Color::of(number),
    {
        if number == 0 {
            Color::Empty
        } else {
            Color::Full(number)
        }
    }

    /// Whether the slot holds a dye.
    pub fn is_value(&self) -> (b: bool)
        ensures
            b == (*self is Full),
    {
        match self {
            Color::Empty => false,
            Color::Full(_) => true,
        }
    }

    /// Whether the slot holds nothing.
    pub fn is_empty(&self) -> (b: bool)
        ensures
            b == (*self is Empty),
    {
        !self.is_value()
    }
}

} // verus!
