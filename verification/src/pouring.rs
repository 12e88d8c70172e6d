//! What follows from the rule of pouring: that no liquid is made or lost,
//! that liquid is not poured onto another colour, and how the rule reads
//! between tubes in which nothing floats above a gap.

use vstd::prelude::*;
use vstd::seq_lib::{to_multiset_contains, to_multiset_update};
use crate::color::Color;
use crate::tube::{
    content_key, dest_after, drained, filled, resting_slot, room, run, settled, source_after, top,
    units_moved, KEY_LIMIT,
};

verus! {

/// As far as a run goes, every slot of it holds the colour of the run.
pub proof fn lemma_run_holds(slots: Seq<Color>, from: int, color: Color, at: int)
    requires
        0 <= from,
        0 <= at < run(slots, from, color),
    ensures
        from + at < 4,
        slots[from + at] == color,
    decreases at,
{
    if at > 0 {
        lemma_run_holds(slots, from + 1, color, at - 1);
    }
}

/// A tube has room only in empty slots.
pub proof fn lemma_room_is_empty(slots: Seq<Color>, color: Color, at: int)
    requires
        color is Full,
        0 <= at < room(slots, color),
    ensures
        0 <= resting_slot(slots) - at,
        slots[resting_slot(slots) - at] is Empty,
{
}

/// Moving `count` units of a colour from the top of its run in `src` to
/// the free slots of `dst` leaves the liquid of the two tubes, taken
/// together, as it was.
proof fn lemma_units_conserved(src: Seq<Color>, dst: Seq<Color>, count: int)
    requires
        src.len() == 4,
        dst.len() == 4,
        top(src) < 4,
        0 <= count <= units_moved(src, dst),
    ensures
        drained(src, top(src), count).to_multiset().add(
            filled(dst, resting_slot(dst), count, src[top(src)]).to_multiset(),
        ) == src.to_multiset().add(dst.to_multiset()),
    decreases count,
{
    broadcast use vstd::multiset::group_multiset_axioms;

    let k = top(src);
    let o = resting_slot(dst);
    let color = src[k];
    if count == 0 {
        assert(drained(src, k, 0) =~= src);
        assert(filled(dst, o, 0, color) =~= dst);
    } else {
        let less = count - 1;
        lemma_units_conserved(src, dst, less);
        lemma_run_holds(src, k, color, less);
        lemma_room_is_empty(dst, color, less);
        let s = drained(src, k, less);
        let d = filled(dst, o, less, color);
        assert(drained(src, k, count) =~= s.update(k + less, Color::Empty));
        assert(filled(dst, o, count, color) =~= d.update(o - less, color));
        to_multiset_update(s, k + less, Color::Empty);
        to_multiset_update(d, o - less, color);
        assert(s[k + less] == color);
        assert(d[o - less] == Color::Empty);
        assert(s.to_multiset().count(color) > 0) by {
            assert(s.contains(s[k + less]));
            to_multiset_contains(s, color);
        }
        assert(d.to_multiset().count(Color::Empty) > 0) by {
            assert(d.contains(d[o - less]));
            to_multiset_contains(d, Color::Empty);
        }
        assert(s.update(k + less, Color::Empty).to_multiset().add(
            d.update(o - less, color).to_multiset(),
        ) =~= s.to_multiset().add(d.to_multiset()));
    }
}

/// A pour neither makes nor destroys liquid: the slots of the two tubes,
/// taken together, hold after the pour what they held before it, each colour
/// as often, the empty slot included.
pub proof fn lemma_pour_conserves(src: Seq<Color>, dst: Seq<Color>)
    requires
        src.len() == 4,
        dst.len() == 4,
    ensures
        source_after(src, dst).to_multiset().add(dest_after(src, dst).to_multiset())
            == src.to_multiset().add(dst.to_multiset()),
{
    if top(src) == 4 {
        assert(source_after(src, dst) =~= src);
    } else {
        lemma_units_conserved(src, dst, units_moved(src, dst) as int);
    }
}

/// A pour that moves nothing leaves both tubes as they were.
pub proof fn lemma_pour_without_effect(src: Seq<Color>, dst: Seq<Color>)
    requires
        src.len() == 4,
        dst.len() == 4,
        units_moved(src, dst) == 0,
    ensures
        source_after(src, dst) == src,
        dest_after(src, dst) == dst,
{
    assert(source_after(src, dst) =~= src);
    assert(dest_after(src, dst) =~= dst);
}

/// Liquid is not poured onto liquid of another colour: where both tubes
/// hold something and their top colours differ, nothing moves.
pub proof fn lemma_pour_refused(src: Seq<Color>, dst: Seq<Color>)
    requires
        settled(src),
        settled(dst),
        top(src) < 4,
        top(dst) < 4,
        src[top(src)] != dst[top(dst)],
    ensures
        units_moved(src, dst) == 0,
        source_after(src, dst) == src,
        dest_after(src, dst) == dst,
{
    lemma_pour_without_effect(src, dst);
}

/// Between settled tubes the rule reads plainly. Nothing moves unless the
/// source holds something and the destination is empty or has the same
/// colour on top. Then as much of the top run moves as the destination has
/// free slots, and it comes to rest directly above what the destination
/// held: on the bottom where it was empty. Both tubes are settled again.
pub proof fn lemma_pour_settled(src: Seq<Color>, dst: Seq<Color>)
    requires
        settled(src),
        settled(dst),
    ensures
        units_moved(src, dst) == if top(src) < 4 && (top(dst) == 4 || dst[top(dst)]
            == src[top(src)]) {
            if run(src, top(src), src[top(src)]) <= top(dst) {
                run(src, top(src), src[top(src)]) as int
            } else {
                top(dst)
            }
        } else {
            0
        },
        top(src) < 4 ==> dest_after(src, dst) == filled(
            dst,
            top(dst) - 1,
            units_moved(src, dst) as int,
            src[top(src)],
        ),
        settled(source_after(src, dst)),
        settled(dest_after(src, dst)),
        top(source_after(src, dst)) >= top(src) + units_moved(src, dst),
        top(dest_after(src, dst)) == top(dst) - units_moved(src, dst),
{
    reveal_with_fuel(run, 5);
    if top(src) < 4 {
        let m = units_moved(src, dst) as int;
        if m > 0 {
            assert(dest_after(src, dst) =~= filled(dst, top(dst) - 1, m, src[top(src)]));
        } else {
            assert(dest_after(src, dst) =~= filled(dst, top(dst) - 1, 0, src[top(src)]));
        }
    }
}

/// Where the destination has room for it, the whole top run of the source
/// moves in one pour.
pub proof fn lemma_pour_whole_run(src: Seq<Color>, dst: Seq<Color>)
    requires
        settled(src),
        settled(dst),
        top(src) < 4,
        top(dst) == 4 || dst[top(dst)] == src[top(src)],
        run(src, top(src), src[top(src)]) <= top(dst),
    ensures
        units_moved(src, dst) == run(src, top(src), src[top(src)]),
        units_moved(src, dst) > 0,
        source_after(src, dst) == drained(
            src,
            top(src),
            run(src, top(src), src[top(src)]) as int,
        ),
        dest_after(src, dst) == filled(
            dst,
            top(dst) - 1,
            run(src, top(src), src[top(src)]) as int,
            src[top(src)],
        ),
{
    lemma_pour_settled(src, dst);
}

/// Tubes with the same content key hold the same colours.
pub proof fn lemma_content_key_injective(a: Seq<Color>, b: Seq<Color>)
    requires
        a.len() == 4,
        b.len() == 4,
        content_key(a) == content_key(b),
    ensures
        a == b,
{
    let high_a = (a[0].rank() * 257 + a[1].rank()) * 257 + a[2].rank();
    let high_b = (b[0].rank() * 257 + b[1].rank()) * 257 + b[2].rank();
    assert(high_a == high_b && a[3].rank() == b[3].rank());
    let higher_a = a[0].rank() * 257 + a[1].rank();
    let higher_b = b[0].rank() * 257 + b[1].rank();
    assert(higher_a == higher_b && a[2].rank() == b[2].rank());
    assert(a[0].rank() == b[0].rank() && a[1].rank() == b[1].rank());
    assert(a =~= b);
}

/// Every content key is a number of four digits in base 257.
pub proof fn lemma_content_key_bounded(slots: Seq<Color>)
    ensures
        0 <= content_key(slots) < KEY_LIMIT,
{
}

} // verus!
