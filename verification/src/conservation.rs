//! No pour makes or destroys liquid, so a puzzle that is well posed stays so
//! whatever is poured, and it is enough to check it once. Nor does a pour
//! leave liquid floating above a gap where none floated before.

use vstd::prelude::*;
use vstd::seq_lib::{
    lemma_flatten_concat, lemma_multiset_commutative, to_multiset_contains, to_multiset_remove,
};
use crate::color::Color;
use crate::game::GameView;
use crate::seqs::lemma_map_keeps_multiset;
use crate::pouring::{lemma_pour_conserves, lemma_pour_settled};
use crate::tube::{settled, TubeView};

verus! {

/// What a list of sequences holds, taken together, is what one of them
/// holds and what the others hold.
proof fn lemma_flatten_without<A>(parts: Seq<Seq<A>>, i: int)
    requires
        0 <= i < parts.len(),
    ensures
        parts.flatten().to_multiset() == parts.remove(i).flatten().to_multiset().add(
            parts[i].to_multiset(),
        ),
{
    broadcast use vstd::multiset::group_multiset_axioms;

    let front = parts.take(i);
    let one = seq![parts[i]];
    let back = parts.skip(i + 1);
    assert(parts =~= front + one + back);
    assert(parts.remove(i) =~= front + back);
    lemma_flatten_concat(front + one, back);
    lemma_flatten_concat(front, one);
    lemma_flatten_concat(front, back);
    one.lemma_flatten_one_element();
    assert(one.flatten() =~= parts[i]);
    lemma_multiset_commutative(front.flatten() + parts[i], back.flatten());
    lemma_multiset_commutative(front.flatten(), parts[i]);
    lemma_multiset_commutative(front.flatten(), back.flatten());
    assert(parts.flatten().to_multiset() =~= parts.remove(i).flatten().to_multiset().add(
        parts[i].to_multiset(),
    ));
}

/// Lists that hold the same sequences hold the same, taken together.
proof fn lemma_flatten_rearranged<A>(x: Seq<Seq<A>>, y: Seq<Seq<A>>)
    requires
        x.to_multiset() == y.to_multiset(),
    ensures
        x.flatten().to_multiset() == y.flatten().to_multiset(),
    decreases x.len(),
{
    broadcast use vstd::multiset::group_multiset_axioms;

    vstd::seq_lib::to_multiset_len(x);
    vstd::seq_lib::to_multiset_len(y);
    if x.len() == 0 {
        assert(x =~= y);
    } else {
        let last = x.len() - 1;
        assert(x.contains(x[last]));
        to_multiset_contains(x, x[last]);
        to_multiset_contains(y, x[last]);
        let i = choose|i: int| 0 <= i < y.len() && y[i] == x[last];
        to_multiset_remove(x, last);
        to_multiset_remove(y, i);
        lemma_flatten_rearranged(x.remove(last), y.remove(i));
        lemma_flatten_without(x, last);
        lemma_flatten_without(y, i);
    }
}

/// Positions that hold the same tubes hold each colour as often.
pub proof fn lemma_rearranged_count(x: GameView, y: GameView, color: Color)
    requires
        x.rearranges(y),
    ensures
        x.count(color) == y.count(color),
{
    lemma_map_keeps_multiset(x.tubes, y.tubes, |t: TubeView| t.slots);
    lemma_flatten_rearranged(
        x.tubes.map_values(|t: TubeView| t.slots),
        y.tubes.map_values(|t: TubeView| t.slots),
    );
}

/// A pour leaves the number of slots that hold a colour as it was.
pub proof fn lemma_pour_keeps_count(g: GameView, a: int, b: int, color: Color)
    requires
        g.proper(),
    ensures
        g.pour(a, b).count(color) == g.count(color),
{
    broadcast use vstd::multiset::group_multiset_axioms;

    if a != b && 0 <= a < g.tubes.len() && 0 <= b < g.tubes.len() {
        let before = g.tubes.map_values(|t: TubeView| t.slots);
        let after = g.pour(a, b).tubes.map_values(|t: TubeView| t.slots);
        let a_rest = if a < b {
            a
        } else {
            a - 1
        };
        lemma_flatten_without(before, b);
        lemma_flatten_without(before.remove(b), a_rest);
        lemma_flatten_without(after, b);
        lemma_flatten_without(after.remove(b), a_rest);
        assert(after.remove(b).remove(a_rest) =~= before.remove(b).remove(a_rest));
        assert(before.remove(b)[a_rest] == before[a]);
        assert(after.remove(b)[a_rest] == after[a]);
        assert(g.tubes[a].slots.len() == 4);
        assert(g.tubes[b].slots.len() == 4);
        lemma_pour_conserves(g.tubes[a].slots, g.tubes[b].slots);
        let rest = before.remove(b).remove(a_rest).flatten().to_multiset();
        assert(after.flatten().to_multiset() =~= rest.add(
            after[a].to_multiset().add(after[b].to_multiset()),
        ));
        assert(before.flatten().to_multiset() =~= rest.add(
            before[a].to_multiset().add(before[b].to_multiset()),
        ));
    }
}

impl GameView {
    /// In no tube does liquid float above a gap.
    pub open spec fn settled(self) -> bool {
        forall|i: int| 0 <= i < self.tubes.len() ==> settled((#[trigger] self.tubes[i]).slots)
    }
}

/// A pour between settled tubes leaves every tube settled.
pub proof fn lemma_pour_keeps_settled(g: GameView, a: int, b: int)
    requires
        g.settled(),
    ensures
        g.pour(a, b).settled(),
{
    let after = g.pour(a, b);
    assert forall|i: int| 0 <= i < after.tubes.len() implies settled(
        (#[trigger] after.tubes[i]).slots,
    ) by {
        if a != b && 0 <= a < g.tubes.len() && 0 <= b < g.tubes.len() {
            lemma_pour_settled(g.tubes[a].slots, g.tubes[b].slots);
            if i != a && i != b {
                assert(after.tubes[i] == g.tubes[i]);
            }
        }
    }
}

/// What pours lead to from a position in which nothing floats above a gap
/// is such a position again.
pub proof fn lemma_reaches_settled(root: GameView, steps: nat, g: GameView)
    requires
        root.settled(),
        root.reaches(steps, g),
    ensures
        g.settled(),
    decreases steps,
{
    if steps > 0 {
        let mid = choose|mid: GameView|
            root.reaches((steps - 1) as nat, mid) && #[trigger] mid.leads_to(g);
        lemma_reaches_settled(root, (steps - 1) as nat, mid);
        let (a, b) = choose|a: int, b: int| mid.step(a, b, g);
        let after = mid.pour(a, b);
        lemma_pour_keeps_settled(mid, a, b);
        assert forall|i: int| 0 <= i < g.tubes.len() implies settled(
            (#[trigger] g.tubes[i]).slots,
        ) by {
            assert(g.tubes.contains(g.tubes[i]));
            to_multiset_contains(g.tubes, g.tubes[i]);
            to_multiset_contains(after.tubes, g.tubes[i]);
            let j = choose|j: int| 0 <= j < after.tubes.len() && after.tubes[j] == g.tubes[i];
            assert(settled(after.tubes[j].slots));
        }
    }
}

/// What pours lead to from a well-posed puzzle is well posed.
pub proof fn lemma_reaches_valid(root: GameView, steps: nat, g: GameView)
    requires
        root.proper(),
        root.valid(),
        root.reaches(steps, g),
    ensures
        g.valid(),
{
    assert forall|color: Color| g.count(color) == root.count(color) by {
        lemma_reaches_count(root, steps, g, color);
    }
}

/// What pours lead to holds each colour as often as the position they
/// started from.
pub proof fn lemma_reaches_count(root: GameView, steps: nat, g: GameView, color: Color)
    requires
        root.proper(),
        root.reaches(steps, g),
    ensures
        g.count(color) == root.count(color),
    decreases steps,
{
    if steps > 0 {
        let mid = choose|mid: GameView|
            root.reaches((steps - 1) as nat, mid) && #[trigger] mid.leads_to(g);
        lemma_reaches_count(root, (steps - 1) as nat, mid, color);
        crate::search::lemma_reaches_proper(root, (steps - 1) as nat, mid);
        let (a, b) = choose|a: int, b: int| mid.step(a, b, g);
        lemma_pour_keeps_count(mid, a, b, color);
        lemma_rearranged_count(g, mid.pour(a, b), color);
    }
}

} // verus!
