//! Replaying a record of moves. The search brings the tubes into canonical
//! order after every pour, so a move is recorded by the identities of its two
//! tubes, and whoever replays it finds the tubes by their identities.

use vstd::prelude::*;
use vstd::seq_lib::{to_multiset_contains, to_multiset_remove, to_multiset_update};
use crate::game::{Game, GameView};
use crate::tube::uniform;

verus! {

impl GameView {
    /// No two tubes carry the same identity.
    pub open spec fn distinct_ids(self) -> bool {
        forall|i: int, j: int|
            0 <= i < j < self.tubes.len() ==> (#[trigger] self.tubes[i]).id != (
            #[trigger] self.tubes[j]).id
    }

    /// The first position at which a tube with identity `id` stands.
    pub open spec fn position(self, id: usize) -> int {
        choose|i: int|
            0 <= i < self.tubes.len() && (#[trigger] self.tubes[i]).id == id && forall|j: int|
                0 <= j < i ==> (#[trigger] self.tubes[j]).id != id
    }

    /// The position that the moves of `record` lead to, made one after
    /// another, each from the tube with the first identity into the tube with
    /// the second. The tubes keep their places.
    pub open spec fn replay(self, record: Seq<(usize, usize)>) -> GameView
        decreases record.len(),
    {
        if record.len() == 0 {
            self
        } else {
            let before = self.replay(record.drop_last());
            before.pour(before.position(record.last().0), before.position(record.last().1))
        }
    }

    /// Every move of `record` can be made in its turn: both its tubes are
    /// there, and the pour moves something.
    pub open spec fn replays(self, record: Seq<(usize, usize)>) -> bool
        decreases record.len(),
    {
        record.len() == 0 || {
            let before = self.replay(record.drop_last());
            &&& self.replays(record.drop_last())
            &&& before.holds(record.last().0)
            &&& before.holds(record.last().1)
            &&& before.pours(before.position(record.last().0), before.position(record.last().1))
        }
    }
}

/// A record that can be replayed can be replayed up to any of its moves.
pub proof fn lemma_replays_prefix(g: GameView, record: Seq<(usize, usize)>, upto: int)
    requires
        g.replays(record),
        0 <= upto <= record.len(),
    ensures
        g.replays(record.take(upto)),
    decreases record.len(),
{
    if upto == record.len() {
        assert(record.take(upto) =~= record);
    } else {
        let shorter = record.drop_last();
        assert(g.replays(shorter));
        lemma_replays_prefix(g, shorter, upto);
        assert(shorter.take(upto) =~= record.take(upto));
    }
}

/// What replaying one move more of a record comes to: the tubes of the move
/// are there, and the pour between them is made.
pub proof fn lemma_replay_next(g: GameView, record: Seq<(usize, usize)>, at: int)
    requires
        g.replays(record),
        0 <= at < record.len(),
    ensures
        g.replay(record.take(at)).holds(record[at].0),
        g.replay(record.take(at)).holds(record[at].1),
        g.replay(record.take(at)).pours(
            g.replay(record.take(at)).position(record[at].0),
            g.replay(record.take(at)).position(record[at].1),
        ),
        g.replay(record.take(at + 1)) == g.replay(record.take(at)).pour(
            g.replay(record.take(at)).position(record[at].0),
            g.replay(record.take(at)).position(record[at].1),
        ),
{
    lemma_replays_prefix(g, record, at + 1);
    assert(record.take(at + 1).drop_last() =~= record.take(at));
    assert(record.take(at + 1).last() == record[at]);
}

impl Game {
    /// Makes the moves of `record` one after another, finding the tubes of
    /// each by their identities.
    pub fn replay(&mut self, record: &Vec<(usize, usize)>)
        requires
            old(self)@.replays(record@),
        ensures
            final(self)@ == old(self)@.replay(record@),
    {
        let ghost start = self@;
        let mut k: usize = 0;
        while k < record.len()
            invariant
                k <= record.len(),
                start.replays(record@),
                self@ == start.replay(record@.take(k as int)),
            decreases record.len() - k,
        {
            proof {
                lemma_replay_next(start, record@, k as int);
            }
            let from = self.tube(record[k].0);
            let to = self.tube(record[k].1);
            self.pour(from, to);
            k += 1;
        }
        assert(record@.take(k as int) =~= record@);
    }
}

/// Where a position holds a tube with a given identity, `position` finds
/// one.
pub proof fn lemma_position(g: GameView, id: usize)
    requires
        g.holds(id),
    ensures
        0 <= g.position(id) < g.tubes.len(),
        g.tubes[g.position(id)].id == id,
        forall|j: int| 0 <= j < g.position(id) ==> (#[trigger] g.tubes[j]).id != id,
{
    let some = choose|i: int| 0 <= i < g.tubes.len() && (#[trigger] g.tubes[i]).id == id;
    lemma_first_with(g, id, some);
}

/// The first position at which a tube with a given identity stands is the
/// position of that identity.
pub proof fn lemma_position_is(g: GameView, id: usize, at: int)
    requires
        0 <= at < g.tubes.len(),
        g.tubes[at].id == id,
        forall|j: int| 0 <= j < at ==> (#[trigger] g.tubes[j]).id != id,
    ensures
        g.position(id) == at,
{
    assert(g.holds(id));
    lemma_position(g, id);
    let p = g.position(id);
    if p < at {
        assert(g.tubes[p].id != id);
    } else if at < p {
        assert(g.tubes[at].id != id);
    }
}

/// Before any tube with a given identity stands a first one.
proof fn lemma_first_with(g: GameView, id: usize, at: int)
    requires
        0 <= at < g.tubes.len(),
        g.tubes[at].id == id,
    ensures
        exists|i: int|
            0 <= i < g.tubes.len() && (#[trigger] g.tubes[i]).id == id && forall|j: int|
                0 <= j < i ==> (#[trigger] g.tubes[j]).id != id,
    decreases at,
{
    if exists|j: int| 0 <= j < at && (#[trigger] g.tubes[j]).id == id {
        let j = choose|j: int| 0 <= j < at && (#[trigger] g.tubes[j]).id == id;
        lemma_first_with(g, id, j);
    } else {
        assert(g.tubes[at].id == id);
    }
}

/// A tube of one position stands somewhere in every position that holds the
/// same tubes.
proof fn lemma_counterpart(x: GameView, i: int, y: GameView) -> (j: int)
    requires
        x.rearranges(y),
        0 <= i < x.tubes.len(),
    ensures
        0 <= j < y.tubes.len(),
        y.tubes[j] == x.tubes[i],
{
    assert(x.tubes.contains(x.tubes[i]));
    to_multiset_contains(x.tubes, x.tubes[i]);
    to_multiset_contains(y.tubes, x.tubes[i]);
    choose|j: int| 0 <= j < y.tubes.len() && y.tubes[j] == x.tubes[i]
}

/// Positions that hold the same tubes are solved together.
pub proof fn lemma_rearranged_solved(x: GameView, y: GameView)
    requires
        x.rearranges(y),
    ensures
        x.solved() == y.solved(),
{
    if y.solved() {
        assert forall|i: int| 0 <= i < x.tubes.len() implies uniform(
            (#[trigger] x.tubes[i]).slots,
        ) by {
            let j = lemma_counterpart(x, i, y);
        }
    }
    if x.solved() {
        assert forall|i: int| 0 <= i < y.tubes.len() implies uniform(
            (#[trigger] y.tubes[i]).slots,
        ) by {
            let j = lemma_counterpart(y, i, x);
        }
    }
}

/// Tubes that are told apart by their identities in one order are told
/// apart by them in every order.
pub proof fn lemma_rearranged_distinct(x: GameView, y: GameView)
    requires
        x.rearranges(y),
        y.distinct_ids(),
    ensures
        x.distinct_ids(),
{
    assert forall|i: int, j: int| 0 <= i < j < x.tubes.len() implies (#[trigger] x.tubes[i]).id != (
    #[trigger] x.tubes[j]).id by {
        let p = lemma_counterpart(x, i, y);
        to_multiset_remove(x.tubes, i);
        to_multiset_remove(y.tubes, p);
        let x_rest = x.tubes.remove(i);
        let y_rest = y.tubes.remove(p);
        assert(x_rest[j - 1] == x.tubes[j]);
        assert(x_rest.contains(x.tubes[j]));
        to_multiset_contains(x_rest, x.tubes[j]);
        to_multiset_contains(y_rest, x.tubes[j]);
        let q_rest = choose|q: int| 0 <= q < y_rest.len() && y_rest[q] == x.tubes[j];
        let q = if q_rest < p {
            q_rest
        } else {
            q_rest + 1
        };
        assert(y.tubes[q] == x.tubes[j]);
        assert(p != q);
        if p < q {
            assert(y.tubes[p].id != y.tubes[q].id);
        } else {
            assert(y.tubes[q].id != y.tubes[p].id);
        }
    }
}

/// Where identities tell the tubes apart, a tube stands at the position of
/// its identity.
proof fn lemma_position_of(g: GameView, i: int)
    requires
        g.distinct_ids(),
        0 <= i < g.tubes.len(),
    ensures
        g.position(g.tubes[i].id) == i,
{
    let id = g.tubes[i].id;
    assert(g.holds(id));
    lemma_position(g, id);
    let p = g.position(id);
    if p < i {
        assert(g.tubes[p].id != g.tubes[i].id);
    } else if i < p {
        assert(g.tubes[i].id != g.tubes[p].id);
    }
}

/// The tubes of a position after a pour: the tubes before it, with the two
/// that took part replaced.
proof fn lemma_tubes_after_pour(g: GameView, a: int, b: int)
    requires
        a != b,
        0 <= a < g.tubes.len(),
        0 <= b < g.tubes.len(),
    ensures
        g.pour(a, b).tubes.to_multiset() == g.tubes.to_multiset().insert(
            g.pour(a, b).tubes[a],
        ).remove(g.tubes[a]).insert(g.pour(a, b).tubes[b]).remove(g.tubes[b]),
{
    let after = g.pour(a, b);
    assert(after.tubes =~= g.tubes.update(a, after.tubes[a]).update(b, after.tubes[b]));
    to_multiset_update(g.tubes, a, after.tubes[a]);
    to_multiset_update(g.tubes.update(a, after.tubes[a]), b, after.tubes[b]);
}

/// A pour found by identities does the same to the same tubes, in whatever
/// order they stand.
proof fn lemma_pour_by_identity(x: GameView, a: int, b: int, y: GameView)
    requires
        x.rearranges(y),
        x.distinct_ids(),
        x.pours(a, b),
    ensures
        y.holds(x.tubes[a].id),
        y.holds(x.tubes[b].id),
        y.pours(y.position(x.tubes[a].id), y.position(x.tubes[b].id)),
        y.pour(y.position(x.tubes[a].id), y.position(x.tubes[b].id)).rearranges(x.pour(a, b)),
{
    lemma_rearranged_distinct(y, x);
    let c = lemma_counterpart(x, a, y);
    let d = lemma_counterpart(x, b, y);
    lemma_position_of(y, c);
    lemma_position_of(y, d);
    if a < b {
        assert(x.tubes[a].id != x.tubes[b].id);
    } else {
        assert(x.tubes[b].id != x.tubes[a].id);
    }
    assert(y.tubes[c].id == x.tubes[a].id);
    assert(y.tubes[d].id == x.tubes[b].id);
    lemma_tubes_after_pour(x, a, b);
    lemma_tubes_after_pour(y, c, d);
}

/// A pour leaves the identities where they were.
proof fn lemma_pour_distinct(g: GameView, a: int, b: int)
    requires
        g.distinct_ids(),
    ensures
        g.pour(a, b).distinct_ids(),
{
    let after = g.pour(a, b);
    assert forall|i: int, j: int| 0 <= i < j < after.tubes.len() implies (
    #[trigger] after.tubes[i]).id != (#[trigger] after.tubes[j]).id by {
        assert(after.tubes[i].id == g.tubes[i].id);
        assert(after.tubes[j].id == g.tubes[j].id);
    }
}

/// The record of a position that the search has reached can be replayed
/// from the root. The record continues that of the root; the moves added,
/// made one after another from the root by the identities of their tubes,
/// each move something, and they lead to a position that holds the tubes of
/// the position reached.
pub proof fn lemma_reached_by_replay(root: GameView, steps: nat, g: GameView)
    requires
        root.distinct_ids(),
        root.reaches(steps, g),
    ensures
        g.moves.len() == root.moves.len() + steps,
        g.moves.take(root.moves.len() as int) == root.moves,
        root.replays(g.moves.skip(root.moves.len() as int)),
        root.replay(g.moves.skip(root.moves.len() as int)).rearranges(g),
        g.distinct_ids(),
    decreases steps,
{
    let from = root.moves.len() as int;
    if steps == 0 {
        assert(g.moves.take(from) =~= root.moves);
        assert(g.moves.skip(from).len() == 0);
    } else {
        let mid = choose|mid: GameView|
            root.reaches((steps - 1) as nat, mid) && #[trigger] mid.leads_to(g);
        lemma_reached_by_replay(root, (steps - 1) as nat, mid);
        let (a, b) = choose|a: int, b: int| mid.step(a, b, g);
        let trail = g.moves.skip(from);
        let shorter = mid.moves.skip(from);
        let before = root.replay(shorter);
        assert(trail.drop_last() =~= shorter);
        assert(trail.last() == (mid.tubes[a].id, mid.tubes[b].id));
        assert(g.moves.take(from) =~= mid.moves.take(from));
        lemma_pour_by_identity(mid, a, b, before);
        lemma_pour_distinct(mid, a, b);
        lemma_rearranged_distinct(g, mid.pour(a, b));
    }
}

/// A record that the search returns solves the puzzle when it is replayed:
/// each of its moves, found by the identities of its tubes, moves something,
/// and the last of them leaves every tube holding one colour or none.
pub proof fn lemma_solution_replays(root: GameView, steps: nat, record: Seq<(usize, usize)>)
    requires
        root.distinct_ids(),
        root.solved_by(steps, record),
    ensures
        record.len() == root.moves.len() + steps,
        record.take(root.moves.len() as int) == root.moves,
        root.replays(record.skip(root.moves.len() as int)),
        root.replay(record.skip(root.moves.len() as int)).solved(),
{
    let end = choose|end: GameView|
        #![trigger root.reaches(steps, end)]
        root.reaches(steps, end) && end.solved() && end.moves == record;
    lemma_reached_by_replay(root, steps, end);
    lemma_rearranged_solved(root.replay(record.skip(root.moves.len() as int)), end);
}

} // verus!
