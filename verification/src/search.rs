//! What the search rests on: the state of a position, which is its canonical
//! key, decides whether the position is solved and which states one pour
//! leads to.

use vstd::prelude::*;
use vstd::seq_lib::{to_multiset_contains, to_multiset_remove, to_multiset_update};
use crate::game::{keys_of, lemma_rearranged_same_state, Game, GameView};
use crate::seqs::{lemma_push_contains, lemma_sorted_same, lemma_swap_keeps_multiset};
use crate::tube::{dest_after, run, source_after, uniform, units_moved};
use crate::pouring::lemma_content_key_injective;

verus! {

/// The view of a position is proper.
pub proof fn lemma_view_proper(game: Game)
    ensures
        game@.proper(),
{
    broadcast use vstd::array::array_len_matches_n;

    assert forall|i: int| 0 <= i < game@.tubes.len() implies (#[trigger] game@.tubes[i]).slots.len()
        == 4 by {
        assert(game@.tubes[i].slots == game.state@[i].colors@);
    }
}

/// A pour leaves every tube with its four slots.
pub proof fn lemma_pour_proper(g: GameView, a: int, b: int)
    requires
        g.proper(),
    ensures
        g.pour(a, b).proper(),
{
    let after = g.pour(a, b);
    assert forall|i: int| 0 <= i < after.tubes.len() implies (#[trigger] after.tubes[i]).slots.len()
        == 4 by {
        if a != b && 0 <= a < g.tubes.len() && 0 <= b < g.tubes.len() {
            assert(g.tubes[a].slots.len() == 4);
            assert(g.tubes[b].slots.len() == 4);
            if i != a && i != b {
                assert(after.tubes[i] == g.tubes[i]);
            }
        }
    }
}

/// What a pour leads to from a proper position is proper.
pub proof fn lemma_step_proper(g: GameView, next: GameView)
    requires
        g.proper(),
        g.leads_to(next),
    ensures
        next.proper(),
{
    let (a, b) = choose|a: int, b: int| g.step(a, b, next);
    let after = g.pour(a, b);
    lemma_pour_proper(g, a, b);
    assert forall|i: int| 0 <= i < next.tubes.len() implies (#[trigger] next.tubes[i]).slots.len()
        == 4 by {
        assert(next.tubes.contains(next.tubes[i]));
        to_multiset_contains(next.tubes, next.tubes[i]);
        to_multiset_contains(after.tubes, next.tubes[i]);
        let j = choose|j: int| 0 <= j < after.tubes.len() && after.tubes[j] == next.tubes[i];
        assert(after.tubes[j].slots.len() == 4);
    }
}

/// What pours lead to from a proper position is proper.
pub proof fn lemma_reaches_proper(root: GameView, steps: nat, g: GameView)
    requires
        root.proper(),
        root.reaches(steps, g),
    ensures
        g.proper(),
    decreases steps,
{
    if steps > 0 {
        let mid = choose|mid: GameView|
            root.reaches((steps - 1) as nat, mid) && #[trigger] mid.leads_to(g);
        lemma_reaches_proper(root, (steps - 1) as nat, mid);
        lemma_step_proper(mid, g);
    }
}

/// Two positions are the same state when they hold the same content keys,
/// each as often, and only then.
pub proof fn lemma_same_state_keys(a: GameView, b: GameView)
    ensures
        a.same_state(b) <==> a.keys().to_multiset() == b.keys().to_multiset(),
{
    lemma_sorted_same(a.keys(), b.keys());
}

/// A tube of one position whose key occurs among the keys of another has a
/// twin there: a tube with the same colours.
proof fn lemma_twin(a: GameView, i: int, b: GameView) -> (j: int)
    requires
        a.proper(),
        b.proper(),
        0 <= i < a.tubes.len(),
        b.keys().to_multiset().count(a.keys()[i]) > 0,
    ensures
        0 <= j < b.tubes.len(),
        b.tubes[j].slots == a.tubes[i].slots,
{
    to_multiset_contains(b.keys(), a.keys()[i]);
    let j = choose|j: int| 0 <= j < b.keys().len() && b.keys()[j] == a.keys()[i];
    lemma_content_key_injective(a.tubes[i].slots, b.tubes[j].slots);
    j
}

/// Whether a position is solved depends on its state alone.
pub proof fn lemma_same_state_solved(a: GameView, b: GameView)
    requires
        a.proper(),
        b.proper(),
        a.same_state(b),
    ensures
        a.solved() == b.solved(),
{
    lemma_same_state_keys(a, b);
    if b.solved() {
        assert forall|i: int| 0 <= i < a.tubes.len() implies uniform(
            (#[trigger] a.tubes[i]).slots,
        ) by {
            assert(a.keys().contains(a.keys()[i]));
            to_multiset_contains(a.keys(), a.keys()[i]);
            let j = lemma_twin(a, i, b);
        }
    }
    if a.solved() {
        assert forall|i: int| 0 <= i < b.tubes.len() implies uniform(
            (#[trigger] b.tubes[i]).slots,
        ) by {
            assert(b.keys().contains(b.keys()[i]));
            to_multiset_contains(b.keys(), b.keys()[i]);
            let j = lemma_twin(b, i, a);
        }
    }
}

/// The keys of a position after a pour: the keys before it, with those of
/// the two tubes replaced.
proof fn lemma_keys_after_pour(g: GameView, a: int, b: int)
    requires
        a != b,
        0 <= a < g.tubes.len(),
        0 <= b < g.tubes.len(),
    ensures
        g.pour(a, b).keys().to_multiset() == g.keys().to_multiset().insert(
            g.pour(a, b).tubes[a].key(),
        ).remove(g.tubes[a].key()).insert(g.pour(a, b).tubes[b].key()).remove(g.tubes[b].key()),
{
    let after = g.pour(a, b);
    let keys = g.keys();
    assert(after.keys() =~= keys.update(a, after.tubes[a].key()).update(b, after.tubes[b].key()));
    to_multiset_update(keys, a, after.tubes[a].key());
    to_multiset_update(keys.update(a, after.tubes[a].key()), b, after.tubes[b].key());
}

/// The states that one pour leads to depend on the state alone: a pour
/// that moves something in one position has a counterpart in every
/// position of the same state, and the two lead to the same state.
pub proof fn lemma_same_state_pours(g: GameView, a: int, b: int, h: GameView) -> (at: (int, int))
    requires
        g.proper(),
        h.proper(),
        g.same_state(h),
        g.pours(a, b),
    ensures
        h.pours(at.0, at.1),
        h.pour(at.0, at.1).same_state(g.pour(a, b)),
{
    broadcast use vstd::multiset::group_multiset_axioms;

    lemma_same_state_keys(g, h);
    let gk = g.keys();
    let hk = h.keys();
    assert(gk.contains(gk[a]));
    to_multiset_contains(gk, gk[a]);
    let c = lemma_twin(g, a, h);
    // Leave the two sources out, and look for the destination in the rest.
    to_multiset_remove(gk, a);
    to_multiset_remove(hk, c);
    lemma_content_key_injective(g.tubes[a].slots, h.tubes[c].slots);
    let g_rest = gk.remove(a);
    let h_rest = hk.remove(c);
    assert(g_rest.to_multiset() == h_rest.to_multiset());
    let b_rest = if b < a {
        b
    } else {
        b - 1
    };
    assert(g_rest[b_rest] == gk[b]);
    assert(g_rest.contains(gk[b]));
    to_multiset_contains(g_rest, gk[b]);
    to_multiset_contains(h_rest, gk[b]);
    let d_rest = choose|j: int| 0 <= j < h_rest.len() && h_rest[j] == gk[b];
    let d = if d_rest < c {
        d_rest
    } else {
        d_rest + 1
    };
    assert(hk[d] == gk[b]);
    lemma_content_key_injective(g.tubes[b].slots, h.tubes[d].slots);
    lemma_keys_after_pour(g, a, b);
    lemma_keys_after_pour(h, c, d);
    lemma_same_state_keys(h.pour(c, d), g.pour(a, b));
    (c, d)
}

/// What a pour leads to is of the state that the pour leaves.
pub proof fn lemma_step_state(g: GameView, a: int, b: int, next: GameView)
    requires
        g.step(a, b, next),
    ensures
        next.same_state(g.pour(a, b)),
{
    lemma_rearranged_same_state(next, g.pour(a, b));
}

/// From a solved position a pour leads nowhere new: all it can do is to
/// empty a full tube into an empty one, which leaves the state as it was.
pub proof fn lemma_solved_stays(g: GameView, next: GameView)
    requires
        g.proper(),
        g.solved(),
        g.leads_to(next),
    ensures
        next.same_state(g),
{
    let (a, b) = choose|a: int, b: int| g.step(a, b, next);
    let src = g.tubes[a].slots;
    let dst = g.tubes[b].slots;
    assert(uniform(src) && uniform(dst));
    assert(src.len() == 4 && dst.len() == 4);
    reveal_with_fuel(run, 5);
    assert(units_moved(src, dst) == 4);
    assert(source_after(src, dst) =~= dst);
    assert(dest_after(src, dst) =~= src);
    let keys = g.keys();
    assert(g.pour(a, b).keys() =~= keys.update(a, keys[b]).update(b, keys[a]));
    lemma_swap_keeps_multiset(keys, a, b);
    lemma_same_state_keys(g.pour(a, b), g);
    lemma_step_state(g, a, b, next);
}

/// Every state that one pour leads to from `g` is among `visited`.
pub open spec fn covered(visited: Seq<Seq<int>>, g: GameView) -> bool {
    forall|a: int, b: int| #[trigger]
        g.pours(a, b) ==> visited.contains(g.pour(a, b).canonical_key())
}

/// The state of every position within `depth` pours of `root` is among
/// `visited`.
pub open spec fn seen_within(root: GameView, depth: nat, visited: Seq<Seq<int>>) -> bool {
    forall|steps: nat, g: GameView|
        steps <= depth && #[trigger] root.reaches(steps, g) ==> visited.contains(
            g.canonical_key(),
        )
}

/// No position with a state among `visited` is solved.
pub open spec fn none_solved(visited: Seq<Seq<int>>) -> bool {
    forall|g: GameView|
        g.proper() && visited.contains(#[trigger] g.canonical_key()) ==> !g.solved()
}

/// The visited states outside the frontier have been explored: every state
/// that one pour leads to from them has been visited too.
pub open spec fn explored(visited: Seq<Seq<int>>, frontier: Seq<GameView>) -> bool {
    forall|g: GameView|
        g.proper() && visited.contains(#[trigger] g.canonical_key()) && !keys_of(
            frontier,
        ).contains(g.canonical_key()) ==> covered(visited, g)
}

/// No solved position lies less than `depth` pours from `root`, the root
/// itself left aside.
pub open spec fn no_shorter(root: GameView, depth: nat) -> bool {
    forall|steps: nat, g: GameView|
        1 <= steps < depth && #[trigger] root.reaches(steps, g) ==> !g.solved()
}

/// The state of every solved position that lies `depth` pours from `root`
/// is the state of one of the positions found.
pub open spec fn all_found(root: GameView, depth: nat, found: Seq<GameView>) -> bool {
    forall|g: GameView| #[trigger]
        root.reaches(depth, g) && g.solved() ==> keys_of(found).contains(g.canonical_key())
}

/// No pours, however many, lead from `root` to a solved position.
pub open spec fn unsolvable(root: GameView) -> bool {
    forall|steps: nat, g: GameView|
        1 <= steps && #[trigger] root.reaches(steps, g) ==> !g.solved()
}

/// `later` holds every key that `earlier` holds.
pub open spec fn extends(later: Seq<Seq<int>>, earlier: Seq<Seq<int>>) -> bool {
    forall|key: Seq<int>| #[trigger] earlier.contains(key) ==> later.contains(key)
}

/// Every key that `later` holds and `earlier` does not is the key of a
/// position in `onward` or in `found`.
pub open spec fn accounted(
    later: Seq<Seq<int>>,
    earlier: Seq<Seq<int>>,
    onward: Seq<GameView>,
    found: Seq<GameView>,
) -> bool {
    forall|key: Seq<int>| #[trigger]
        later.contains(key) && !earlier.contains(key) ==> keys_of(onward).contains(key)
            || keys_of(found).contains(key)
}

/// Each position of `games` lies `depth` pours from `root`, and its state
/// is one that `later` holds and `earlier` does not. No two of the positions
/// are of the same state.
pub open spec fn fresh(
    root: GameView,
    depth: nat,
    earlier: Seq<Seq<int>>,
    later: Seq<Seq<int>>,
    games: Seq<GameView>,
) -> bool {
    &&& keys_of(games).no_duplicates()
    &&& forall|i: int|
        0 <= i < games.len() ==> {
            &&& root.reaches(depth, #[trigger] games[i])
            &&& later.contains(games[i].canonical_key())
            &&& !earlier.contains(games[i].canonical_key())
        }
}

/// What holds in the middle of a round that began with the states
/// `earlier`: the states seen by now are `later`, and each new state has
/// one position, in `onward` where it is not solved, and in `found` where it
/// is. All of these positions lie `depth` pours from the root.
pub open spec fn round_state(
    root: GameView,
    depth: nat,
    earlier: Seq<Seq<int>>,
    later: Seq<Seq<int>>,
    onward: Seq<GameView>,
    found: Seq<GameView>,
) -> bool {
    &&& extends(later, earlier)
    &&& accounted(later, earlier, onward, found)
    &&& fresh(root, depth, earlier, later, onward)
    &&& fresh(root, depth, earlier, later, found)
    &&& forall|i: int| 0 <= i < onward.len() ==> !(#[trigger] onward[i]).solved()
    &&& forall|i: int| 0 <= i < found.len() ==> (#[trigger] found[i]).solved()
}

/// A position of a state not yet seen joins positions that are fresh.
proof fn lemma_fresh_push(
    root: GameView,
    depth: nat,
    earlier: Seq<Seq<int>>,
    later: Seq<Seq<int>>,
    games: Seq<GameView>,
    game: GameView,
)
    requires
        fresh(root, depth, earlier, later, games),
        extends(later, earlier),
        root.reaches(depth, game),
        !later.contains(game.canonical_key()),
    ensures
        fresh(root, depth, earlier, later.push(game.canonical_key()), games.push(game)),
        fresh(root, depth, earlier, later.push(game.canonical_key()), games),
{
    let key = game.canonical_key();
    let grown = later.push(key);
    let more = games.push(game);
    assert(keys_of(more) =~= keys_of(games).push(key));
    assert forall|i: int| 0 <= i < more.len() implies grown.contains(
        (#[trigger] more[i]).canonical_key(),
    ) by {
        lemma_push_contains(later, key, more[i].canonical_key());
    }
    assert forall|i: int| 0 <= i < games.len() implies keys_of(games)[i] != key by {
        assert(later.contains(games[i].canonical_key()));
    }
    assert forall|i: int| 0 <= i < games.len() implies grown.contains(
        (#[trigger] games[i]).canonical_key(),
    ) by {
        lemma_push_contains(later, key, games[i].canonical_key());
    }
}

/// The key of a position is among the keys of a list that holds the
/// position.
pub proof fn lemma_key_listed(games: Seq<GameView>, i: int)
    requires
        0 <= i < games.len(),
    ensures
        keys_of(games).contains(games[i].canonical_key()),
{
    assert(keys_of(games)[i] == games[i].canonical_key());
}

/// A key among the keys of a list is the key of a position of the list.
pub proof fn lemma_listed_key(games: Seq<GameView>, key: Seq<int>) -> (i: int)
    requires
        keys_of(games).contains(key),
    ensures
        0 <= i < games.len(),
        games[i].canonical_key() == key,
{
    let i = choose|i: int| 0 <= i < keys_of(games).len() && keys_of(games)[i] == key;
    i
}

/// What is covered stays covered when more states are visited.
pub proof fn lemma_covered_extends(earlier: Seq<Seq<int>>, later: Seq<Seq<int>>, g: GameView)
    requires
        covered(earlier, g),
        extends(later, earlier),
    ensures
        covered(later, g),
{
}

/// A new state enters a round.
pub proof fn lemma_round_visit(
    root: GameView,
    depth: nat,
    earlier: Seq<Seq<int>>,
    later: Seq<Seq<int>>,
    onward: Seq<GameView>,
    found: Seq<GameView>,
    game: GameView,
)
    requires
        round_state(root, depth, earlier, later, onward, found),
        root.reaches(depth, game),
        !later.contains(game.canonical_key()),
    ensures
        extends(later.push(game.canonical_key()), later),
        later.push(game.canonical_key()).contains(game.canonical_key()),
        game.solved() ==> round_state(
            root,
            depth,
            earlier,
            later.push(game.canonical_key()),
            onward,
            found.push(game),
        ),
        !game.solved() ==> round_state(
            root,
            depth,
            earlier,
            later.push(game.canonical_key()),
            onward.push(game),
            found,
        ),
{
    let key = game.canonical_key();
    let grown = later.push(key);
    assert forall|k: Seq<int>| #[trigger] later.contains(k) implies grown.contains(k) by {
        lemma_push_contains(later, key, k);
    }
    lemma_push_contains(later, key, key);
    lemma_fresh_push(root, depth, earlier, later, onward, game);
    lemma_fresh_push(root, depth, earlier, later, found, game);
    if game.solved() {
        let more = found.push(game);
        assert(keys_of(more) =~= keys_of(found).push(key));
        assert forall|k: Seq<int>| #[trigger] grown.contains(k) && !earlier.contains(k)
        implies keys_of(onward).contains(k) || keys_of(more).contains(k) by {
            lemma_push_contains(later, key, k);
            lemma_push_contains(keys_of(found), key, k);
        }
    } else {
        let more = onward.push(game);
        assert(keys_of(more) =~= keys_of(onward).push(key));
        assert forall|k: Seq<int>| #[trigger] grown.contains(k) && !earlier.contains(k)
        implies keys_of(more).contains(k) || keys_of(found).contains(k) by {
            lemma_push_contains(later, key, k);
            lemma_push_contains(keys_of(onward), key, k);
        }
    }
}

/// After a round, every state that one pour leads to from a state visited
/// before the round has been visited.
proof fn lemma_round_covers(
    earlier: Seq<Seq<int>>,
    frontier: Seq<GameView>,
    later: Seq<Seq<int>>,
    g: GameView,
)
    requires
        explored(earlier, frontier),
        extends(later, earlier),
        forall|i: int| 0 <= i < frontier.len() ==> (#[trigger] frontier[i]).proper(),
        forall|i: int| 0 <= i < frontier.len() ==> covered(later, #[trigger] frontier[i]),
        g.proper(),
        earlier.contains(g.canonical_key()),
    ensures
        covered(later, g),
{
    if keys_of(frontier).contains(g.canonical_key()) {
        let i = lemma_listed_key(frontier, g.canonical_key());
        let h = frontier[i];
        assert(covered(later, h));
        assert forall|a: int, b: int| #[trigger] g.pours(a, b) implies later.contains(
            g.pour(a, b).canonical_key(),
        ) by {
            let at = lemma_same_state_pours(g, a, b, h);
            assert(h.pours(at.0, at.1));
        }
    } else {
        assert(covered(earlier, g));
        lemma_covered_extends(earlier, later, g);
    }
}

/// What a round of the search achieves. Before it, every state within
/// `depth` pours of the root had been visited, none of them solved, and all
/// but those of the frontier explored. The round visits every state that
/// one pour leads to from the frontier. After it, no solved position lies
/// within `depth` pours of the root, every solved state one pour further
/// has been found, and where none has been found the search stands one pour
/// further as it stood before.
pub proof fn lemma_round(
    root: GameView,
    depth: nat,
    earlier: Seq<Seq<int>>,
    frontier: Seq<GameView>,
    later: Seq<Seq<int>>,
    onward: Seq<GameView>,
    found: Seq<GameView>,
)
    requires
        root.proper(),
        seen_within(root, depth, earlier),
        none_solved(earlier),
        explored(earlier, frontier),
        forall|i: int| 0 <= i < frontier.len() ==> (#[trigger] frontier[i]).proper(),
        forall|i: int| 0 <= i < frontier.len() ==> covered(later, #[trigger] frontier[i]),
        round_state(root, (depth + 1) as nat, earlier, later, onward, found),
    ensures
        no_shorter(root, (depth + 1) as nat),
        all_found(root, (depth + 1) as nat, found),
        found.len() == 0 ==> {
            &&& seen_within(root, (depth + 1) as nat, later)
            &&& none_solved(later)
            &&& explored(later, onward)
        },
{
    let deeper = (depth + 1) as nat;
    assert forall|steps: nat, g: GameView|
        1 <= steps < deeper && #[trigger] root.reaches(steps, g) implies !g.solved() by {
        lemma_reaches_proper(root, steps, g);
    }
    // Every position one pour further has a visited state.
    assert forall|g: GameView| #[trigger] root.reaches(deeper, g) implies later.contains(
        g.canonical_key(),
    ) by {
        let mid = choose|mid: GameView| root.reaches(depth, mid) && #[trigger] mid.leads_to(g);
        lemma_reaches_proper(root, depth, mid);
        lemma_round_covers(earlier, frontier, later, mid);
        let (a, b) = choose|a: int, b: int| mid.step(a, b, g);
        lemma_step_state(mid, a, b, g);
    }
    // A state that is new and not solved belongs to the next frontier.
    assert forall|g: GameView| #[trigger]
        root.reaches(deeper, g) && g.solved() implies keys_of(found).contains(
        g.canonical_key(),
    ) by {
        lemma_reaches_proper(root, deeper, g);
        let key = g.canonical_key();
        assert(later.contains(key));
        if keys_of(onward).contains(key) {
            let i = lemma_listed_key(onward, key);
            lemma_reaches_proper(root, deeper, onward[i]);
            lemma_same_state_solved(g, onward[i]);
        }
    }
    if found.len() == 0 {
        assert forall|steps: nat, g: GameView|
            steps <= deeper && #[trigger] root.reaches(steps, g) implies later.contains(
            g.canonical_key(),
        ) by {
            if steps <= depth {
                assert(earlier.contains(g.canonical_key()));
            }
        }
        assert forall|g: GameView|
            g.proper() && later.contains(#[trigger] g.canonical_key()) implies !g.solved() by {
            let key = g.canonical_key();
            if !earlier.contains(key) {
                let i = lemma_listed_key(onward, key);
                lemma_reaches_proper(root, deeper, onward[i]);
                lemma_same_state_solved(g, onward[i]);
            }
        }
        assert forall|g: GameView|
            g.proper() && later.contains(#[trigger] g.canonical_key()) && !keys_of(
                onward,
            ).contains(g.canonical_key()) implies covered(later, g) by {
            lemma_round_covers(earlier, frontier, later, g);
        }
    }
}

/// Where nothing is left to explore and nothing has been found, the puzzle
/// has no solution.
pub proof fn lemma_exhausted(root: GameView, depth: nat, visited: Seq<Seq<int>>)
    requires
        root.proper(),
        seen_within(root, depth, visited),
        none_solved(visited),
        explored(visited, Seq::<GameView>::empty()),
    ensures
        unsolvable(root),
{
    assert forall|steps: nat, g: GameView|
        1 <= steps && #[trigger] root.reaches(steps, g) implies !g.solved() by {
        lemma_closed_reaches(root, depth, visited, steps, g);
        lemma_reaches_proper(root, steps, g);
    }
}

/// Where every visited state has been explored, the state of every position
/// that pours lead to from the root has been visited.
proof fn lemma_closed_reaches(
    root: GameView,
    depth: nat,
    visited: Seq<Seq<int>>,
    steps: nat,
    g: GameView,
)
    requires
        root.proper(),
        seen_within(root, depth, visited),
        explored(visited, Seq::<GameView>::empty()),
        root.reaches(steps, g),
    ensures
        visited.contains(g.canonical_key()),
    decreases steps,
{
    if steps == 0 {
        assert(root.reaches(0, g));
    } else {
        let mid = choose|mid: GameView|
            root.reaches((steps - 1) as nat, mid) && #[trigger] mid.leads_to(g);
        lemma_closed_reaches(root, depth, visited, (steps - 1) as nat, mid);
        lemma_reaches_proper(root, (steps - 1) as nat, mid);
        assert(keys_of(Seq::<GameView>::empty()).len() == 0);
        assert(covered(visited, mid));
        let (a, b) = choose|a: int, b: int| mid.step(a, b, g);
        lemma_step_state(mid, a, b, g);
    }
}

/// Lists that hold the same positions leave the same states unfound.
pub proof fn lemma_all_found_rearranged(
    root: GameView,
    depth: nat,
    found: Seq<GameView>,
    ranked: Seq<GameView>,
)
    requires
        all_found(root, depth, found),
        found.to_multiset() == ranked.to_multiset(),
    ensures
        all_found(root, depth, ranked),
{
    assert forall|g: GameView| #[trigger] root.reaches(depth, g) && g.solved() implies keys_of(
        ranked,
    ).contains(g.canonical_key()) by {
        let i = lemma_listed_key(found, g.canonical_key());
        assert(found.contains(found[i]));
        to_multiset_contains(found, found[i]);
        to_multiset_contains(ranked, found[i]);
        let j = choose|j: int| 0 <= j < ranked.len() && ranked[j] == found[i];
        lemma_key_listed(ranked, j);
    }
}

} // verus!
