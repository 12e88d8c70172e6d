//! The search: breadth first over the states of the puzzle, round by round,
//! until a round finds solved positions or nothing is left to explore.

use vstd::prelude::*;
use vstd::seq_lib::{to_multiset_contains, to_multiset_len};
use vstd::set_lib::lemma_len_subset;
use crate::game::{
    holds_key, keys_of, lemma_canonical_key_bounded, lemma_reaches_shape, state_keys, views,
    widen, Game, GameView,
};
use crate::replay::lemma_solution_replays;
use crate::search::{
    all_found, covered, explored, lemma_all_found_rearranged, lemma_covered_extends,
    lemma_exhausted, lemma_key_listed, lemma_reaches_proper, lemma_round, lemma_round_visit,
    lemma_same_state_solved, lemma_solved_stays, lemma_view_proper, no_shorter, none_solved,
    round_state, seen_within, unsolvable,
};
use crate::seqs::{bounded_seqs, lemma_bounded_seqs_finite, lemma_swap_keeps_multiset};
use crate::tube::KEY_LIMIT;

verus! {

/// Whether `a` comes before `b` when the two are compared from place `from`
/// on: at the first place where they differ `a` has the smaller pair, or `a`
/// ends there and `b` does not.
pub open spec fn precedes_from(a: Seq<(usize, usize)>, b: Seq<(usize, usize)>, from: int) -> bool
    decreases a.len() - from,
{
    if from < 0 || from >= b.len() {
        false
    } else if from >= a.len() {
        true
    } else if a[from] == b[from] {
        precedes_from(a, b, from + 1)
    } else {
        a[from].0 < b[from].0 || (a[from].0 == b[from].0 && a[from].1 < b[from].1)
    }
}

/// Whether `a` comes before `b` in the lexicographic order of move lists.
pub open spec fn precedes(a: Seq<(usize, usize)>, b: Seq<(usize, usize)>) -> bool {
    precedes_from(a, b, 0)
}

/// If `a` does not come before `b`, nor `b` before `c`, then `a` does not
/// come before `c`.
pub proof fn lemma_not_precedes_transitive(
    a: Seq<(usize, usize)>,
    b: Seq<(usize, usize)>,
    c: Seq<(usize, usize)>,
    from: int,
)
    requires
        0 <= from,
        !precedes_from(a, b, from),
        !precedes_from(b, c, from),
    ensures
        !precedes_from(a, c, from),
    decreases a.len() - from,
{
    if from < a.len() && from < b.len() && from < c.len() && a[from] == b[from] && b[from]
        == c[from] {
        lemma_not_precedes_transitive(a, b, c, from + 1);
    }
}

/// Of two lists of moves, at most one comes before the other.
pub proof fn lemma_precedes_asymmetric(
    a: Seq<(usize, usize)>,
    b: Seq<(usize, usize)>,
    from: int,
)
    requires
        0 <= from,
        precedes_from(a, b, from),
    ensures
        !precedes_from(b, a, from),
    decreases a.len() - from,
{
    if from < a.len() && from < b.len() && a[from] == b[from] {
        lemma_precedes_asymmetric(a, b, from + 1);
    }
}

/// Whether the first list of moves comes before the second.
pub fn comes_before(a: &Vec<(usize, usize)>, b: &Vec<(usize, usize)>) -> (before: bool)
    ensures
        before == precedes(a@, b@),
{
    let mut i: usize = 0;
    while i < a.len() && i < b.len()
        invariant
            i <= a.len(),
            i <= b.len(),
            precedes(a@, b@) == precedes_from(a@, b@, i as int),
        decreases a.len() - i,
    {
        let x = a[i];
        let y = b[i];
        if x.0 != y.0 {
            return x.0 < y.0;
        }
        if x.1 != y.1 {
            return x.1 < y.1;
        }
        i += 1;
    }
    i < b.len()
}

/// The state of a search.
///
/// A search is exploring while it has found nothing and its frontier is not
/// empty. It ends when a round has found solved positions, or when the
/// frontier is empty and the puzzle has no solution.
pub struct Solver {
    states: Vec<Vec<u64>>,
    queue: Vec<Game>,
    solutions: Vec<Game>,
    root: Ghost<GameView>,
    depth: Ghost<nat>,
}

impl Solver {
    /// The position that the search started from.
    pub closed spec fn root(&self) -> GameView {
        self.root@
    }

    /// The number of rounds made so far.
    pub closed spec fn depth(&self) -> nat {
        self.depth@
    }

    /// The positions that the next round starts from.
    pub closed spec fn frontier(&self) -> Seq<GameView> {
        views(self.queue@)
    }

    /// The solved positions found so far.
    pub closed spec fn found(&self) -> Seq<GameView> {
        views(self.solutions@)
    }

    /// The canonical keys of the states seen so far, in the order in which
    /// they were first seen.
    pub closed spec fn visited(&self) -> Seq<Seq<int>> {
        self.states@.map_values(|k: Vec<u64>| widen(k@))
    }

    /// Every key that a position of this puzzle can have.
    pub open spec fn universe(&self) -> Set<Seq<int>> {
        bounded_seqs(self.root().tubes.len(), KEY_LIMIT as int)
    }

    /// The search has ended.
    pub open spec fn done(&self) -> bool {
        self.found().len() > 0 || self.frontier().len() == 0
    }

    /// The search has missed nothing. While nothing has been found: the
    /// state of every position within as many pours of the root as there
    /// were rounds has been visited, none of the visited states is solved,
    /// and all of them but those of the frontier have been explored. Once
    /// something has been found: no solved position lies nearer to the root,
    /// and every solved state at this distance is among those found.
    pub open spec fn thorough(&self) -> bool {
        if self.found().len() == 0 {
            &&& seen_within(self.root(), self.depth(), self.visited())
            &&& none_solved(self.visited())
            &&& explored(self.visited(), self.frontier())
        } else {
            &&& no_shorter(self.root(), self.depth())
            &&& all_found(self.root(), self.depth(), self.found())
        }
    }

    /// What holds of a search between rounds. No state is on the list of
    /// visited states twice. Every position of the frontier is what as many
    /// pours as there were rounds lead to from the root, and its state has
    /// been visited. Every position found is solved and has been reached in
    /// the same way. Unless the root is solved already, the search has
    /// missed nothing. Where the root is solved, the search finds nothing:
    /// no pour leads from a solved position to a state not seen before.
    pub open spec fn inv(&self) -> bool {
        &&& self.root().proper()
        &&& self.visited().no_duplicates()
        &&& forall|k: int|
            0 <= k < self.visited().len() ==> self.universe().contains(#[trigger] self.visited()[k])
        &&& forall|i: int|
            0 <= i < self.frontier().len() ==> {
                &&& self.root().reaches(self.depth(), #[trigger] self.frontier()[i])
                &&& self.visited().contains(self.frontier()[i].canonical_key())
            }
        &&& forall|i: int|
            0 <= i < self.found().len() ==> {
                &&& self.root().reaches(self.depth(), #[trigger] self.found()[i])
                &&& self.found()[i].solved()
            }
        &&& self.found().len() > 0 ==> self.depth() >= 1
        &&& !self.root().solved() ==> self.thorough()
        &&& self.root().solved() ==> self.idle()
    }

    /// Nothing has been found, and no state but that of the root has been
    /// seen.
    pub open spec fn idle(&self) -> bool {
        &&& self.found().len() == 0
        &&& forall|k: int|
            0 <= k < self.visited().len() ==> #[trigger] self.visited()[k]
                == self.root().canonical_key()
    }

    /// What holds in the middle of a round that began as `start`, with
    /// `next` the positions gathered for the next frontier: the frontier is
    /// still that of `start`, no state is on the list of visited states
    /// twice, and every state put on it since has its position in `next` or
    /// among the positions found.
    spec fn mid_round(&self, start: Solver, next: Seq<Game>) -> bool {
        &&& start.inv()
        &&& self.queue == start.queue
        &&& self.root == start.root
        &&& self.depth == start.depth
        &&& self.visited().no_duplicates()
        &&& forall|k: int|
            0 <= k < self.visited().len() ==> self.universe().contains(#[trigger] self.visited()[k])
        &&& self.states.len() >= start.states.len() + next.len()
        &&& round_state(
            self.root(),
            self.depth() + 1,
            start.visited(),
            self.visited(),
            views(next),
            self.found(),
        )
        &&& self.root().solved() ==> self.idle()
    }

    /// The number of states not yet seen.
    pub open spec fn unseen(&self) -> int {
        self.universe().len() - self.visited().len()
    }

    /// No more states have been seen than there are.
    pub proof fn lemma_unseen_bounded(&self)
        requires
            self.inv(),
        ensures
            self.unseen() >= 0,
    {
        lemma_bounded_seqs_finite(self.root().tubes.len(), KEY_LIMIT as int);
        self.visited().unique_seq_to_set();
        assert(self.visited().to_set().subset_of(self.universe())) by {
            assert forall|key: Seq<int>| self.visited().to_set().contains(key)
            implies self.universe().contains(key) by {
                let k = choose|k: int| 0 <= k < self.visited().len() && self.visited()[k] == key;
                assert(self.universe().contains(self.visited()[k]));
            }
        }
        lemma_len_subset(self.visited().to_set(), self.universe());
    }

    /// Starts a search from `game`.
    pub fn new(game: Game) -> (solver: Solver)
        requires
            game@.valid(),
        ensures
            solver.inv(),
            solver.root() == game@,
            solver.depth() == 0,
            solver.frontier() == seq![game@],
            solver.found().len() == 0,
            solver.visited() == seq![game@.canonical_key()],
    {
        let ghost root = game@;
        let mut solver = Solver {
            states: Vec::new(),
            queue: Vec::new(),
            solutions: Vec::new(),
            root: Ghost(game@),
            depth: Ghost(0),
        };
        let key = game.key();
        solver.states.push(key);
        solver.queue.push(game);
        proof {
            let visited = seq![root.canonical_key()];
            assert(solver.visited() =~= visited);
            assert(solver.frontier() =~= seq![root]);
            assert(solver.found() =~= Seq::<GameView>::empty());
            lemma_canonical_key_bounded(root);
            lemma_view_proper(game);
            assert(visited[0] == root.canonical_key());
            assert(root.reaches(0, root));
            if !root.solved() {
                assert forall|g: GameView|
                    g.proper() && visited.contains(#[trigger] g.canonical_key())
                implies !g.solved() by {
                    lemma_same_state_solved(g, root);
                }
                lemma_key_listed(seq![root], 0);
            }
        }
        solver
    }

    /// The number of positions that the next round starts from.
    pub fn pending(&self) -> (n: usize)
        ensures
            n == self.frontier().len(),
    {
        self.queue.len()
    }

    /// Makes one round of the search: from every position of the frontier,
    /// every pour that moves something. A state not seen before is put on
    /// the list of visited states; its position joins the positions found
    /// if it is solved, and the next frontier if it is not. Says whether the
    /// search goes on. A search that has ended stays as it is.
    ///
    /// After a round every state that one pour leads to from the old
    /// frontier has been visited, and each state visited in the round has
    /// one position, in the new frontier or among the positions found.
    pub fn next_move(&mut self) -> (more: bool)
        requires
            old(self).inv(),
        ensures
            final(self).inv(),
            final(self).root() == old(self).root(),
            more == !final(self).done(),
            old(self).done() ==> *final(self) == *old(self),
            !old(self).done() ==> final(self).depth() == old(self).depth() + 1,
            !old(self).done() ==> round_state(
                old(self).root(),
                final(self).depth(),
                old(self).visited(),
                final(self).visited(),
                final(self).frontier(),
                final(self).found(),
            ),
            !old(self).done() ==> forall|i: int|
                0 <= i < old(self).frontier().len() ==> covered(
                    final(self).visited(),
                    #[trigger] old(self).frontier()[i],
                ),
            more ==> final(self).unseen() < old(self).unseen(),
    {
        if self.solutions.len() > 0 || self.queue.len() == 0 {
            return false;
        }
        let ghost start = *self;
        let ghost root = self.root@;
        let ghost depth = (self.depth@ + 1) as nat;
        let mut next: Vec<Game> = Vec::new();
        proof {
            assert(views(next@) =~= Seq::<GameView>::empty());
            assert(views(self.solutions@) =~= Seq::<GameView>::empty());
            assert(keys_of(Seq::<GameView>::empty()).len() == 0);
        }
        let mut f: usize = 0;
        while f < self.queue.len()
            invariant
                f <= self.queue.len(),
                root == self.root@,
                depth == self.depth@ + 1,
                self.mid_round(start, next@),
                forall|i: int|
                    0 <= i < f ==> covered(self.visited(), #[trigger] start.frontier()[i]),
            decreases self.queue.len() - f,
        {
            let successors = self.queue[f].moves();
            let ghost parent = self.queue[f as int]@;
            assert(parent == start.frontier()[f as int]);
            assert(root.reaches((depth - 1) as nat, parent));
            let mut s: usize = 0;
            while s < successors.len()
                invariant
                    s <= successors.len(),
                    f < self.queue.len(),
                    root == self.root@,
                    depth == self.depth@ + 1,
                    self.mid_round(start, next@),
                    forall|i: int|
                        0 <= i < f ==> covered(self.visited(), #[trigger] start.frontier()[i]),
                    parent == start.frontier()[f as int],
                    root.reaches((depth - 1) as nat, parent),
                    forall|k: int|
                        0 <= k < successors.len() ==> parent.leads_to(#[trigger] successors[k]@),
                    forall|k: int|
                        0 <= k < s ==> self.visited().contains(
                            #[trigger] state_keys(successors@)[k],
                        ),
                decreases successors.len() - s,
            {
                let game = successors[s].clone();
                let key = game.key();
                assert(state_keys(successors@)[s as int] == game@.canonical_key());
                if !holds_key(&self.states, &key) {
                    let ghost before = self.visited();
                    let ghost onward = views(next@);
                    let ghost found = views(self.solutions@);
                    self.states.push(key);
                    proof {
                        assert(parent.leads_to(successors[s as int]@));
                        if root.solved() {
                            assert(start.visited().contains(parent.canonical_key()));
                            let at = choose|at: int|
                                0 <= at < start.visited().len() && start.visited()[at]
                                    == parent.canonical_key();
                            assert(start.visited()[at] == root.canonical_key());
                            lemma_reaches_proper(root, start.depth(), parent);
                            lemma_same_state_solved(parent, root);
                            lemma_solved_stays(parent, game@);
                            assert(before.contains(parent.canonical_key()));
                        }
                        assert(root.reaches(depth, game@));
                        lemma_reaches_shape(root, depth, game@);
                        lemma_canonical_key_bounded(game@);
                        assert(self.visited() =~= before.push(game@.canonical_key()));
                        lemma_round_visit(
                            root,
                            depth,
                            start.visited(),
                            before,
                            onward,
                            found,
                            game@,
                        );
                        assert forall|i: int| 0 <= i < f implies covered(
                            self.visited(),
                            #[trigger] start.frontier()[i],
                        ) by {
                            lemma_covered_extends(before, self.visited(), start.frontier()[i]);
                        }
                    }
                    if game.is_solved() {
                        self.solutions.push(game);
                        assert(views(self.solutions@) =~= found.push(game@));
                    } else {
                        next.push(game);
                        assert(views(next@) =~= onward.push(game@));
                    }
                }
                s += 1;
            }
            proof {
                let visited = self.visited();
                assert forall|a: int, b: int| #[trigger] parent.pours(a, b)
                implies visited.contains(parent.pour(a, b).canonical_key()) by {
                    let key = parent.pour(a, b).canonical_key();
                    let k = choose|k: int|
                        0 <= k < state_keys(successors@).len() && state_keys(successors@)[k]
                            == key;
                    assert(visited.contains(state_keys(successors@)[k]));
                }
            }
            f += 1;
        }
        self.queue = next;
        self.depth = Ghost(depth);
        proof {
            let before = start.visited();
            let frontier = start.frontier();
            assert(self.frontier() == views(next@));
            assert forall|i: int| 0 <= i < frontier.len()
            implies (#[trigger] frontier[i]).proper() by {
                lemma_reaches_proper(root, start.depth(), frontier[i]);
            }
            if !root.solved() {
                lemma_round(
                    root,
                    start.depth(),
                    before,
                    frontier,
                    self.visited(),
                    self.frontier(),
                    self.found(),
                );
            }
        }
        self.solutions.len() == 0 && self.queue.len() > 0
    }

    /// Puts the positions found in descending order of their move lists.
    fn rank_found(&mut self)
        requires
            old(self).inv(),
        ensures
            final(self).inv(),
            final(self).root() == old(self).root(),
            final(self).depth() == old(self).depth(),
            final(self).frontier() == old(self).frontier(),
            final(self).visited() == old(self).visited(),
            final(self).found().to_multiset() == old(self).found().to_multiset(),
            final(self).found().len() == old(self).found().len(),
            forall|k: int, l: int|
                0 <= k < l < final(self).found().len() ==> !precedes(
                    (#[trigger] final(self).found()[k]).moves,
                    (#[trigger] final(self).found()[l]).moves,
                ),
    {
        let n = self.solutions.len();
        let mut i: usize = 1;
        while i < n
            invariant
                n == self.solutions.len(),
                1 <= i,
                self.root == old(self).root,
                self.depth == old(self).depth,
                self.queue == old(self).queue,
                self.states == old(self).states,
                self.found().to_multiset() == old(self).found().to_multiset(),
                forall|x: int, y: int|
                    0 <= x < y < i && y < n ==> !precedes(
                        (#[trigger] self.found()[x]).moves,
                        (#[trigger] self.found()[y]).moves,
                    ),
            decreases n - i,
        {
            let mut j: usize = i;
            while j > 0 && comes_before(&self.solutions[j - 1].moves, &self.solutions[j].moves)
                invariant
                    n == self.solutions.len(),
                    j <= i < n,
                    self.root == old(self).root,
                    self.depth == old(self).depth,
                    self.queue == old(self).queue,
                    self.states == old(self).states,
                    self.found().to_multiset() == old(self).found().to_multiset(),
                    forall|x: int, y: int|
                        0 <= x < y <= i && y != j ==> !precedes(
                            (#[trigger] self.found()[x]).moves,
                            (#[trigger] self.found()[y]).moves,
                        ),
                decreases j,
            {
                let ghost before = self.found();
                let upper = self.solutions[j - 1].clone();
                let lower = self.solutions[j].clone();
                self.solutions[j - 1] = lower;
                self.solutions[j] = upper;
                proof {
                    assert(self.found() =~= before.update(j - 1, before[j as int]).update(
                        j as int,
                        before[j - 1],
                    ));
                    lemma_swap_keeps_multiset(before, j - 1, j as int);
                    lemma_precedes_asymmetric(before[j - 1].moves, before[j as int].moves, 0);
                }
                j -= 1;
            }
            proof {
                let at = self.found()[j as int].moves;
                assert(j > 0 ==> !precedes(self.found()[j - 1].moves, at));
                assert forall|x: int| 0 <= x < j implies !precedes(
                    (#[trigger] self.found()[x]).moves,
                    at,
                ) by {
                    if x < j - 1 {
                        lemma_not_precedes_transitive(
                            self.found()[x].moves,
                            self.found()[j - 1].moves,
                            at,
                            0,
                        );
                    }
                }
            }
            i += 1;
        }
        proof {
            let found = old(self).found();
            let ranked = self.found();
            to_multiset_len(found);
            to_multiset_len(ranked);
            assert(self.frontier() == old(self).frontier());
            assert(self.visited() == old(self).visited());
            assert(self.root() == old(self).root());
            assert(self.depth() == old(self).depth());
            assert forall|i: int| 0 <= i < ranked.len() implies self.root().reaches(
                self.depth(),
                #[trigger] ranked[i],
            ) && ranked[i].solved() by {
                assert(ranked.contains(ranked[i]));
                to_multiset_contains(ranked, ranked[i]);
                to_multiset_contains(found, ranked[i]);
                let j = choose|j: int| 0 <= j < found.len() && found[j] == ranked[i];
                assert(found[j].solved());
            }
            if ranked.len() == 0 {
                assert(ranked =~= found);
            } else if !self.root().solved() {
                lemma_all_found_rearranged(self.root(), self.depth(), found, ranked);
            }
        }
    }

    /// Runs the search to its end and returns the move lists of the
    /// positions found, in descending lexicographic order.
    ///
    /// Each list returned is the record of a solved position that as many
    /// pours as the search made rounds lead to from the root, so that all of
    /// them have the same length. Where the tubes of the root are told apart
    /// by their identities, replaying a list from the root solves the
    /// puzzle. A root that is solved already has no solutions. For every
    /// other root there is no shorter way to a solved position, every solved
    /// state at that distance is the state of one of the positions found,
    /// and the list is empty only if no pours lead to a solved position at
    /// all.
    pub fn get_solutions(&mut self) -> (solutions: Vec<Vec<(usize, usize)>>)
        requires
            old(self).inv(),
        ensures
            final(self).inv(),
            final(self).done(),
            final(self).root() == old(self).root(),
            solutions.len() == final(self).found().len(),
            forall|k: int|
                0 <= k < solutions.len() ==> final(self).found()[k].moves == (
                #[trigger] solutions[k])@,
            forall|k: int|
                0 <= k < solutions.len() ==> old(self).root().solved_by(
                    final(self).depth(),
                    (#[trigger] solutions[k])@,
                ),
            forall|k: int|
                0 <= k < solutions.len() ==> (#[trigger] solutions[k])@.len() == old(
                    self,
                ).root().moves.len() + final(self).depth(),
            forall|k: int, l: int|
                0 <= k < l < solutions.len() ==> !precedes(
                    (#[trigger] solutions[k])@,
                    (#[trigger] solutions[l])@,
                ),
            old(self).root().distinct_ids() ==> forall|k: int|
                0 <= k < solutions.len() ==> {
                    &&& old(self).root().replays(
                        (#[trigger] solutions[k])@.skip(old(self).root().moves.len() as int),
                    )
                    &&& old(self).root().replay(
                        solutions[k]@.skip(old(self).root().moves.len() as int),
                    ).solved()
                },
            old(self).root().solved() ==> solutions.len() == 0,
            !old(self).root().solved() ==> (solutions.len() == 0 <==> unsolvable(
                old(self).root(),
            )),
            !old(self).root().solved() && solutions.len() > 0 ==> {
                &&& no_shorter(old(self).root(), final(self).depth())
                &&& all_found(old(self).root(), final(self).depth(), final(self).found())
            },
    {
        loop
            invariant
                self.inv(),
                self.root() == old(self).root(),
            ensures
                self.done(),
            decreases self.unseen(),
        {
            let more = self.next_move();
            if !more {
                break ;
            }
            proof {
                self.lemma_unseen_bounded();
            }
        }
        self.rank_found();
        let mut solutions: Vec<Vec<(usize, usize)>> = Vec::new();
        let mut k: usize = 0;
        while k < self.solutions.len()
            invariant
                k <= self.solutions.len(),
                solutions.len() == k,
                forall|p: int|
                    0 <= p < k ==> (#[trigger] solutions[p])@ == self.found()[p].moves,
            decreases self.solutions.len() - k,
        {
            let copy = self.solutions[k].clone();
            solutions.push(copy.moves);
            k += 1;
        }
        proof {
            let root = self.root();
            assert forall|p: int| 0 <= p < solutions.len() implies root.solved_by(
                self.depth(),
                (#[trigger] solutions[p])@,
            ) && solutions[p]@.len() == root.moves.len() + self.depth() by {
                let end = self.found()[p];
                assert(root.reaches(self.depth(), end));
                lemma_reaches_shape(root, self.depth(), end);
            }
            if root.distinct_ids() {
                assert forall|p: int| 0 <= p < solutions.len() implies root.replays(
                    (#[trigger] solutions[p])@.skip(root.moves.len() as int),
                ) && root.replay(solutions[p]@.skip(root.moves.len() as int)).solved() by {
                    lemma_solution_replays(root, self.depth(), solutions[p]@);
                }
            }
            if !root.solved() {
                if solutions.len() == 0 {
                    assert(self.frontier() =~= Seq::<GameView>::empty());
                    lemma_exhausted(root, self.depth(), self.visited());
                } else {
                    assert(root.reaches(self.depth(), self.found()[0]));
                }
            }
        }
        solutions
    }
}

} // verus!
