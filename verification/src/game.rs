//! A puzzle position: the tubes in their current order and the moves that
//! led to them.

use vstd::prelude::*;
use vstd::seq_lib::{to_multiset_build, to_multiset_contains, to_multiset_len};
use crate::color::Color;
use crate::replay::lemma_position_is;
use crate::seqs::{
    bounded_seqs, lemma_empty_multiset, lemma_map_keeps_multiset, lemma_push_contains,
    lemma_sorted, lemma_sorted_of_ascending, lemma_sorted_same, lemma_swap_keeps_multiset, sorted,
};
use crate::pouring::lemma_content_key_bounded;
use crate::tube::{dest_after, source_after, uniform, units_moved, Tube, TubeView, KEY_LIMIT};

verus! {

/// A position as contracts see it.
pub struct GameView {
    pub tubes: Seq<TubeView>,
    pub moves: Seq<(usize, usize)>,
}

impl GameView {
    /// Every tube has its four slots.
    pub open spec fn proper(self) -> bool {
        forall|i: int| 0 <= i < self.tubes.len() ==> (#[trigger] self.tubes[i]).slots.len() == 4
    }

    /// Whether pouring the tube at position `a` into the one at `b` moves
    /// anything. A tube is never poured into itself.
    pub open spec fn pours(self, a: int, b: int) -> bool {
        &&& a != b
        &&& 0 <= a < self.tubes.len()
        &&& 0 <= b < self.tubes.len()
        &&& units_moved(self.tubes[a].slots, self.tubes[b].slots) > 0
    }

    /// The position after the tube at `a` has been poured into the one at
    /// `b`. The tubes keep their places and identities; no move is recorded.
    pub open spec fn pour(self, a: int, b: int) -> GameView {
        if a != b && 0 <= a < self.tubes.len() && 0 <= b < self.tubes.len() {
            let src = self.tubes[a];
            let dst = self.tubes[b];
            GameView {
                tubes: self.tubes.update(
                    a,
                    TubeView { slots: source_after(src.slots, dst.slots), id: src.id },
                ).update(b, TubeView { slots: dest_after(src.slots, dst.slots), id: dst.id }),
                moves: self.moves,
            }
        } else {
            self
        }
    }

    /// Every tube holds one colour in all its slots, or nothing.
    pub open spec fn solved(self) -> bool {
        forall|i: int| 0 <= i < self.tubes.len() ==> uniform((#[trigger] self.tubes[i]).slots)
    }

    /// The tubes stand in canonical order: by content, smallest key first.
    pub open spec fn canonical(self) -> bool {
        forall|i: int, j: int|
            0 <= i < j < self.tubes.len() ==> (#[trigger] self.tubes[i]).key() <= (
            #[trigger] self.tubes[j]).key()
    }

    /// Both positions hold the same tubes, identities included, in whatever
    /// order.
    pub open spec fn rearranges(self, other: GameView) -> bool {
        self.tubes.to_multiset() == other.tubes.to_multiset()
    }

    /// The content keys of the tubes, in the order in which the tubes stand.
    pub open spec fn keys(self) -> Seq<int> {
        self.tubes.map_values(|t: TubeView| t.key())
    }

    /// What identifies the state of the puzzle: the content keys of its
    /// tubes in ascending order. Neither the order of the tubes, nor their
    /// identities, nor the moves enter into it.
    pub open spec fn canonical_key(self) -> Seq<int> {
        sorted(self.keys())
    }

    /// Both positions are the same state of the puzzle.
    pub open spec fn same_state(self, other: GameView) -> bool {
        self.canonical_key() == other.canonical_key()
    }

    /// Every slot of the position, tube after tube.
    pub open spec fn all_slots(self) -> Seq<Color> {
        self.tubes.map_values(|t: TubeView| t.slots).flatten()
    }

    /// Number of slots that hold `color`.
    pub open spec fn count(self, color: Color) -> nat {
        self.all_slots().to_multiset().count(color)
    }

    /// The puzzle is well posed: every dye that occurs fills exactly four
    /// slots, and the empty slots make up whole tubes.
    pub open spec fn valid(self) -> bool {
        &&& self.count(Color::Empty) % 4 == 0
        &&& forall|c: Color| c is Full ==> #[trigger] self.count(c) == 0 || self.count(c) == 4
    }

    /// `next` is what the pour from `a` to `b` leads to: the pour moves
    /// something, `next` holds the tubes that the pour leaves, in canonical
    /// order, and has the move on record, by the identities of its two tubes.
    pub open spec fn step(self, a: int, b: int, next: GameView) -> bool {
        &&& self.pours(a, b)
        &&& next.moves == self.moves.push((self.tubes[a].id, self.tubes[b].id))
        &&& next.rearranges(self.pour(a, b))
        &&& next.canonical()
    }

    /// The pour from `a` to `b` is the first to lead to its state: no pour
    /// that is tried before it leads there.
    pub open spec fn first_to(self, a: int, b: int) -> bool {
        &&& self.pours(a, b)
        &&& forall|c: int, d: int|
            tried_before(c, d, a, b) && #[trigger] self.pours(c, d) ==> !self.pour(
                c,
                d,
            ).same_state(self.pour(a, b))
    }

    /// `next` lists what the pours `at` lead to, pour by pour. Each of these
    /// pours is the first to lead to its state, and they stand in the order
    /// in which pours are tried.
    pub open spec fn first_pours(self, at: Seq<(int, int)>, next: Seq<GameView>) -> bool {
        &&& at.len() == next.len()
        &&& forall|k: int|
            0 <= k < next.len() ==> {
                &&& self.step(at[k].0, at[k].1, #[trigger] next[k])
                &&& self.first_to(at[k].0, at[k].1)
            }
        &&& forall|k: int, l: int|
            0 <= k < l < at.len() ==> tried_before(
                (#[trigger] at[k]).0,
                at[k].1,
                (#[trigger] at[l]).0,
                at[l].1,
            )
    }

    /// `next` is what some pour leads to.
    pub open spec fn leads_to(self, next: GameView) -> bool {
        exists|a: int, b: int| self.step(a, b, next)
    }

    /// `target` is what `steps` pours in a row lead to from here.
    pub open spec fn reaches(self, steps: nat, target: GameView) -> bool
        decreases steps,
    {
        if steps == 0 {
            target == self
        } else {
            exists|mid: GameView|
                self.reaches((steps - 1) as nat, mid) && #[trigger] mid.leads_to(target)
        }
    }

    /// `record` is the list of moves of a solved position that `steps` pours
    /// in a row lead to from here.
    pub open spec fn solved_by(self, steps: nat, record: Seq<(usize, usize)>) -> bool {
        exists|end: GameView|
            #![trigger self.reaches(steps, end)]
            self.reaches(steps, end) && end.solved() && end.moves == record
    }

    /// Some tube carries the identity `id`.
    pub open spec fn holds(self, id: usize) -> bool {
        exists|i: int| 0 <= i < self.tubes.len() && (#[trigger] self.tubes[i]).id == id
    }
}

/// Pours are tried in the order of their source positions, and from one
/// source in the order of their destination positions. Whether the pour from
/// `a` to `b` is tried before the pour from `c` to `d`.
pub open spec fn tried_before(a: int, b: int, c: int, d: int) -> bool {
    a < c || (a == c && b < d)
}

/// A position of the puzzle. Two positions are equal when they hold the same
/// tube contents, in whatever order and by whatever moves they were reached.
#[derive(Debug)]
pub struct Game {
    pub state: Vec<Tube>,
    pub moves: Vec<(usize, usize)>,
}

impl View for Game {
    type V = GameView;

    open spec fn view(&self) -> GameView {
        GameView { tubes: self.state@.map_values(|t: Tube| t@), moves: self.moves@ }
    }
}

/// The colour of a given rank.
pub open spec fn color_at(rank: int) -> Color {
    if rank == 0 {
        Color::Empty
    } else {
        Color::Full((rank - 1) as u8)
    }
}

/// A key as the contracts read it: each number as an integer.
pub open spec fn widen(key: Seq<u64>) -> Seq<int> {
    key.map_values(|k: u64| k as int)
}

/// Widening tells keys apart as well as the keys themselves do.
pub proof fn lemma_widen_injective(a: Seq<u64>, b: Seq<u64>)
    ensures
        widen(a) == widen(b) <==> a == b,
{
    if widen(a) == widen(b) {
        assert(a.len() == widen(a).len());
        assert(b.len() == widen(b).len());
        assert forall|i: int| 0 <= i < a.len() implies a[i] == b[i] by {
            assert(widen(a)[i] == widen(b)[i]);
        }
        assert(a =~= b);
    }
}

/// The positions in a list, as contracts see them.
pub open spec fn views(games: Seq<Game>) -> Seq<GameView> {
    games.map_values(|g: Game| g@)
}

/// The canonical keys of the positions in a list, in the order of the list.
pub open spec fn keys_of(games: Seq<GameView>) -> Seq<Seq<int>> {
    games.map_values(|g: GameView| g.canonical_key())
}

/// The canonical keys of the positions in a list, in the order of the list.
pub open spec fn state_keys(games: Seq<Game>) -> Seq<Seq<int>> {
    keys_of(views(games))
}

/// Positions that hold the same tubes are the same state.
pub proof fn lemma_rearranged_same_state(a: GameView, b: GameView)
    requires
        a.rearranges(b),
    ensures
        a.same_state(b),
{
    lemma_map_keeps_multiset(a.tubes, b.tubes, |t: TubeView| t.key());
    lemma_sorted_same(a.keys(), b.keys());
}

/// A pour changes neither the number of tubes nor the moves on record but
/// by the one it adds.
pub proof fn lemma_step_shape(g: GameView, next: GameView)
    requires
        g.leads_to(next),
    ensures
        next.tubes.len() == g.tubes.len(),
        next.moves.len() == g.moves.len() + 1,
{
    let (a, b) = choose|a: int, b: int| g.step(a, b, next);
    to_multiset_len(next.tubes);
    to_multiset_len(g.pour(a, b).tubes);
}

/// What `steps` pours lead to has as many tubes as the start and `steps`
/// more moves on record.
pub proof fn lemma_reaches_shape(root: GameView, steps: nat, g: GameView)
    requires
        root.reaches(steps, g),
    ensures
        g.tubes.len() == root.tubes.len(),
        g.moves.len() == root.moves.len() + steps,
    decreases steps,
{
    if steps > 0 {
        let mid = choose|mid: GameView|
            root.reaches((steps - 1) as nat, mid) && #[trigger] mid.leads_to(g);
        lemma_reaches_shape(root, (steps - 1) as nat, mid);
        lemma_step_shape(mid, g);
    }
}

/// The canonical key of a position is a sequence of content keys, one for
/// each tube.
pub proof fn lemma_canonical_key_bounded(g: GameView)
    ensures
        bounded_seqs(g.tubes.len(), KEY_LIMIT as int).contains(g.canonical_key()),
{
    let keys = g.keys();
    let key = g.canonical_key();
    lemma_sorted(keys);
    assert forall|i: int| 0 <= i < key.len() implies 0 <= #[trigger] key[i] && key[i]
        < KEY_LIMIT by {
        assert(key.contains(key[i]));
        to_multiset_contains(key, key[i]);
        to_multiset_contains(keys, key[i]);
        let j = choose|j: int| 0 <= j < keys.len() && keys[j] == key[i];
        lemma_content_key_bounded(g.tubes[j].slots);
    }
}

/// Of a position in canonical order, the keys as they stand are the
/// canonical key.
pub proof fn lemma_canonical_key_in_order(g: GameView)
    requires
        g.canonical(),
    ensures
        g.canonical_key() == g.keys(),
{
    let keys = g.keys();
    assert forall|i: int, j: int| 0 <= i < j < keys.len() implies keys[i] <= keys[j] by {
        assert(g.tubes[i].key() <= g.tubes[j].key());
    }
    lemma_sorted_of_ascending(keys);
}

impl Clone for Game {
    fn clone(&self) -> (copy: Self)
        ensures
            copy@ == self@,
    {
        let mut state: Vec<Tube> = Vec::new();
        let mut i: usize = 0;
        while i < self.state.len()
            invariant
                i <= self.state.len(),
                state@ == self.state@.take(i as int),
            decreases self.state.len() - i,
        {
            state.push(self.state[i]);
            i += 1;
        }
        let mut moves: Vec<(usize, usize)> = Vec::new();
        let mut j: usize = 0;
        while j < self.moves.len()
            invariant
                j <= self.moves.len(),
                moves@ == self.moves@.take(j as int),
            decreases self.moves.len() - j,
        {
            moves.push(self.moves[j]);
            j += 1;
        }
        assert(state@ =~= self.state@);
        assert(moves@ =~= self.moves@);
        Game { state, moves }
    }
}

impl PartialEq for Game {
    fn eq(&self, other: &Self) -> (b: bool) {
        let mine = self.key();
        let theirs = other.key();
        proof {
            lemma_widen_injective(mine@, theirs@);
        }
        same_key(&mine, &theirs)
    }
}

impl vstd::std_specs::cmp::PartialEqSpecImpl for Game {
    open spec fn obeys_eq_spec() -> bool {
        true
    }

    open spec fn eq_spec(&self, other: &Self) -> bool {
        self@.same_state(other@)
    }
}

impl Eq for Game {

}

/// Whether two keys are the same, number for number.
pub fn same_key(a: &Vec<u64>, b: &Vec<u64>) -> (same: bool)
    ensures
        same == (a@ == b@),
{
    if a.len() != b.len() {
        return false;
    }
    let mut i: usize = 0;
    while i < a.len()
        invariant
            i <= a.len(),
            a.len() == b.len(),
            forall|p: int| 0 <= p < i ==> a[p] == b[p],
        decreases a.len() - i,
    {
        if a[i] != b[i] {
            return false;
        }
        i += 1;
    }
    assert(a@ =~= b@);
    true
}

/// Whether `key` is one of `keys`.
pub fn holds_key(keys: &Vec<Vec<u64>>, key: &Vec<u64>) -> (found: bool)
    ensures
        found == keys@.map_values(|k: Vec<u64>| widen(k@)).contains(widen(key@)),
{
    let ghost wide = keys@.map_values(|k: Vec<u64>| widen(k@));
    let mut i: usize = 0;
    while i < keys.len()
        invariant
            i <= keys.len(),
            wide == keys@.map_values(|k: Vec<u64>| widen(k@)),
            forall|p: int| 0 <= p < i ==> wide[p] != widen(key@),
        decreases keys.len() - i,
    {
        if same_key(&keys[i], key) {
            assert(wide[i as int] == widen(key@));
            return true;
        }
        proof {
            lemma_widen_injective(keys[i as int]@, key@);
        }
        i += 1;
    }
    false
}

impl Game {
    /// Sets up a puzzle. The tubes are numbered from 1 in the order given.
    pub fn new(number_state: Vec<[u8; 4]>) -> (game: Game)
        ensures
            game@.moves.len() == 0,
            game@.tubes.len() == number_state.len(),
            game@.distinct_ids(),
            forall|i: int|
                0 <= i < number_state.len() ==> {
                    &&& (#[trigger] game@.tubes[i]).id == i + 1
                    &&& game@.tubes[i].slots == number_state[i]@.map_values(|n: u8| Color::of(n))
                },
    {
        let mut state: Vec<Tube> = Vec::new();
        let mut index: usize = 0;
        while index < number_state.len()
            invariant
                index <= number_state.len(),
                state.len() == index,
                forall|i: int|
                    0 <= i < index ==> {
                        &&& (#[trigger] state[i]).id == i + 1
                        &&& state[i]@.slots == number_state[i]@.map_values(|n: u8| Color::of(n))
                    },
            decreases number_state.len() - index,
        {
            state.push(Tube::new(number_state[index], index + 1));
            index += 1;
        }
        Game { state, moves: Vec::new() }
    }

    /// Whether the puzzle is well posed.
    pub fn check_valid(&self) -> (ok: bool)
        ensures
            ok == self@.valid(),
    {
        let mut counts: Vec<u128> = Vec::new();
        let mut r: usize = 0;
        while r < 257
            invariant
                r <= 257,
                counts.len() == r,
                forall|q: int| 0 <= q < r ==> counts[q] == 0,
            decreases 257 - r,
        {
            counts.push(0);
            r += 1;
        }
        let ghost contents = self@.tubes.map_values(|t: TubeView| t.slots);
        let ghost mut seen: Seq<Color> = Seq::empty();
        proof {
            broadcast use vstd::multiset::group_multiset_axioms;

            assert(contents.take(0) =~= Seq::<Seq<Color>>::empty());
            lemma_empty_multiset(seen);
        }
        let mut i: usize = 0;
        while i < self.state.len()
            invariant
                i <= self.state.len(),
                counts.len() == 257,
                contents == self@.tubes.map_values(|t: TubeView| t.slots),
                seen == contents.take(i as int).flatten(),
                seen.len() == 4 * i,
                forall|q: int|
                    0 <= q < 257 ==> #[trigger] counts[q] == seen.to_multiset().count(color_at(q)),
                forall|q: int| 0 <= q < 257 ==> #[trigger] counts[q] <= seen.len(),
            decreases self.state.len() - i,
        {
            let ghost base = seen;
            let tube = &self.state[i];
            let mut j: usize = 0;
            while j < 4
                invariant
                    j <= 4,
                    counts.len() == 257,
                    seen == base + tube.colors@.take(j as int),
                    base.len() == 4 * i,
                    forall|q: int|
                        0 <= q < 257 ==> #[trigger] counts[q] == seen.to_multiset().count(
                            color_at(q),
                        ),
                    forall|q: int| 0 <= q < 257 ==> #[trigger] counts[q] <= seen.len(),
                decreases 4 - j,
            {
                let color = tube.colors[j];
                let rank: usize = match color {
                    Color::Empty => 0,
                    Color::Full(v) => v as usize + 1,
                };
                counts[rank] = counts[rank] + 1;
                proof {
                    broadcast use vstd::multiset::group_multiset_axioms;

                    to_multiset_build(seen, color);
                    assert(base + tube.colors@.take(j + 1) =~= seen.push(color));
                    seen = seen.push(color);
                    assert(color == color_at(rank as int));
                    assert forall|q: int| 0 <= q < 257 && q != rank implies color_at(q)
                        != color by {}
                }
                j += 1;
            }
            proof {
                assert(tube.colors@.take(4) =~= tube.colors@);
                assert(contents.take(i + 1) =~= contents.take(i as int).push(tube.colors@));
                contents.take(i as int).lemma_flatten_push(tube.colors@);
            }
            i += 1;
        }
        assert(contents.take(i as int) =~= contents);
        assert(forall|q: int| 0 <= q < 257 ==> #[trigger] counts[q] == self@.count(color_at(q)));
        if counts[0] % 4 != 0 {
            return false;
        }
        let mut r: usize = 1;
        while r < 257
            invariant
                1 <= r <= 257,
                counts.len() == 257,
                counts[0] % 4 == 0,
                forall|q: int| 0 <= q < 257 ==> #[trigger] counts[q] == self@.count(color_at(q)),
                forall|q: int| 1 <= q < r ==> #[trigger] counts[q] == 0 || counts[q] == 4,
            decreases 257 - r,
        {
            if counts[r] != 0 && counts[r] != 4 {
                assert(color_at(r as int) is Full);
                return false;
            }
            r += 1;
        }
        assert forall|c: Color| c is Full implies #[trigger] self@.count(c) == 0 || self@.count(c)
            == 4 by {
            assert(c == color_at(c.rank()));
            assert(counts[c.rank()] == self@.count(color_at(c.rank())));
        }
        true
    }

    /// Pours the tube at position `a` into the one at `b` and says whether
    /// anything moved.
    pub fn pour(&mut self, a: usize, b: usize) -> (moved: bool)
        requires
            a == b || (a < old(self).state.len() && b < old(self).state.len()),
        ensures
            final(self)@ == old(self)@.pour(a as int, b as int),
            moved == old(self)@.pours(a as int, b as int),
    {
        if a == b {
            return false;
        }
        let mut source = self.state[a];
        let mut tube = self.state[b];
        let output = source.pour(&mut tube);
        self.state[a] = source;
        self.state[b] = tube;
        assert(self@.tubes =~= old(self)@.pour(a as int, b as int).tubes);
        output
    }

    /// The position that the pour from `a` to `b` leads to, if it moves
    /// anything.
    pub fn try_pour(&self, a: usize, b: usize) -> (next: Option<Game>)
        requires
            a == b || (a < self.state.len() && b < self.state.len()),
        ensures
            match next {
                Some(game) => self@.pours(a as int, b as int) && game@ == self@.pour(
                    a as int,
                    b as int,
                ),
                None => !self@.pours(a as int, b as int),
            },
    {
        let mut game = self.clone();
        if game.pour(a, b) {
            return Some(game);
        }
        None
    }

    /// The positions that one pour leads to, each state once. Where
    /// several pours lead to the same state, the first of them is kept,
    /// counted by source position and then by destination position; the
    /// positions are listed in the order of these pours.
    pub fn moves(&self) -> (next: Vec<Game>)
        ensures
            forall|k: int| 0 <= k < next.len() ==> self@.leads_to(#[trigger] next[k]@),
            forall|a: int, b: int| #[trigger]
                self@.pours(a, b) ==> state_keys(next@).contains(self@.pour(a, b).canonical_key()),
            state_keys(next@).no_duplicates(),
            exists|at: Seq<(int, int)>| self@.first_pours(at, views(next@)),
    {
        let mut games: Vec<Game> = Vec::new();
        let mut seen: Vec<Vec<u64>> = Vec::new();
        let ghost mut at: Seq<(int, int)> = Seq::empty();
        let n = self.state.len();
        let mut i: usize = 0;
        while i < n
            invariant
                n == self.state.len(),
                i <= n,
                seen@.map_values(|k: Vec<u64>| widen(k@)) == state_keys(games@),
                state_keys(games@).no_duplicates(),
                forall|k: int| 0 <= k < games.len() ==> self@.leads_to(#[trigger] games[k]@),
                forall|a: int, b: int| #[trigger]
                    self@.pours(a, b) && a < i ==> state_keys(games@).contains(
                        self@.pour(a, b).canonical_key(),
                    ),
                self@.first_pours(at, views(games@)),
                forall|k: int| 0 <= k < at.len() ==> (#[trigger] at[k]).0 < i,
            decreases n - i,
        {
            let mut o: usize = 0;
            while o < n
                invariant
                    n == self.state.len(),
                    i < n,
                    o <= n,
                    seen@.map_values(|k: Vec<u64>| widen(k@)) == state_keys(games@),
                    state_keys(games@).no_duplicates(),
                    forall|k: int| 0 <= k < games.len() ==> self@.leads_to(#[trigger] games[k]@),
                    forall|a: int, b: int| #[trigger]
                        self@.pours(a, b) && (a < i || (a == i && b < o)) ==> state_keys(
                            games@,
                        ).contains(self@.pour(a, b).canonical_key()),
                    self@.first_pours(at, views(games@)),
                    forall|k: int|
                        0 <= k < at.len() ==> tried_before(
                            (#[trigger] at[k]).0,
                            at[k].1,
                            i as int,
                            o as int,
                        ),
                decreases n - o,
            {
                if let Some(mut game) = self.try_pour(i, o) {
                    let ghost poured = self@.pour(i as int, o as int);
                    assert(game.state@.len() == game@.tubes.len());
                    assert(game.state[i as int]@ == poured.tubes[i as int]);
                    assert(game.state[o as int]@ == poured.tubes[o as int]);
                    game.moves.push((game.state[i].id, game.state[o].id));
                    assert(game@.tubes == poured.tubes);
                    game.sort();
                    let key = game.key();
                    proof {
                        assert(self@.step(i as int, o as int, game@));
                        lemma_rearranged_same_state(game@, self@.pour(i as int, o as int));
                    }
                    if !holds_key(&seen, &key) {
                        let ghost before = state_keys(games@);
                        let ghost listed = views(games@);
                        seen.push(key);
                        games.push(game);
                        proof {
                            assert(views(games@) =~= listed.push(game@));
                            assert forall|c: int, d: int|
                                tried_before(c, d, i as int, o as int) && #[trigger] self@.pours(
                                    c,
                                    d,
                                ) implies !self@.pour(c, d).same_state(poured) by {
                                assert(before.contains(self@.pour(c, d).canonical_key()));
                            }
                            at = at.push((i as int, o as int));
                            assert(state_keys(games@) =~= before.push(game@.canonical_key()));
                            assert(seen@.map_values(|k: Vec<u64>| widen(k@)) =~= state_keys(
                                games@,
                            ));
                            assert forall|a: int, b: int| #[trigger]
                                self@.pours(a, b) && (a < i || (a == i && b < o + 1))
                            implies state_keys(games@).contains(
                                self@.pour(a, b).canonical_key(),
                            ) by {
                                lemma_push_contains(
                                    before,
                                    game@.canonical_key(),
                                    self@.pour(a, b).canonical_key(),
                                );
                            }
                        }
                    }
                }
                o += 1;
            }
            i += 1;
        }
        games
    }

    /// Brings the tubes into canonical order. Only their places change.
    pub fn sort(&mut self)
        ensures
            final(self)@.canonical(),
            final(self)@.rearranges(old(self)@),
            final(self)@.moves == old(self)@.moves,
    {
        let n = self.state.len();
        let mut i: usize = 1;
        while i < n
            invariant
                n == self.state.len(),
                1 <= i,
                self.moves == old(self).moves,
                self@.rearranges(old(self)@),
                forall|x: int, y: int|
                    0 <= x < y < i && y < n ==> (#[trigger] self@.tubes[x]).key() <= (
                    #[trigger] self@.tubes[y]).key(),
            decreases n - i,
        {
            let mut j: usize = i;
            while j > 0 && self.state[j - 1] > self.state[j]
                invariant
                    n == self.state.len(),
                    j <= i < n,
                    self.moves == old(self).moves,
                    self@.rearranges(old(self)@),
                    forall|x: int, y: int|
                        0 <= x < y <= i && y != j ==> (#[trigger] self@.tubes[x]).key() <= (
                        #[trigger] self@.tubes[y]).key(),
                decreases j,
            {
                let ghost before = self@.tubes;
                let upper = self.state[j - 1];
                let lower = self.state[j];
                self.state[j - 1] = lower;
                self.state[j] = upper;
                proof {
                    assert(self@.tubes =~= before.update(j - 1, before[j as int]).update(
                        j as int,
                        before[j - 1],
                    ));
                    lemma_swap_keeps_multiset(before, j - 1, j as int);
                }
                j -= 1;
            }
            assert(j > 0 ==> self@.tubes[j - 1].key() <= self@.tubes[j as int].key());
            i += 1;
        }
    }

    /// The canonical key of the position.
    pub fn key(&self) -> (key: Vec<u64>)
        ensures
            widen(key@) == self@.canonical_key(),
    {
        let mut ordered = self.clone();
        ordered.sort();
        let mut key: Vec<u64> = Vec::new();
        let mut i: usize = 0;
        while i < ordered.state.len()
            invariant
                i <= ordered.state.len(),
                key.len() == i,
                forall|p: int| 0 <= p < i ==> #[trigger] key[p] == ordered@.tubes[p].key(),
            decreases ordered.state.len() - i,
        {
            key.push(ordered.state[i].sort_key());
            i += 1;
        }
        proof {
            assert(widen(key@) =~= ordered@.keys());
            lemma_canonical_key_in_order(ordered@);
            lemma_rearranged_same_state(ordered@, self@);
        }
        key
    }

    /// Whether every tube holds one colour in all its slots, or nothing.
    pub fn is_solved(&self) -> (b: bool)
        ensures
            b == self@.solved(),
    {
        let mut i: usize = 0;
        while i < self.state.len()
            invariant
                i <= self.state.len(),
                forall|p: int| 0 <= p < i ==> uniform((#[trigger] self@.tubes[p]).slots),
            decreases self.state.len() - i,
        {
            if !self.state[i].is_uniform() {
                assert(!uniform(self@.tubes[i as int].slots));
                return false;
            }
            i += 1;
        }
        true
    }

    /// The position at which the tube with identity `id` now stands.
    pub fn tube(&self, id: usize) -> (index: usize)
        requires
            self@.holds(id),
        ensures
            index == self@.position(id),
            index < self@.tubes.len(),
            self@.tubes[index as int].id == id,
            forall|p: int| 0 <= p < index ==> (#[trigger] self@.tubes[p]).id != id,
    {
        let mut index: usize = 0;
        while index < self.state.len()
            invariant
                index <= self.state.len(),
                self@.holds(id),
                forall|p: int| 0 <= p < index ==> (#[trigger] self@.tubes[p]).id != id,
            decreases self.state.len() - index,
        {
            if self.state[index].id == id {
                proof {
                    lemma_position_is(self@, id, index as int);
                }
                return index;
            }
            index += 1;
        }
        proof {
            let p = choose|p: int|
                0 <= p < self@.tubes.len() && (#[trigger] self@.tubes[p]).id == id;
            assert(self@.tubes[p].id != id);
        }
        0
    }
}

} // verus!
