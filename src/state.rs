use crate::actions::{
    animal_actions, combo_actions, discard_actions, is_attack_action, is_discard_action, pick,
    play_actions, views,
};
use crate::subsets::is_index_combo;
use crate::card::{
    full_deck, jester, jesters, number_cards, royal_cards, sum_attack, Card, CardSuit, CardValue,
};
use crate::enemy::Enemy;
use crate::fixed::{hand_cards, hand_len, pile_cards, Hand};
use crate::game::{Action, ActionView, GameResult, GameStatus, RegicideError};
use crate::player::{holds, remove_cards, Player, PlayerId};
use crate::random::{entropy_rng, next_u64, seeded_rng};
use crate::table::{enemy_cards, Table};
use rand::rngs::StdRng;
use vstd::multiset::Multiset;
use vstd::prelude::*;

verus! {

broadcast use vstd::seq_lib::group_to_multiset_ensures, vstd::multiset::group_multiset_axioms, vstd::seq_lib::group_seq_properties;

/// What the player whose turn it is must do next.
#[derive(Clone, Copy, PartialEq, Eq, Structural, Debug, Hash)]
pub enum ActionType {
    /// Play cards against the enemy, or yield.
    PlayCards,
    /// Discard cards worth at least this much attack.
    Discard(u8),
    /// Choose who plays next, after a Jester.
    Jester,
}

/// Jesters in the deck for a number of players.
pub open spec fn jesters_for(n: int) -> nat {
    if n == 3 {
        1
    } else if n == 4 {
        2
    } else {
        0
    }
}

/// Hand size for a number of players: 8, 7, 6 or 5.
pub open spec fn hand_size_for(n: int) -> int {
    9 - n
}

/// Hand refills of a game for a number of players: two in a game alone.
pub open spec fn refills_for(n: int) -> int {
    if n == 1 {
        2
    } else {
        0
    }
}

/// All cards in the hands of `ps`.
pub open spec fn hands_cards(ps: Seq<Player>) -> Multiset<Card>
    decreases ps.len(),
{
    if ps.len() == 0 {
        Multiset::empty()
    } else {
        hands_cards(ps.drop_last()).add(ps.last().cards().to_multiset())
    }
}

pub proof fn lemma_hands_cards_update(ps: Seq<Player>, i: int, p: Player)
    requires
        0 <= i < ps.len(),
    ensures
        hands_cards(ps.update(i, p)).add(ps[i].cards().to_multiset()) == hands_cards(ps).add(
            p.cards().to_multiset(),
        ),
    decreases ps.len(),
{
    let q = ps.update(i, p);
    if i == ps.len() - 1 {
        assert(q.drop_last() =~= ps.drop_last());
        assert(q.last() == p);
        assert(hands_cards(q) == hands_cards(ps.drop_last()).add(p.cards().to_multiset()));
        assert(hands_cards(ps) == hands_cards(ps.drop_last()).add(ps[i].cards().to_multiset()));
        assert(hands_cards(q).add(ps[i].cards().to_multiset()) =~= hands_cards(ps).add(
            p.cards().to_multiset(),
        ));
    } else {
        lemma_hands_cards_update(ps.drop_last(), i, p);
        assert(q.drop_last() =~= ps.drop_last().update(i, p));
        assert(q.last() == ps.last());
        assert(ps.drop_last()[i] == ps[i]);
        assert(hands_cards(q) == hands_cards(ps.drop_last().update(i, p)).add(
            ps.last().cards().to_multiset(),
        ));
        assert(hands_cards(ps) == hands_cards(ps.drop_last()).add(ps.last().cards().to_multiset()));
        let a = hands_cards(ps.drop_last().update(i, p));
        let b = hands_cards(ps.drop_last());
        let l = ps.last().cards().to_multiset();
        let x = ps[i].cards().to_multiset();
        let pm = p.cards().to_multiset();
        assert forall|v: Card| #[trigger] a.add(l).add(x).count(v) == b.add(l).add(pm).count(v) by {
            assert(a.add(x).count(v) == b.add(pm).count(v));
        }
        assert(hands_cards(q).add(ps[i].cards().to_multiset()) =~= hands_cards(ps).add(
            p.cards().to_multiset(),
        ));
    }
}

/// The smallest of three numbers.
pub open spec fn min3(a: int, b: int, c: int) -> int {
    if a <= b && a <= c {
        a
    } else if b <= c {
        b
    } else {
        c
    }
}

/// The places left in the hands of `ps` below the hand size `max`.
pub open spec fn free_slots(ps: Seq<Player>, max: int) -> int
    decreases ps.len(),
{
    if ps.len() == 0 {
        0
    } else {
        free_slots(ps.drop_last(), max) + if ps.last().cards().len() < max {
            max - ps.last().cards().len()
        } else {
            0
        }
    }
}

/// The places left in the hands of `ps` below the hand size `max`, with
/// the hand at seat `t` counted as holding `lt` cards.
pub open spec fn free_slots_with(ps: Seq<Player>, t: int, lt: int, max: int) -> int
    decreases ps.len(),
{
    if ps.len() == 0 {
        0
    } else {
        let l = if ps.len() - 1 == t {
            lt
        } else {
            ps.last().cards().len() as int
        };
        free_slots_with(ps.drop_last(), t, lt, max) + if l < max {
            max - l
        } else {
            0
        }
    }
}

proof fn lemma_free_slots_with(ps2: Seq<Player>, ps: Seq<Player>, t: int, max: int)
    requires
        ps2.len() == ps.len(),
        0 <= t < ps.len(),
        forall|j: int| 0 <= j < ps.len() && j != t ==> (#[trigger] ps2[j]).cards().len() == ps[j].cards().len(),
    ensures
        free_slots(ps2, max) == free_slots_with(ps, t, ps2[t].cards().len() as int, max),
    decreases ps.len(),
{
    if ps.len() > 0 && t < ps.len() - 1 {
        assert forall|j: int| 0 <= j < ps.drop_last().len() && j != t implies (#[trigger] ps2.drop_last()[j]).cards().len()
            == ps.drop_last()[j].cards().len() by {
            assert(ps2.drop_last()[j] == ps2[j]);
        }
        lemma_free_slots_with(ps2.drop_last(), ps.drop_last(), t, max);
        assert(ps2.drop_last()[t] == ps2[t]);
        assert(ps2.last().cards().len() == ps.last().cards().len());
    } else if ps.len() > 0 {
        lemma_free_slots_same(ps2.drop_last(), ps.drop_last(), max);
        assert(free_slots_with(ps.drop_last(), t, ps2[t].cards().len() as int, max) == free_slots(ps.drop_last(), max)) by {
            lemma_free_slots_with_beyond(ps.drop_last(), t, ps2[t].cards().len() as int, max);
        }
    }
}

proof fn lemma_free_slots_same(ps2: Seq<Player>, ps: Seq<Player>, max: int)
    requires
        ps2.len() == ps.len(),
        forall|j: int| 0 <= j < ps.len() ==> (#[trigger] ps2[j]).cards().len() == ps[j].cards().len(),
    ensures
        free_slots(ps2, max) == free_slots(ps, max),
    decreases ps.len(),
{
    if ps.len() > 0 {
        assert forall|j: int| 0 <= j < ps.drop_last().len() implies (#[trigger] ps2.drop_last()[j]).cards().len()
            == ps.drop_last()[j].cards().len() by {
            assert(ps2.drop_last()[j] == ps2[j]);
        }
        lemma_free_slots_same(ps2.drop_last(), ps.drop_last(), max);
        assert(ps2.last().cards().len() == ps.last().cards().len());
    }
}

proof fn lemma_free_slots_with_same(ps2: Seq<Player>, ps: Seq<Player>, t: int, lt: int, max: int)
    requires
        ps2.len() == ps.len(),
        forall|j: int| 0 <= j < ps.len() ==> (#[trigger] ps2[j]).cards().len() == ps[j].cards().len(),
    ensures
        free_slots_with(ps2, t, lt, max) == free_slots_with(ps, t, lt, max),
    decreases ps.len(),
{
    if ps.len() > 0 {
        assert forall|j: int| 0 <= j < ps.drop_last().len() implies (#[trigger] ps2.drop_last()[j]).cards().len()
            == ps.drop_last()[j].cards().len() by {
            assert(ps2.drop_last()[j] == ps2[j]);
        }
        lemma_free_slots_with_same(ps2.drop_last(), ps.drop_last(), t, lt, max);
        assert(ps2.last().cards().len() == ps.last().cards().len());
    }
}

proof fn lemma_free_slots_with_beyond(ps: Seq<Player>, t: int, lt: int, max: int)
    requires
        t >= ps.len(),
    ensures
        free_slots_with(ps, t, lt, max) == free_slots(ps, max),
    decreases ps.len(),
{
    if ps.len() > 0 {
        lemma_free_slots_with_beyond(ps.drop_last(), t, lt, max);
    }
}

proof fn lemma_free_nonneg(ps: Seq<Player>, max: int)
    ensures
        free_slots(ps, max) >= 0,
    decreases ps.len(),
{
    if ps.len() > 0 {
        lemma_free_nonneg(ps.drop_last(), max);
    }
}

proof fn lemma_free_slots_draw(ps: Seq<Player>, j: int, p: Player, max: int)
    requires
        0 <= j < ps.len(),
        ps[j].cards().len() < max,
        p.cards().len() == ps[j].cards().len() + 1,
    ensures
        free_slots(ps.update(j, p), max) == free_slots(ps, max) - 1,
    decreases ps.len(),
{
    let q = ps.update(j, p);
    if j == ps.len() - 1 {
        assert(q.drop_last() =~= ps.drop_last());
    } else {
        lemma_free_slots_draw(ps.drop_last(), j, p, max);
        assert(q.drop_last() =~= ps.drop_last().update(j, p));
    }
}

proof fn lemma_free_slots_room(ps: Seq<Player>, max: int)
    requires
        free_slots(ps, max) > 0,
    ensures
        exists|j: int| 0 <= j < ps.len() && #[trigger] ps[j].cards().len() < max,
    decreases ps.len(),
{
    if ps.last().cards().len() >= max {
        lemma_free_slots_room(ps.drop_last(), max);
        let j = choose|j: int| 0 <= j < ps.drop_last().len() && #[trigger] ps.drop_last()[j].cards().len() < max;
        assert(ps[j] == ps.drop_last()[j]);
    } else {
        assert(ps[ps.len() - 1].cards().len() < max);
    }
}

/// The seat `o` places after seat `base` in a ring of `n`.
pub open spec fn seat_at(base: int, n: int, o: int) -> int {
    (base + o) % n
}

/// Going round a ring of `n` seats from any start reaches every seat.
proof fn lemma_seat_reached(base: int, n: int, j: int)
    requires
        0 <= base,
        0 < n,
        0 <= j < n,
    ensures
        exists|o: int| 0 <= o < n && #[trigger] seat_at(base, n, o) == j,
{
    let b = base % n;
    let q = base / n;
    vstd::arithmetic::div_mod::lemma_fundamental_div_mod(base, n);
    if j >= b {
        let o = j - b;
        assert(base + o == n * q + j);
        vstd::arithmetic::div_mod::lemma_mod_multiples_vanish(q, j, n);
        vstd::arithmetic::div_mod::lemma_small_mod(j as nat, n as nat);
        assert((base + o) % n == j);
        assert(seat_at(base, n, o) == j);
    } else {
        let o = j + n - b;
        assert(base + o == n * (q + 1) + j) by (nonlinear_arith)
            requires base == n * q + b, o == j + n - b;
        vstd::arithmetic::div_mod::lemma_mod_multiples_vanish(q + 1, j, n);
        vstd::arithmetic::div_mod::lemma_small_mod(j as nat, n as nat);
        assert((base + o) % n == j);
        assert(seat_at(base, n, o) == j);
    }
}

/// The cards in the hands of `ps`, the hand at `turn` left out.
pub open spec fn hidden_hands(ps: Seq<Player>, turn: int) -> Multiset<Card>
    decreases ps.len(),
{
    if ps.len() == 0 {
        Multiset::empty()
    } else {
        hidden_hands(ps.drop_last(), turn).add(
            if ps.len() - 1 == turn {
                Multiset::empty()
            } else {
                ps.last().cards().to_multiset()
            },
        )
    }
}

proof fn lemma_hidden_hands(ps: Seq<Player>, turn: int)
    requires
        0 <= turn < ps.len(),
    ensures
        hands_cards(ps) == hidden_hands(ps, turn).add(ps[turn].cards().to_multiset()),
    decreases ps.len(),
{
    let d = ps.drop_last();
    let l = ps.last().cards().to_multiset();
    let x = ps[turn].cards().to_multiset();
    assert(hands_cards(ps) == hands_cards(d).add(l));
    if turn < ps.len() - 1 {
        lemma_hidden_hands(d, turn);
        assert(d[turn] == ps[turn]);
        assert(hidden_hands(ps, turn) == hidden_hands(d, turn).add(l));
        assert forall|v: Card| #[trigger] hands_cards(ps).count(v) == hidden_hands(ps, turn).add(x).count(v) by {
            assert(hands_cards(d).count(v) == hidden_hands(d, turn).add(x).count(v));
        }
    } else {
        lemma_hidden_hands_beyond(d, turn);
        assert(hidden_hands(ps, turn) == hidden_hands(d, turn).add(Multiset::empty()));
        assert(l == x);
        assert forall|v: Card| #[trigger] hands_cards(ps).count(v) == hidden_hands(ps, turn).add(x).count(v) by {
            assert(hands_cards(d).count(v) == hidden_hands(d, turn).count(v));
        }
    }
    assert(hands_cards(ps) =~= hidden_hands(ps, turn).add(ps[turn].cards().to_multiset()));
}

proof fn lemma_hidden_hands_beyond(ps: Seq<Player>, turn: int)
    requires
        turn >= ps.len(),
    ensures
        hidden_hands(ps, turn) == hands_cards(ps),
    decreases ps.len(),
{
    if ps.len() > 0 {
        lemma_hidden_hands_beyond(ps.drop_last(), turn);
    }
}

proof fn lemma_hidden_hands_empty(ps: Seq<Player>, turn: int)
    requires
        forall|j: int| 0 <= j < ps.len() && j != turn ==> (#[trigger] ps[j]).cards().len() == 0,
    ensures
        hidden_hands(ps, turn) == Multiset::<Card>::empty(),
    decreases ps.len(),
{
    if ps.len() > 0 {
        assert forall|j: int| 0 <= j < ps.drop_last().len() && j != turn implies (#[trigger] ps.drop_last()[j]).cards().len() == 0 by {
            assert(ps.drop_last()[j] == ps[j]);
        }
        lemma_hidden_hands_empty(ps.drop_last(), turn);
        if ps.len() - 1 != turn {
            assert(ps.last().cards().len() == 0);
            assert(ps.last().cards().to_multiset() =~= Multiset::empty());
        }
        assert(hidden_hands(ps, turn) =~= Multiset::empty());
    }
}

/// A prefix of a hand is worth no more than the hand.
pub proof fn lemma_sum_attack_prefix(h: Seq<Card>, k: int)
    requires
        0 <= k <= h.len(),
    ensures
        sum_attack(h.take(k)) <= sum_attack(h),
    decreases h.len(),
{
    if k < h.len() {
        lemma_sum_attack_prefix(h.drop_last(), k);
        assert(h.drop_last().take(k) =~= h.take(k));
    } else {
        assert(h.take(k) =~= h);
    }
}

/// One hand holds no more cards than all hands together.
pub proof fn lemma_hand_in_hands(ps: Seq<Player>, i: int)
    requires
        0 <= i < ps.len(),
    ensures
        ps[i].cards().len() <= hands_cards(ps).len(),
    decreases ps.len(),
{
    if i < ps.len() - 1 {
        lemma_hand_in_hands(ps.drop_last(), i);
    }
}

/// The number of cards in the hands of the seats below `hi`, the hand at
/// `turn` left out.
pub open spec fn others_prefix(ps: Seq<Player>, turn: int, hi: int) -> int
    decreases hi,
{
    if hi <= 0 {
        0
    } else {
        others_prefix(ps, turn, hi - 1) + if hi - 1 == turn {
            0
        } else {
            ps[hi - 1].cards().len() as int
        }
    }
}

proof fn lemma_others_prefix(ps: Seq<Player>, turn: int, hi: int)
    requires
        0 <= hi <= ps.len(),
        0 <= turn < ps.len(),
    ensures
        hands_cards(ps.take(hi)).len() == others_prefix(ps, turn, hi) + if turn < hi {
            ps[turn].cards().len() as int
        } else {
            0
        },
    decreases hi,
{
    if hi > 0 {
        lemma_others_prefix(ps, turn, hi - 1);
        assert(ps.take(hi).drop_last() =~= ps.take(hi - 1));
        assert(ps.take(hi).last() == ps[hi - 1]);
    } else {
        assert(ps.take(hi).len() == 0);
    }
}

proof fn lemma_others_prefix_same(ps: Seq<Player>, qs: Seq<Player>, turn: int, hi: int)
    requires
        ps.len() == qs.len(),
        0 <= hi <= ps.len(),
        forall|j: int| 0 <= j < ps.len() ==> (#[trigger] ps[j]).cards().len() == qs[j].cards().len(),
    ensures
        others_prefix(ps, turn, hi) == others_prefix(qs, turn, hi),
    decreases hi,
{
    if hi > 0 {
        lemma_others_prefix_same(ps, qs, turn, hi - 1);
        assert(ps[hi - 1].cards().len() == qs[hi - 1].cards().len());
    }
}

proof fn lemma_others_monotone(ps: Seq<Player>, turn: int, i: int, j: int)
    requires
        0 <= i <= j,
    ensures
        others_prefix(ps, turn, i) <= others_prefix(ps, turn, j),
    decreases j - i,
{
    if i < j {
        lemma_others_monotone(ps, turn, i, j - 1);
    }
}

/// A game in progress.
#[derive(Clone, Debug)]
pub struct State {
    pub table: Table,
    pub players: Vec<Player>,
    pub has_turn: PlayerId,
    /// Yields in a row without an attack between them.
    pub times_yielded: usize,
    pub max_hand_size: u8,
    pub action_type: ActionType,
    /// Set by `make_move` once an action ends the game.
    pub has_ended: Option<GameResult>,
    /// Enemies defeated so far.
    pub level: u8,
    pub rng_seed: u64,
    pub hand_refills_left: u8,
}

impl State {
    pub open spec fn n_players(&self) -> int {
        self.players@.len() as int
    }

    /// The cards in the hand of the player whose turn it is.
    pub open spec fn hand(&self) -> Seq<Card> {
        self.players@[self.has_turn.0 as int].cards()
    }

    /// Every card of the game: on the table, in the castle, in the hands.
    pub open spec fn all_cards(&self) -> Multiset<Card> {
        self.table.all_cards().add(hands_cards(self.players@))
    }

    /// The shape of a state: a valid player count, seat numbers, turn,
    /// counters, and one level for each enemy defeated.
    pub open spec fn inv(&self) -> bool {
        &&& 1 <= self.n_players() <= 4
        &&& self.has_turn.0 < self.n_players()
        &&& self.times_yielded < self.n_players()
        &&& self.max_hand_size == hand_size_for(self.n_players())
        &&& self.level + self.table.castle().len() == 12
        &&& forall|i: int| 0 <= i < self.n_players() ==> (#[trigger] self.players@[i]).id == PlayerId(i as usize)
    }

    /// A well-formed state: its shape, and every card of the deck exactly once.
    pub open spec fn wf(&self) -> bool {
        &&& self.inv()
        &&& self.all_cards() == full_deck(jesters_for(self.n_players()))
    }

    fn new_rng(seed: Option<u64>) -> StdRng {
        match seed {
            Some(s) => seeded_rng(s),
            None => entropy_rng(),
        }
    }

    /// A generator for one random step; the seed moves on.
    fn get_rng(&mut self) -> (r: StdRng)
        ensures
            final(self).table == old(self).table,
            final(self).players == old(self).players,
            final(self).has_turn == old(self).has_turn,
            final(self).times_yielded == old(self).times_yielded,
            final(self).max_hand_size == old(self).max_hand_size,
            final(self).action_type == old(self).action_type,
            final(self).has_ended == old(self).has_ended,
            final(self).level == old(self).level,
            final(self).hand_refills_left == old(self).hand_refills_left,
    {
        let mut rng = seeded_rng(self.rng_seed);
        self.rng_seed = next_u64(&mut rng);
        rng
    }

    /// A new game for `n_players` players, dealt from a shuffled deck.
    /// The same seed deals the same game.
    pub fn new(n_players: usize, seed: Option<u64>) -> (r: Result<State, RegicideError>)
        ensures
            !(1 <= n_players <= 4) <==> r == Err::<State, RegicideError>(
                RegicideError::WrongNumberOfPlayers,
            ),
            1 <= n_players <= 4 <==> r is Ok,
            r matches Ok(s) ==> {
                &&& s.wf()
                &&& s.n_players() == n_players
                &&& s.has_turn == PlayerId(0)
                &&& s.times_yielded == 0
                &&& s.action_type == ActionType::PlayCards
                &&& s.has_ended is None
                &&& s.level == 0
                &&& s.hand_refills_left == refills_for(n_players as int)
                &&& s.table.discard().len() == 0
                &&& s.table.attack().len() == 0
                &&& crate::table::in_tiers(s.table.castle())
                &&& crate::table::in_tier_order(enemy_cards(s.table.castle()))
                &&& s.table.castle().len() == 12
                &&& forall|i: int| 0 <= i < 12 ==> crate::table::is_fresh(#[trigger] s.table.castle()[i])
                &&& forall|i: int|
                    0 <= i < n_players ==> (#[trigger] s.players@[i]).cards().len()
                        == hand_size_for(n_players as int)
            },
    {
        if n_players < 1 || n_players > 4 {
            return Err(RegicideError::WrongNumberOfPlayers);
        }
        let mut rng = Self::new_rng(seed);
        let n_jesters: usize = if n_players == 3 {
            1
        } else if n_players == 4 {
            2
        } else {
            0
        };
        let max_hand_size: usize = 9 - n_players;
        let hand_refills_left: u8 = if n_players == 1 {
            2
        } else {
            0
        };
        let mut table = Table::new(n_jesters, &mut rng);
        let ghost deck = number_cards() + jesters(n_jesters as nat);
        let mut players: Vec<Player> = Vec::new();
        let mut id: usize = 0;
        while id < n_players
            invariant
                1 <= n_players <= 4,
                max_hand_size == 9 - n_players,
                id <= n_players,
                players@.len() == id,
                table.tavern().len() == deck.len() - id * max_hand_size,
                deck.len() >= 40,
                hands_cards(players@).add(table.tavern().to_multiset()) == deck.to_multiset(),
                forall|i: int| 0 <= i < id ==> (#[trigger] players@[i]).id == PlayerId(i as usize),
                forall|i: int| 0 <= i < id ==> (#[trigger] players@[i]).cards().len() == max_hand_size,
                table.castle().len() == 12,
                crate::table::in_tiers(table.castle()),
                forall|i: int| 0 <= i < 12 ==> crate::table::is_fresh(#[trigger] table.castle()[i]),
                enemy_cards(table.castle()).to_multiset() == royal_cards().to_multiset(),
                table.discard().len() == 0,
                table.attack().len() == 0,
            decreases n_players - id,
        {
            proof {
                assert(id * max_hand_size <= 20) by (nonlinear_arith)
                    requires id < n_players, max_hand_size == 9 - n_players, n_players <= 4;
                assert((id + 1) * max_hand_size == id * max_hand_size + max_hand_size) by (nonlinear_arith);
                assert((id + 1) * max_hand_size <= 20) by (nonlinear_arith)
                    requires id < n_players, max_hand_size == 9 - n_players, n_players <= 4;
            }
            let hand = table.draw_cards(max_hand_size);
            let p = Player::new(id, hand);
            let ghost before = players@;
            players.push(p);
            proof {
                assert(players@.drop_last() =~= before);
                assert(hands_cards(players@).add(table.tavern().to_multiset()) =~= deck.to_multiset());
            }
            id += 1;
        }
        let seed_next = next_u64(&mut rng);
        let s = State {
            table,
            players,
            has_turn: PlayerId(0),
            times_yielded: 0,
            max_hand_size: max_hand_size as u8,
            action_type: ActionType::PlayCards,
            has_ended: None,
            level: 0,
            rng_seed: seed_next,
            hand_refills_left,
        };
        proof {
            vstd::seq_lib::lemma_multiset_commutative(deck, royal_cards());
            assert(table.all_cards() =~= royal_cards().to_multiset().add(table.tavern().to_multiset()));
            assert(s.all_cards() =~= full_deck(jesters_for(n_players as int)));
        }
        Ok(s)
    }

    /// `true` when this state has the shape every operation expects: a valid
    /// player count, seats numbered in order, turn and counters in range, and
    /// one level for each enemy defeated.
    pub fn check_shape(&self) -> (r: bool)
        ensures
            r == self.inv(),
    {
        let n = self.players.len();
        if n < 1 || n > 4 || self.has_turn.0 >= n || self.times_yielded >= n {
            return false;
        }
        if self.max_hand_size as usize != 9 - n {
            return false;
        }
        if self.level as usize + crate::fixed::castle_len(&self.table.castle_deck) != 12 {
            return false;
        }
        let mut i: usize = 0;
        while i < n
            invariant
                n == self.n_players(),
                i <= n,
                forall|j: int| 0 <= j < i ==> (#[trigger] self.players@[j]).id == PlayerId(j as usize),
            decreases n - i,
        {
            if self.players[i].id.0 != i {
                return false;
            }
            i += 1;
        }
        true
    }

    pub fn has_turn(&self) -> (r: PlayerId)
        ensures
            r == self.has_turn,
    {
        self.has_turn
    }

    /// A copy of the hand of the player whose turn it is.
    pub fn current_hand(&self) -> (r: Hand)
        requires
            self.inv(),
        ensures
            hand_cards(r) == self.hand(),
    {
        crate::fixed::hand_copy(&self.players[self.has_turn.0].hand)
    }

    /// The score so far: enemies defeated.
    pub fn reward(&self) -> (r: u8)
        ensures
            r == self.level,
    {
        self.level
    }

    pub fn current_enemy(&self) -> (r: Option<Enemy>)
        ensures
            self.table.castle().len() == 0 ==> r is None,
            self.table.castle().len() > 0 ==> r == Some(self.table.castle().last()),
    {
        self.table.current_enemy()
    }

    /// Whether `a` is among the actions open to the player whose turn it is.
    pub open spec fn is_legal(&self, a: ActionView) -> bool {
        ||| (a is RefillHand && self.n_players() == 1 && self.hand_refills_left > 0)
        ||| match self.action_type {
            ActionType::PlayCards => is_attack_action(self.hand(), a),
            ActionType::Discard(amount) => is_discard_action(self.hand(), amount as int, a),
            ActionType::Jester => a matches ActionView::ChangePlayer(id) && id.0 < self.n_players(),
        }
    }

    /// The actions open to the player whose turn it is: exactly the legal ones.
    pub fn get_action_space(&self) -> (r: Vec<Action>)
        requires
            self.inv(),
        ensures
            is_action_space(*self, r@),
            self.hand().no_duplicates() ==> views(r@).no_duplicates(),
            self.action_type == ActionType::Jester ==> views(r@) == seat_choices(self.n_players())
                + if refill_offered(*self) { seq![ActionView::RefillHand] } else { Seq::empty() },
            refill_offered(*self) ==> views(r@).last() == ActionView::RefillHand
                && !views(r@).drop_last().contains(ActionView::RefillHand),
            forall|p: int, q: int| 0 <= p < q < r@.len() && views(r@)[p] is Discard && views(r@)[q] is Discard
                ==> crate::actions::discard_size(views(r@)[p]) <= crate::actions::discard_size(views(r@)[q]),
    {
        let player = &self.players[self.has_turn.0];
        let mut actions = match self.action_type {
            ActionType::Discard(amount) => discard_actions(&player.hand, amount),
            ActionType::PlayCards => self.attack_actions(player),
            ActionType::Jester => self.jester_actions(),
        };
        let ghost base = views(actions@);
        proof {
            if !(self.action_type is Discard) {
                assert forall|p: int| 0 <= p < base.len() implies !(#[trigger] base[p] is Discard) by {
                    assert(base.contains(base[p]));
                    if self.action_type == ActionType::Jester {
                        assert(base[p] == ActionView::ChangePlayer(PlayerId(p as usize)));
                    }
                }
            }
            if self.action_type == ActionType::Jester {
                assert forall|i: int, j: int| 0 <= i < j < views(actions@).len() implies views(actions@)[i] != views(actions@)[j] by {
                    assert(views(actions@)[i] == ActionView::ChangePlayer(PlayerId(i as usize)));
                    assert(views(actions@)[j] == ActionView::ChangePlayer(PlayerId(j as usize)));
                }
                assert(views(actions@) + Seq::<ActionView>::empty() =~= views(actions@));
            }
        }
        if self.players.len() == 1 && self.hand_refills_left > 0 {
            let ghost before = actions@;
            proof {
                assert(!views(before).contains(ActionView::RefillHand));
                if views(before).no_duplicates() {
                    crate::actions::lemma_push_new(views(before), ActionView::RefillHand);
                }
            }
            actions.push(Action::RefillHand);
            assert(views(actions@) =~= views(before).push(ActionView::RefillHand));
            assert(views(actions@).drop_last() =~= views(before));
            assert(seat_choices(self.n_players()) + seq![ActionView::RefillHand] =~= seat_choices(self.n_players()).push(ActionView::RefillHand));
        }
        actions
    }

    /// `true` when `action` is among the legal actions of this state.
    pub fn is_legal_action(&self, action: &Action) -> (r: bool)
        requires
            self.inv(),
        ensures
            r == self.is_legal(action@),
    {
        let actions = self.get_action_space();
        let mut i: usize = 0;
        while i < actions.len()
            invariant
                is_action_space(*self, actions@),
                i <= actions@.len(),
                forall|j: int| 0 <= j < i ==> actions@[j]@ != action@,
            decreases actions@.len() - i,
        {
            if crate::search::same_action(&actions[i], action) {
                assert(views(actions@)[i as int] == action@);
                assert(views(actions@).contains(action@));
                return true;
            }
            i += 1;
        }
        assert(!views(actions@).contains(action@));
        false
    }

    /// Applies `action` if it is legal; an action outside the action space
    /// is refused, and the state is left as it is either way.
    pub fn take_legal_action(&self, action: &Action) -> (r: Result<GameStatus, RegicideError>)
        requires
            self.inv(),
        ensures
            !self.is_legal(action@) <==> r == Err::<GameStatus, RegicideError>(RegicideError::IllegalAction),
            self.is_legal(action@) <==> r is Ok,
            r matches Ok(status) ==> is_outcome(*self, action@, status),
    {
        if self.is_legal_action(action) {
            Ok(self.take_action(action))
        } else {
            Err(RegicideError::IllegalAction)
        }
    }

    /// Passing the turn to any player, after a Jester.
    fn jester_actions(&self) -> (r: Vec<Action>)
        requires
            self.inv(),
        ensures
            forall|a: ActionView| #[trigger] views(r@).contains(a) <==> (a matches ActionView::ChangePlayer(id) && id.0 < self.n_players()),
            views(r@) == seat_choices(self.n_players()),
    {
        let mut r: Vec<Action> = Vec::new();
        let mut i: usize = 0;
        while i < self.players.len()
            invariant
                self.inv(),
                i <= self.n_players(),
                forall|a: ActionView| #[trigger] views(r@).contains(a) <==> (a matches ActionView::ChangePlayer(id) && id.0 < i),
                views(r@) == seat_choices(i as int),
            decreases self.n_players() - i,
        {
            let ghost before = r@;
            let id = self.players[i].id();
            assert(self.players@[i as int].id == PlayerId(i));
            r.push(Action::ChangePlayer(id));
            assert(views(r@) =~= views(before).push(ActionView::ChangePlayer(id)));
            assert(seat_choices(i + 1) =~= seat_choices(i as int).push(ActionView::ChangePlayer(id)));
            i += 1;
        }
        r
    }

    /// Single cards, Ace pairs, same-rank combos and yielding.
    fn attack_actions(&self, player: &Player) -> (r: Vec<Action>)
        ensures
            forall|a: ActionView| #[trigger] views(r@).contains(a) <==> is_attack_action(player.cards(), a),
            player.cards().no_duplicates() ==> views(r@).no_duplicates(),
    {
        let mut actions = play_actions(&player.hand);
        let animal = animal_actions(&player.hand);
        let combos = combo_actions(&player.hand);
        let ghost v1 = views(actions@);
        let ghost v2 = views(animal@);
        let ghost v3 = views(combos@);
        proof {
            assert forall|x: ActionView| v1.contains(x) implies !v2.contains(x) && !v3.contains(x) by {
                assert(views(actions@).contains(x));
                assert(x is Play);
                if views(animal@).contains(x) {
                    assert(x is AnimalCombo);
                }
                if views(combos@).contains(x) {
                    assert(x is Combo);
                }
            }
            assert forall|x: ActionView| v2.contains(x) implies !v3.contains(x) by {
                assert(views(animal@).contains(x));
                assert(x is AnimalCombo);
                if views(combos@).contains(x) {
                    assert(x is Combo);
                }
            }
            assert(!v1.contains(ActionView::Yield) && !v2.contains(ActionView::Yield) && !v3.contains(ActionView::Yield)) by {
                if views(actions@).contains(ActionView::Yield) {}
                if views(animal@).contains(ActionView::Yield) {}
                if views(combos@).contains(ActionView::Yield) {}
            }
        }
        append_actions(&mut actions, animal);
        append_actions(&mut actions, combos);
        let ghost before = actions@;
        proof {
            assert(views(before) == v1 + v2 + v3);
            if player.cards().no_duplicates() {
                lemma_concat_no_dup(v1, v2);
                assert forall|x: ActionView| (v1 + v2).contains(x) implies !v3.contains(x) by {
                    if v1.contains(x) {
                    } else {
                        assert(v2.contains(x));
                    }
                }
                lemma_concat_no_dup(v1 + v2, v3);
                crate::actions::lemma_push_new(views(before), ActionView::Yield);
            }
        }
        actions.push(Action::Yield);
        assert(views(actions@) =~= views(before).push(ActionView::Yield));
        actions
    }
}

/// Two lists without repeats and without a common action make one.
proof fn lemma_concat_no_dup(a: Seq<ActionView>, b: Seq<ActionView>)
    requires
        a.no_duplicates(),
        b.no_duplicates(),
        forall|x: ActionView| a.contains(x) ==> !b.contains(x),
    ensures
        (a + b).no_duplicates(),
{
    assert forall|i: int, j: int| 0 <= i < j < (a + b).len() implies (a + b)[i] != (a + b)[j] by {
        if i < a.len() && j >= a.len() {
            assert(a.contains(a[i]));
            assert(b[j - a.len()] == (a + b)[j]);
            assert(b.contains(b[j - a.len()]));
        } else if i >= a.len() {
            assert((a + b)[i] == b[i - a.len()]);
            assert((a + b)[j] == b[j - a.len()]);
        }
    }
}

/// Moves every action of `src` to the end of `dst`.
fn append_actions(dst: &mut Vec<Action>, src: Vec<Action>)
    ensures
        forall|a: ActionView| #[trigger] views(final(dst)@).contains(a) <==> (views(old(dst)@).contains(a) || views(src@).contains(a)),
        views(final(dst)@) == views(old(dst)@) + views(src@),
{
    let mut src = src;
    let ghost s0 = src@;
    dst.append(&mut src);
    assert(views(final(dst)@) =~= views(old(dst)@) + views(s0));
}


/// A lone player with refills left may refill the hand.
pub open spec fn refill_offered(s: State) -> bool {
    s.n_players() == 1 && s.hand_refills_left > 0
}

/// Passing the turn to each seat in order.
pub open spec fn seat_choices(n: int) -> Seq<ActionView> {
    Seq::new(n as nat, |i: int| ActionView::ChangePlayer(PlayerId(i as usize)))
}

/// `r` lists every legal action of `s`, and nothing else.
pub open spec fn is_action_space(s: State, r: Seq<Action>) -> bool {
    forall|a: ActionView| #[trigger] views(r).contains(a) <==> s.is_legal(a)
}

/// The cards an action plays against the enemy (none for a yield).
pub open spec fn played_cards(a: ActionView) -> Seq<Card> {
    match a {
        ActionView::Play(c) => seq![c],
        ActionView::AnimalCombo(c1, c2) => seq![c1, c2],
        ActionView::Combo(cs) => cs,
        _ => Seq::empty(),
    }
}

pub open spec fn has_suit(cs: Seq<Card>, s: CardSuit) -> bool {
    exists|t: int| 0 <= t < cs.len() && (#[trigger] cs[t]).suit == s
}

/// Whether the power of suit `s` takes effect when `cs` is played and the
/// castle deck is `castle`: the suit was played and the current enemy,
/// if any, is not immune to it.
pub open spec fn power_on(cs: Seq<Card>, s: CardSuit, castle: Seq<Enemy>) -> bool {
    &&& has_suit(cs, s)
    &&& (castle.len() == 0 || castle.last().spec_card().suit != s || castle.last().spec_jester_applied())
}

/// The number of cards in all zones.
pub proof fn lemma_zone_sizes(s: State)
    ensures
        enemy_cards(s.table.castle()).len() + s.table.tavern().len() + s.table.discard().len()
            + s.table.attack().len() + hands_cards(s.players@).len() == s.all_cards().len(),
        s.wf() ==> s.all_cards().len() <= 54,
{
    let j = jesters_for(s.n_players());
    let d = number_cards() + jesters(j) + royal_cards();
    assert(d.len() == 52 + j);
    assert(d.to_multiset().len() == d.len());
}

/// Replacing an enemy by one made from the same card keeps the castle's cards.
pub proof fn lemma_enemy_cards_update(c: Seq<Enemy>, i: int, e: Enemy)
    requires
        0 <= i < c.len(),
        e.spec_card() == c[i].spec_card(),
    ensures
        enemy_cards(c.update(i, e)) == enemy_cards(c),
{
    assert(enemy_cards(c.update(i, e)) =~= enemy_cards(c));
}

/// `true` when some card of `cards` has suit `s`.
fn cards_have_suit(cards: &Hand, s: CardSuit) -> (r: bool)
    ensures
        r == has_suit(hand_cards(*cards), s),
{
    let n = hand_len(cards);
    let mut i: usize = 0;
    while i < n
        invariant
            n == hand_cards(*cards).len(),
            i <= n,
            forall|t: int| 0 <= t < i ==> (#[trigger] hand_cards(*cards)[t]).suit != s,
        decreases n - i,
    {
        if crate::fixed::hand_get(cards, i).suit == s {
            return true;
        }
        i += 1;
    }
    false
}

/// `true` when `cards` holds a Jester.
fn cards_have_jester(cards: &Hand) -> (r: bool)
    ensures
        r == hand_cards(*cards).contains(jester()),
{
    let n = hand_len(cards);
    let mut i: usize = 0;
    while i < n
        invariant
            n == hand_cards(*cards).len(),
            i <= n,
            forall|t: int| 0 <= t < i ==> hand_cards(*cards)[t] != jester(),
        decreases n - i,
    {
        if crate::fixed::hand_get(cards, i).is_jester() {
            return true;
        }
        i += 1;
    }
    false
}

/// The attack value of the Spades in a pile.
pub open spec fn spades_attack(s: Seq<Card>) -> nat
    decreases s.len(),
{
    if s.len() == 0 {
        0
    } else {
        spades_attack(s.drop_last()) + if s.last().suit == CardSuit::Spades {
            crate::card::attack(s.last())
        } else {
            0
        }
    }
}

fn pile_spades_attack(p: &crate::fixed::CardVec) -> (r: u16)
    ensures
        r == spades_attack(pile_cards(*p)),
{
    let n = crate::fixed::pile_len(p);
    let mut sum: u16 = 0;
    let mut i: usize = 0;
    while i < n
        invariant
            n == pile_cards(*p).len(),
            n <= 54,
            i <= n,
            sum == spades_attack(pile_cards(*p).take(i as int)),
            sum <= 20 * i,
        decreases n - i,
    {
        let c = crate::fixed::pile_get(p, i);
        assert(pile_cards(*p).take(i + 1).drop_last() =~= pile_cards(*p).take(i as int));
        if c.suit == CardSuit::Spades {
            sum = sum + c.attack_value();
        }
        i += 1;
    }
    assert(pile_cards(*p).take(n as int) =~= pile_cards(*p));
    sum
}


/// Player `p` holds the cards of `p0`, and perhaps more after them.
pub open spec fn grows_from(p: Player, p0: Player) -> bool {
    &&& p.cards().len() >= p0.cards().len()
    &&& p.cards().take(p0.cards().len() as int) == p0.cards()
}

/// The fields a step of play leaves alone, besides the table and the hands.
pub open spec fn same_counters(a: State, b: State) -> bool {
    &&& a.has_turn == b.has_turn
    &&& a.times_yielded == b.times_yielded
    &&& a.max_hand_size == b.max_hand_size
    &&& a.has_ended == b.has_ended
    &&& a.level == b.level
    &&& a.hand_refills_left == b.hand_refills_left
}

impl State {
    /// A Jester was played: it shields retroactively against a Spades enemy
    /// (once per enemy), lifts the enemy's immunity, and the player whose turn
    /// it is next gets chosen.
    fn apply_jester_effect(&mut self)
        requires
            old(self).inv(),
        ensures
            final(self).inv(),
            old(self).wf() ==> final(self).wf(),
            same_counters(*final(self), *old(self)),
            final(self).rng_seed == old(self).rng_seed,
            final(self).action_type == ActionType::Jester,
            final(self).players == old(self).players,
            final(self).table.tavern() == old(self).table.tavern(),
            final(self).table.discard() == old(self).table.discard(),
            final(self).table.attack() == old(self).table.attack(),
            final(self).table.castle().len() == old(self).table.castle().len(),
            final(self).table.castle().len() > 0 ==> {
                let e = old(self).table.castle().last();
                let f = final(self).table.castle().last();
                &&& final(self).table.castle().drop_last() == old(self).table.castle().drop_last()
                &&& f.spec_card() == e.spec_card()
                &&& f.spec_health() == e.spec_health()
                &&& f.spec_jester_applied()
                &&& f.spec_attack() == if !e.spec_jester_applied() && e.spec_card().suit == CardSuit::Spades {
                    crate::enemy::reduced_attack(e.spec_attack(), spades_attack(old(self).table.attack()) as int)
                } else {
                    e.spec_attack()
                }
            },
    {
        let prior = pile_spades_attack(&self.table.attack_cards);
        match self.table.current_enemy() {
            Some(enemy) => {
                let mut enemy = enemy;
                if !enemy.jester_applied() && enemy.card().suit == CardSuit::Spades {
                    enemy.decrease_attack(prior);
                }
                enemy.apply_jester();
                let ghost c = self.table.castle();
                self.table.replace_current_enemy(enemy);
                proof {
                    lemma_enemy_cards_update(c, c.len() - 1, enemy);
                    assert(self.table.castle().drop_last() =~= c.drop_last());
                }
            },
            None => {},
        }
        self.action_type = ActionType::Jester;
    }

    /// The played cards leave the hand of the player whose turn it is, one
    /// copy each, and go on the attack pile.
    fn move_played_cards(&mut self, cards: &Hand)
        requires
            old(self).inv(),
        ensures
            final(self).inv(),
            old(self).wf() && holds(old(self).hand(), hand_cards(*cards))
                ==> final(self).wf() && final(self).table.attack() == old(self).table.attack()
                + hand_cards(*cards),
            final(self).hand() == remove_cards(old(self).hand(), hand_cards(*cards)),
            final(self).n_players() == old(self).n_players(),
            forall|i: int| 0 <= i < old(self).n_players() && i != old(self).has_turn.0 ==> #[trigger] final(self).players@[i] == old(self).players@[i],
            same_counters(*final(self), *old(self)),
            final(self).rng_seed == old(self).rng_seed,
            final(self).action_type == old(self).action_type,
            final(self).table.castle() == old(self).table.castle(),
            final(self).table.tavern() == old(self).table.tavern(),
            final(self).table.discard() == old(self).table.discard(),
    {
        let t = self.has_turn.0;
        let ghost ps = self.players@;
        let ghost h = self.hand();
        self.players[t].remove_from_hand(cards);
        let ghost mid = *self;
        proof {
            let cs = hand_cards(*cards);
            assert(self.players@ == ps.update(t as int, self.players@[t as int]));
            lemma_hands_cards_update(ps, t as int, self.players@[t as int]);
            if holds(h, cs) {
                crate::player::lemma_remove_held(h, cs);
            }
            lemma_zone_sizes(*old(self));
            lemma_zone_sizes(mid);
            if old(self).wf() && holds(h, cs) {
                let h2 = self.players@[t as int].cards();
                assert(h2 == mid.hand());
                assert(ps[t as int].cards() == h);
                let a = hands_cards(mid.players@);
                let b = hands_cards(ps);
                assert forall|v: Card| #[trigger] a.add(cs.to_multiset()).count(v) == b.count(v) by {
                    assert(a.add(h.to_multiset()).count(v) == b.add(h2.to_multiset()).count(v));
                    assert(h2.to_multiset().add(cs.to_multiset()).count(v) == h.to_multiset().count(v));
                }
                assert(a.add(cs.to_multiset()) =~= b);
                assert(mid.all_cards().add(cs.to_multiset()) =~= old(self).all_cards());
            }
        }
        let room = 54 - crate::fixed::pile_len(&self.table.attack_cards);
        if hand_len(cards) <= room {
            self.table.add_attack_cards(cards);
            proof {
                let cs = hand_cards(*cards);
                if old(self).wf() && holds(h, cs) {
                    vstd::seq_lib::lemma_multiset_commutative(mid.table.attack(), cs);
                    assert(self.all_cards() =~= mid.all_cards().add(cs.to_multiset()));
                }
            }
        }
    }

    /// Diamonds: starting with the player whose turn it is and going
    /// clockwise, players draw one card at a time until `amount` draws were
    /// made; a full hand is skipped, and an empty tavern deck gives nothing.
    fn draw_round_robin(&mut self, amount: u16)
        requires
            old(self).inv(),
        ensures
            final(self).inv(),
            old(self).wf() ==> final(self).wf(),
            same_counters(*final(self), *old(self)),
            final(self).rng_seed == old(self).rng_seed,
            final(self).action_type == old(self).action_type,
            final(self).n_players() == old(self).n_players(),
            final(self).table.castle() == old(self).table.castle(),
            final(self).table.discard() == old(self).table.discard(),
            final(self).table.attack() == old(self).table.attack(),
            old(self).table.tavern().len() - final(self).table.tavern().len() <= amount,
            final(self).table.tavern() == old(self).table.tavern().take(final(self).table.tavern().len() as int),
            forall|j: int| 0 <= j < old(self).n_players() ==> grows_from(#[trigger] final(self).players@[j], old(self).players@[j]),
            forall|j: int| 0 <= j < old(self).n_players() ==> #[trigger] final(self).players@[j].cards().len()
                == old(self).players@[j].cards().len() || final(self).players@[j].cards().len() <= old(self).max_hand_size,
            old(self).table.tavern().len() - final(self).table.tavern().len() == min3(
                amount as int,
                old(self).table.tavern().len() as int,
                free_slots(old(self).players@, old(self).max_hand_size as int),
            ),
    {
        let n = self.players.len();
        let ghost t0 = self.table.tavern();
        let ghost ps0 = self.players@;
        let turn = self.has_turn.0;
        proof {
            lemma_free_nonneg(ps0, self.max_hand_size as int);
        }
        let mut i: u16 = 0;
        while i < amount
            invariant
                self.inv(),
                n == self.n_players(),
                turn == self.has_turn.0,
                old(self).wf() ==> self.wf(),
                same_counters(*self, *old(self)),
                self.rng_seed == old(self).rng_seed,
                self.action_type == old(self).action_type,
                self.n_players() == old(self).n_players(),
                self.table.castle() == old(self).table.castle(),
                self.table.discard() == old(self).table.discard(),
                self.table.attack() == old(self).table.attack(),
                t0 == old(self).table.tavern(),
                ps0 == old(self).players@,
                t0.len() - self.table.tavern().len() <= i,
                i <= amount,
                self.table.tavern().len() <= t0.len(),
                self.table.tavern() == t0.take(self.table.tavern().len() as int),
                forall|j: int| 0 <= j < n ==> grows_from(#[trigger] self.players@[j], ps0[j]),
                forall|j: int| 0 <= j < n ==> #[trigger] self.players@[j].cards().len()
                    == ps0[j].cards().len() || self.players@[j].cards().len() <= self.max_hand_size,
                t0.len() - self.table.tavern().len() == min3(i as int, t0.len() as int, free_slots(ps0, self.max_hand_size as int)),
                free_slots(self.players@, self.max_hand_size as int) == free_slots(ps0, self.max_hand_size as int)
                    - (t0.len() - self.table.tavern().len()),
            decreases amount - i,
        {
            let ghost tb = self.table.tavern();
            let ghost pb = self.players@;
            let ghost fb = free_slots(pb, self.max_hand_size as int);
            let ghost mx = self.max_hand_size as int;
            proof {
                lemma_free_nonneg(pb, mx);
            }
            let mut offset: usize = 0;
            let mut done = false;
            while offset < n && !done
                invariant
                    self.inv(),
                    n == self.n_players(),
                    turn == self.has_turn.0,
                    old(self).wf() ==> self.wf(),
                    same_counters(*self, *old(self)),
                    self.rng_seed == old(self).rng_seed,
                    self.action_type == old(self).action_type,
                    self.n_players() == old(self).n_players(),
                    self.table.castle() == old(self).table.castle(),
                    self.table.discard() == old(self).table.discard(),
                    self.table.attack() == old(self).table.attack(),
                    offset <= n,
                    i < amount,
                    t0 == old(self).table.tavern(),
                    ps0 == old(self).players@,
                    t0.len() - self.table.tavern().len() <= i + if done { 1int } else { 0int },
                    self.table.tavern().len() <= t0.len(),
                    self.table.tavern() == t0.take(self.table.tavern().len() as int),
                    forall|j: int| 0 <= j < n ==> grows_from(#[trigger] self.players@[j], ps0[j]),
                    forall|j: int| 0 <= j < n ==> #[trigger] self.players@[j].cards().len()
                        == ps0[j].cards().len() || self.players@[j].cards().len() <= self.max_hand_size,
                    mx == self.max_hand_size as int,
                    fb == free_slots(pb, mx),
                    fb >= 0,
                    !done ==> self.table.tavern() == tb && self.players@ == pb,
                    !done ==> forall|o: int| 0 <= o < offset ==> #[trigger] pb[(turn + i + o) % (n as int)].cards().len() >= mx,
                    done ==> (tb.len() > 0 && fb > 0 && self.table.tavern().len() == tb.len() - 1
                        && free_slots(self.players@, mx) == fb - 1) || (tb.len() == 0 && self.table.tavern() == tb
                        && self.players@ == pb),
                decreases n - offset,
            {
                let index = (turn + i as usize + offset) % n;
                if hand_len(&self.players[index].hand) < self.max_hand_size as usize {
                    let ghost before = *self;
                    match self.table.draw_card() {
                        Some(c) => {
                            let ghost p = self.players@[index as int];
                            crate::fixed::hand_push(&mut self.players[index].hand, c);
                            proof {
                                let ps = before.players@;
                                assert(self.players@ == ps.update(index as int, self.players@[index as int]));
                                lemma_hands_cards_update(ps, index as int, self.players@[index as int]);
                                assert(self.players@[index as int].cards() == p.cards().push(c));
                                assert(self.players@[index as int].id == p.id);
                                lemma_free_slots_draw(ps, index as int, self.players@[index as int], mx);
                                lemma_free_nonneg(self.players@, mx);
                                assert(before.table.tavern() =~= self.table.tavern().push(c));
                                assert(self.table.tavern() =~= t0.take(self.table.tavern().len() as int));
                                assert forall|j: int| 0 <= j < n implies grows_from(#[trigger] self.players@[j], ps0[j]) by {
                                    if j == index {
                                        assert(grows_from(p, ps0[j]));
                                        assert(self.players@[j].cards().take(ps0[j].cards().len() as int)
                                            =~= p.cards().take(ps0[j].cards().len() as int));
                                    }
                                }
                                if before.wf() {
                                    assert(before.table.tavern() =~= self.table.tavern().push(c));
                                    let a = hands_cards(self.players@);
                                    let b = hands_cards(ps);
                                    assert forall|v: Card| #[trigger] a.count(v) == b.add(Multiset::singleton(c)).count(v) by {
                                        assert(a.add(p.cards().to_multiset()).count(v) == b.add(p.cards().push(c).to_multiset()).count(v));
                                    }
                                    assert(a =~= b.add(Multiset::singleton(c)));
                                    assert(self.all_cards() =~= before.all_cards());
                                }
                            }
                        },
                        None => {},
                    }
                    done = true;
                }
                offset += 1;
            }
            proof {
                if !done {
                    assert forall|j: int| 0 <= j < n implies #[trigger] pb[j].cards().len() >= mx by {
                        lemma_seat_reached(turn + i, n as int, j);
                        let o = choose|o: int| 0 <= o < n && #[trigger] seat_at(turn + i, n as int, o) == j;
                        assert(pb[(turn + i + o) % (n as int)].cards().len() >= mx);
                    }
                    if fb > 0 {
                        lemma_free_slots_room(pb, mx);
                    }
                }
            }
            i += 1;
        }
    }

    /// The powers of the played suits, for those the current enemy is not
    /// immune to; returns the damage dealt, doubled by Clubs.
    fn activate_suits(&mut self, cards: &Hand, attack_value: u16) -> (damage: u16)
        requires
            old(self).inv(),
            attack_value == sum_attack(hand_cards(*cards)),
            attack_value <= 80,
        ensures
            final(self).inv(),
            old(self).wf() ==> final(self).wf(),
            old(self).wf() && power_on(hand_cards(*cards), CardSuit::Hearts, old(self).table.castle())
                && !power_on(hand_cards(*cards), CardSuit::Diamonds, old(self).table.castle()) ==> {
                let k = if attack_value <= old(self).table.discard().len() {
                    attack_value as int
                } else {
                    old(self).table.discard().len() as int
                };
                &&& final(self).table.tavern().len() == old(self).table.tavern().len() + k
                &&& final(self).table.tavern().skip(k) == old(self).table.tavern()
                &&& final(self).table.discard().len() == old(self).table.discard().len() - k
                &&& final(self).players == old(self).players
            },
            !power_on(hand_cards(*cards), CardSuit::Hearts, old(self).table.castle())
                && power_on(hand_cards(*cards), CardSuit::Diamonds, old(self).table.castle()) ==> {
                &&& final(self).table.tavern() == old(self).table.tavern().take(final(self).table.tavern().len() as int)
                &&& old(self).table.tavern().len() - final(self).table.tavern().len() <= attack_value
                &&& old(self).table.tavern().len() - final(self).table.tavern().len() == min3(
                    attack_value as int,
                    old(self).table.tavern().len() as int,
                    free_slots(old(self).players@, old(self).max_hand_size as int),
                )
                &&& final(self).table.discard() == old(self).table.discard()
                &&& forall|j: int| 0 <= j < old(self).n_players() ==> grows_from(#[trigger] final(self).players@[j], old(self).players@[j])
            },
            damage == attack_value * if power_on(hand_cards(*cards), CardSuit::Clubs, old(self).table.castle()) {
                2int
            } else {
                1int
            },
            same_counters(*final(self), *old(self)),
            final(self).action_type == old(self).action_type,
            final(self).n_players() == old(self).n_players(),
            final(self).table.attack() == old(self).table.attack(),
            !power_on(hand_cards(*cards), CardSuit::Diamonds, old(self).table.castle()) ==> final(self).players == old(self).players,
            forall|j: int| 0 <= j < old(self).n_players() ==> grows_from(#[trigger] final(self).players@[j], old(self).players@[j]),
            !power_on(hand_cards(*cards), CardSuit::Hearts, old(self).table.castle()) && !power_on(
                hand_cards(*cards),
                CardSuit::Diamonds,
                old(self).table.castle(),
            ) ==> final(self).table.tavern() == old(self).table.tavern() && final(self).table.discard()
                == old(self).table.discard(),
            final(self).table.castle().len() == old(self).table.castle().len(),
            final(self).table.castle().len() > 0 ==> {
                let e = old(self).table.castle().last();
                let f = final(self).table.castle().last();
                &&& final(self).table.castle().drop_last() == old(self).table.castle().drop_last()
                &&& f.spec_card() == e.spec_card()
                &&& f.spec_health() == e.spec_health()
                &&& f.spec_jester_applied() == e.spec_jester_applied()
                &&& f.spec_attack() == if power_on(hand_cards(*cards), CardSuit::Spades, old(self).table.castle()) {
                    crate::enemy::reduced_attack(e.spec_attack(), attack_value as int)
                } else {
                    e.spec_attack()
                }
            },
    {
        let ghost cs = hand_cards(*cards);
        let ghost castle0 = self.table.castle();
        let (enemy_suit, jester_applied) = match self.table.current_enemy() {
            Some(enemy) => (enemy.card().suit, enemy.jester_applied()),
            None => (CardSuit::NoSuit, true),
        };
        let mut damage = attack_value;
        if cards_have_suit(cards, CardSuit::Spades) && (enemy_suit != CardSuit::Spades || jester_applied) {
            match self.table.current_enemy() {
                Some(enemy) => {
                    let mut enemy = enemy;
                    enemy.decrease_attack(attack_value);
                    let ghost c = self.table.castle();
                    self.table.replace_current_enemy(enemy);
                    proof {
                        lemma_enemy_cards_update(c, c.len() - 1, enemy);
                        assert(self.table.castle().drop_last() =~= c.drop_last());
                    }
                },
                None => {},
            }
        }
        let ghost castle1 = self.table.castle();
        if cards_have_suit(cards, CardSuit::Hearts) && (enemy_suit != CardSuit::Hearts || jester_applied) {
            let mut rng = self.get_rng();
            proof {
                lemma_zone_sizes(*self);
                lemma_zone_sizes(*old(self));
            }
            if crate::fixed::pile_len(&self.table.tavern_deck) + crate::fixed::pile_len(&self.table.discard_pile) <= 54 {
                let ghost before = *self;
                self.table.heal_from_discard(attack_value as usize, &mut rng);
                proof {
                    let t1 = self.table.tavern().to_multiset();
                    let d1 = self.table.discard().to_multiset();
                    let t0 = before.table.tavern().to_multiset();
                    let d0 = before.table.discard().to_multiset();
                    assert forall|v: Card| #[trigger] self.table.all_cards().count(v) == before.table.all_cards().count(v) by {
                        assert(t1.add(d1).count(v) == t0.add(d0).count(v));
                    }
                    assert(self.table.all_cards() =~= before.table.all_cards());
                    assert(self.all_cards() =~= before.all_cards());
                }
            }
        }
        if cards_have_suit(cards, CardSuit::Diamonds) && (enemy_suit != CardSuit::Diamonds || jester_applied) {
            self.draw_round_robin(attack_value);
        }
        if cards_have_suit(cards, CardSuit::Clubs) && (enemy_suit != CardSuit::Clubs || jester_applied) {
            damage = attack_value * 2;
        }
        damage
    }

    /// The player after the one whose turn it is.
    fn next_player(&mut self)
        requires
            old(self).inv(),
        ensures
            final(self).has_turn.0 == (old(self).has_turn.0 + 1) % old(self).n_players(),
            final(self).inv(),
            old(self).wf() ==> final(self).wf(),
            final(self).table == old(self).table,
            final(self).players == old(self).players,
            final(self).action_type == old(self).action_type,
            final(self).times_yielded == old(self).times_yielded,
            final(self).level == old(self).level,
            final(self).has_ended == old(self).has_ended,
    {
        self.has_turn = self.has_turn.next_id(self.players.len());
    }

    /// Deals `damage` to the current enemy and settles what follows: a
    /// defeat (the enemy's card goes on the tavern deck after an exact kill,
    /// on the discard pile otherwise), a win when no enemy is left, or the
    /// enemy's counter-attack.
    #[verifier::rlimit(60)]
    fn resolve_damage(self, damage: u16) -> (r: GameStatus)
        requires
            self.inv(),
        ensures
            r matches GameStatus::InProgress(s) ==> s.inv(),
            r matches GameStatus::InProgress(s) ==> s.times_yielded == self.times_yielded
                && s.n_players() == self.n_players() && s.has_ended == self.has_ended
                && s.level >= self.level,
            self.wf() ==> (r matches GameStatus::InProgress(s) ==> s.wf()),
            self.table.castle().len() == 0 ==> r == GameStatus::HasEnded(GameResult::Won),
            self.table.castle().len() > 0 ==> {
                let e = self.table.castle().last();
                let h = crate::enemy::damaged_health(e.spec_health(), damage as int);
                &&& (h <= 0 && self.table.castle().len() == 1 ==> r == GameStatus::HasEnded(GameResult::Won))
                &&& (h <= 0 && self.table.castle().len() > 1 ==> (r matches GameStatus::InProgress(s) && {
                    &&& s.level == self.level + 1
                    &&& s.table.castle() == self.table.castle().drop_last()
                    &&& s.action_type == self.action_type
                    &&& s.has_turn == self.has_turn
                    &&& (self.wf() && h == 0 ==> s.table.tavern() == self.table.tavern().push(e.spec_card())
                        && s.table.discard() == self.table.discard() + self.table.attack())
                    &&& (self.wf() && h < 0 ==> s.table.tavern() == self.table.tavern())
                    &&& (self.wf() && h < 0 ==> s.table.discard() == self.table.discard().push(e.spec_card()) + self.table.attack())
                    &&& (self.wf() ==> s.table.attack().len() == 0)
                }))
                &&& (h > 0 ==> (r matches GameStatus::InProgress(s) ==> {
                    &&& s.level == self.level
                    &&& s.table.castle().len() == self.table.castle().len()
                    &&& s.table.castle().last().spec_health() == h
                    &&& s.table.castle().last().spec_attack() == e.spec_attack()
                    &&& s.table.castle().last().spec_card() == e.spec_card()
                    &&& s.table.castle().last().spec_jester_applied() == e.spec_jester_applied()
                    &&& s.table.castle().drop_last() == self.table.castle().drop_last()
                    &&& s.players == self.players
                    &&& s.table.attack() == self.table.attack()
                    &&& s.table.tavern() == self.table.tavern()
                    &&& s.table.discard() == self.table.discard()
                }))
                &&& (h > 0 && self.action_type == ActionType::Jester ==> (r matches GameStatus::InProgress(s) && s.action_type == ActionType::Jester && s.has_turn == self.has_turn))
                &&& (h > 0 && self.action_type != ActionType::Jester && e.spec_attack() > sum_attack(self.hand()) ==> r == GameStatus::HasEnded(GameResult::Lost(self.level)))
                &&& (h > 0 && self.action_type != ActionType::Jester && 0 < e.spec_attack() <= sum_attack(self.hand()) ==> (r matches GameStatus::InProgress(s) && s.action_type == ActionType::Discard(e.spec_attack() as u8) && s.has_turn == self.has_turn))
                &&& (h > 0 && self.action_type != ActionType::Jester && e.spec_attack() == 0 ==> (r matches GameStatus::InProgress(s) && s.action_type == ActionType::PlayCards && s.has_turn.0 == (self.has_turn.0 + 1) % self.n_players()))
            },
    {
        let mut state = self;
        match state.table.current_enemy() {
            None => GameStatus::HasEnded(GameResult::Won),
            Some(enemy) => {
                let mut enemy = enemy;
                enemy.take_damage(damage);
                let card = *enemy.card();
                if enemy.health() <= 0 {
                    let ghost s0 = state;
                    state.table.next_enemy();
                    let ghost s1 = state;
                    proof {
                        let c = s0.table.castle();
                        assert(c =~= c.drop_last().push(c.last()));
                        assert(enemy_cards(c) =~= enemy_cards(c.drop_last()).push(card));
                        lemma_zone_sizes(s0);
                        if s0.wf() {
                            assert(s1.all_cards().insert(card) =~= s0.all_cards());
                            lemma_zone_sizes(s1);
                        }
                    }
                    if enemy.health() < 0 {
                        if crate::fixed::pile_len(&state.table.discard_pile) < 54 {
                            state.table.discard_card(card);
                        }
                    } else {
                        if crate::fixed::pile_len(&state.table.tavern_deck) < 54 {
                            state.table.add_to_top_of_tavern_deck(card);
                        }
                    }
                    let ghost s2 = state;
                    proof {
                        if s0.wf() {
                            assert(s2.all_cards() =~= s0.all_cards());
                            lemma_zone_sizes(s2);
                        }
                    }
                    if crate::fixed::pile_len(&state.table.discard_pile) + crate::fixed::pile_len(&state.table.attack_cards) <= 54 {
                        state.table.discard_attack_cards();
                        proof {
                            vstd::seq_lib::lemma_multiset_commutative(s2.table.discard(), s2.table.attack());
                            assert(state.all_cards() =~= s2.all_cards());
                        }
                    }
                    state.level = state.level + 1;
                    if crate::fixed::castle_len(&state.table.castle_deck) == 0 {
                        GameStatus::HasEnded(GameResult::Won)
                    } else {
                        GameStatus::InProgress(state)
                    }
                } else {
                    let ghost c = state.table.castle();
                    state.table.replace_current_enemy(enemy);
                    proof {
                        lemma_enemy_cards_update(c, c.len() - 1, enemy);
                        assert(state.all_cards() =~= self.all_cards());
                    }
                    let enemy_attack = enemy.attack_value();
                    let player_health = state.players[state.has_turn.0].total_hand_value();
                    if state.action_type == ActionType::Jester {
                        GameStatus::InProgress(state)
                    } else if enemy_attack as u16 > player_health {
                        GameStatus::HasEnded(GameResult::Lost(state.level))
                    } else if enemy_attack == 0 {
                        state.next_player();
                        state.action_type = ActionType::PlayCards;
                        GameStatus::InProgress(state)
                    } else {
                        state.action_type = ActionType::Discard(enemy_attack);
                        GameStatus::InProgress(state)
                    }
                }
            },
        }
    }

    /// The discarded cards leave the hand of the player whose turn it is,
    /// one copy each, and go on the discard pile.
    fn discard_from_hand(&mut self, cards: &Hand)
        requires
            old(self).inv(),
        ensures
            final(self).inv(),
            old(self).wf() && holds(old(self).hand(), hand_cards(*cards))
                ==> final(self).wf() && final(self).table.discard() == old(self).table.discard()
                + hand_cards(*cards),
            final(self).hand() == remove_cards(old(self).hand(), hand_cards(*cards)),
            forall|i: int| 0 <= i < old(self).n_players() && i != old(self).has_turn.0 ==> #[trigger] final(self).players@[i] == old(self).players@[i],
            same_counters(*final(self), *old(self)),
            final(self).action_type == old(self).action_type,
            final(self).n_players() == old(self).n_players(),
            final(self).table.castle() == old(self).table.castle(),
            final(self).table.tavern() == old(self).table.tavern(),
            final(self).table.attack() == old(self).table.attack(),
    {
        let t = self.has_turn.0;
        let ghost ps = self.players@;
        let ghost h = self.hand();
        self.players[t].remove_from_hand(cards);
        let ghost mid = *self;
        proof {
            let cs = hand_cards(*cards);
            assert(self.players@ == ps.update(t as int, self.players@[t as int]));
            lemma_hands_cards_update(ps, t as int, self.players@[t as int]);
            if holds(h, cs) {
                crate::player::lemma_remove_held(h, cs);
            }
            lemma_zone_sizes(*old(self));
            lemma_zone_sizes(mid);
            if old(self).wf() && holds(h, cs) {
                let h2 = self.players@[t as int].cards();
                let a = hands_cards(mid.players@);
                let b = hands_cards(ps);
                assert forall|v: Card| #[trigger] a.add(cs.to_multiset()).count(v) == b.count(v) by {
                    assert(a.add(h.to_multiset()).count(v) == b.add(h2.to_multiset()).count(v));
                    assert(h2.to_multiset().add(cs.to_multiset()).count(v) == h.to_multiset().count(v));
                }
                assert(a.add(cs.to_multiset()) =~= b);
                assert(mid.all_cards().add(cs.to_multiset()) =~= old(self).all_cards());
            }
        }
        let room = 54 - crate::fixed::pile_len(&self.table.discard_pile);
        if hand_len(cards) <= room {
            self.table.discard_cards(cards);
            proof {
                let cs = hand_cards(*cards);
                if old(self).wf() && holds(h, cs) {
                    vstd::seq_lib::lemma_multiset_commutative(mid.table.discard(), cs);
                    assert(self.all_cards() =~= mid.all_cards().add(cs.to_multiset()));
                }
            }
        }
    }

    /// The player whose turn it is discards their hand and draws a full one.
    fn refill_hand(&mut self)
        requires
            old(self).inv(),
        ensures
            final(self).inv(),
            old(self).wf() ==> final(self).wf(),
            same_counters(*final(self), *old(self)),
            final(self).action_type == old(self).action_type,
            final(self).n_players() == old(self).n_players(),
            final(self).table.castle() == old(self).table.castle(),
            final(self).table.attack() == old(self).table.attack(),
            forall|i: int| 0 <= i < old(self).n_players() && i != old(self).has_turn.0 ==> #[trigger] final(self).players@[i] == old(self).players@[i],
            old(self).wf() ==> {
                let k = final(self).hand().len() as int;
                let t = old(self).table.tavern();
                &&& final(self).table.tavern() == t.take(t.len() - k)
                &&& forall|i: int| 0 <= i < k ==> #[trigger] final(self).hand()[i] == t[t.len() - 1 - i]
            },
            old(self).wf() ==> {
                &&& final(self).table.discard() == old(self).table.discard() + old(self).hand()
                &&& final(self).hand().len() == if old(self).max_hand_size <= old(self).table.tavern().len() {
                    old(self).max_hand_size as int
                } else {
                    old(self).table.tavern().len() as int
                }
            },
    {
        let t = self.has_turn.0;
        let ghost s0 = *self;
        let old_hand = crate::fixed::hand_copy(&self.players[t].hand);
        proof {
            lemma_zone_sizes(s0);
            lemma_hand_in_hands(s0.players@, t as int);
        }
        if crate::fixed::pile_len(&self.table.discard_pile) + hand_len(&old_hand) <= 54 {
            self.table.discard_cards(&old_hand);
            self.players[t].hand = crate::fixed::hand_new();
            let ghost s1 = *self;
            proof {
                let ps = s0.players@;
                let e = s1.players@[t as int];
                assert(s1.players@ == ps.update(t as int, e));
                lemma_hands_cards_update(ps, t as int, e);
                assert(e.cards().to_multiset() =~= Multiset::empty());
                vstd::seq_lib::lemma_multiset_commutative(s0.table.discard(), s0.hand());
                assert(ps[t as int].cards() == s0.hand());
                let a = hands_cards(s1.players@);
                let b = hands_cards(ps);
                let hm = s0.hand().to_multiset();
                assert forall|v: Card| #[trigger] a.add(hm).count(v) == b.count(v) by {
                    assert(a.add(hm).count(v) == b.add(e.cards().to_multiset()).count(v));
                }
                assert(s1.table.discard().to_multiset() =~= s0.table.discard().to_multiset().add(hm));
                assert forall|v: Card| #[trigger] s1.all_cards().count(v) == s0.all_cards().count(v) by {
                    assert(a.add(hm).count(v) == b.count(v));
                    assert(s1.table.discard().to_multiset().count(v) == s0.table.discard().to_multiset().count(v) + hm.count(v));
                }
                if s0.wf() {
                    assert(s1.all_cards() =~= s0.all_cards());
                }
            }
            let hand = self.table.draw_cards(self.max_hand_size as usize);
            self.players[t].hand = hand;
            proof {
                let ps = s1.players@;
                let e = self.players@[t as int];
                assert(self.players@ == ps.update(t as int, e));
                lemma_hands_cards_update(ps, t as int, e);
                assert(ps[t as int].cards().to_multiset() =~= Multiset::empty());
                let a = hands_cards(self.players@);
                let b = hands_cards(ps);
                let hm = e.cards().to_multiset();
                assert forall|v: Card| #[trigger] a.count(v) == b.add(hm).count(v) by {
                    assert(a.add(ps[t as int].cards().to_multiset()).count(v) == b.add(hm).count(v));
                }
                let t1 = self.table.tavern().to_multiset();
                let t0 = s1.table.tavern().to_multiset();
                assert forall|v: Card| #[trigger] self.all_cards().count(v) == s1.all_cards().count(v) by {
                    assert(hm.add(t1).count(v) == t0.count(v));
                    assert(a.count(v) == b.add(hm).count(v));
                }
                if s0.wf() {
                    assert(self.all_cards() =~= s1.all_cards());
                }
            }
        }
    }

    /// Plays `cards` against the current enemy: the Jester's effect, the
    /// cards to the attack pile, the suit powers, then the damage.
    fn play_cards(self, cards: &Hand) -> (r: GameStatus)
        requires
            self.inv(),
            hand_cards(*cards).len() <= 4,
        ensures
            r matches GameStatus::InProgress(s) ==> s.inv(),
            self.wf() && holds(self.hand(), hand_cards(*cards))
                ==> (r matches GameStatus::InProgress(s) ==> s.wf()),
            play_outcome(self, hand_cards(*cards), r),
            r matches GameStatus::InProgress(s) ==> enemy_cards(s.table.castle()) == enemy_cards(self.table.castle())
                || enemy_cards(s.table.castle()) == enemy_cards(self.table.castle()).drop_last(),
            self.wf() && holds(self.hand(), hand_cards(*cards))
                && self.table.castle().len() > 0 && crate::enemy::damaged_health(
                self.table.castle().last().spec_health(),
                play_damage(hand_cards(*cards), self.table.castle()),
            ) > 0 ==> (r matches GameStatus::InProgress(s) ==> s.table.attack() == self.table.attack() + hand_cards(*cards)),
            r matches GameStatus::InProgress(s) ==> s.times_yielded == self.times_yielded
                && s.n_players() == self.n_players() && s.has_ended == self.has_ended
                && s.level >= self.level,
    {
        let mut state = self;
        let ghost cs = hand_cards(*cards);
        proof {
            crate::card::lemma_sum_attack_bound(cs);
        }
        let attack_value = crate::player::hand_attack_sum(cards);
        if cards_have_jester(cards) {
            state.apply_jester_effect();
        }
        let ghost castle1 = state.table.castle();
        assert(castle1.len() > 0 ==> castle1.last().spec_card() == self.table.castle().last().spec_card()
            && castle1.last().spec_health() == self.table.castle().last().spec_health()
            && castle1.last().spec_jester_applied() == (self.table.castle().last().spec_jester_applied() || cs.contains(jester())));
        assert(forall|suit: CardSuit| power_on(cs, suit, castle1) == #[trigger] power_active(cs, suit, self.table.castle()));
        state.move_played_cards(cards);
        let ghost state2 = state;
        let ghost castle2 = state.table.castle();
        let damage = state.activate_suits(cards, attack_value);
        let ghost castle3 = state.table.castle();
        let ghost state3 = state;
        proof {
            lemma_free_slots_with(state2.players@, self.players@, self.has_turn.0 as int, self.max_hand_size as int);
            let t = self.has_turn.0 as int;
            let w = remove_cards(self.hand(), cs);
            assert(grows_from(state3.players@[t], state2.players@[t]));
            lemma_sum_attack_prefix(state3.players@[t].cards(), w.len() as int);
            assert(sum_attack(w) <= sum_attack(state3.players@[t].cards()));
            let t = self.has_turn.0 as int;
            assert(state2.players@[t].cards() == remove_cards(self.hand(), cs));
            assert(grows_from(state3.players@[t], state2.players@[t]) ==> state3.players@[t].cards().take(
                remove_cards(self.hand(), cs).len() as int) == remove_cards(self.hand(), cs));
            crate::card::lemma_sum_attack_bound(cs);
            if castle3.len() > 0 {
                assert(castle3.last().spec_health() == self.table.castle().last().spec_health());
                assert(castle3.drop_last() == self.table.castle().drop_last());
                assert(damage == play_damage(cs, self.table.castle()));
            }
        }
        let r = state.resolve_damage(damage);
        proof {
            let c0 = self.table.castle();
            if c0.len() > 0 {
                assert(enemy_cards(c0.drop_last()) =~= enemy_cards(c0).drop_last());
            }
            if r is InProgress {
                let s = r->InProgress_0;
                if castle3.len() > 0 && s.table.castle().len() == castle3.len() {
                    assert(enemy_cards(s.table.castle()) =~= enemy_cards(c0)) by {
                        assert(s.table.castle().drop_last() == c0.drop_last());
                        assert forall|x: int| 0 <= x < c0.len() implies s.table.castle()[x].spec_card() == c0[x].spec_card() by {
                            if x < c0.len() - 1 {
                                assert(s.table.castle()[x] == s.table.castle().drop_last()[x]);
                                assert(c0[x] == c0.drop_last()[x]);
                            }
                        }
                    }
                }
            }
            if castle3.len() > 1 && self.wf() && holds(self.hand(), cs) {
                let d3 = state3.table.discard();
                let a3 = state3.table.attack();
                assert(a3 == self.table.attack() + cs);
                let c = castle3.last().spec_card();
                assert((d3.push(c) + a3).skip(d3.len() as int) =~= seq![c] + a3);
            }
        }
        r
    }

    /// The state after `action`, or the result that ends the game.
    fn apply_action(self, action: &Action) -> (r: GameStatus)
        requires
            self.inv(),
        ensures
            is_outcome(self, action@, r),
    {
        let mut state = self;
        match action {
            Action::Play(c) => {
                state.times_yielded = 0;
                let mut cards = crate::fixed::hand_new();
                crate::fixed::hand_push(&mut cards, *c);
                proof {
                    if self.is_legal(action@) {
                        lemma_played_held(self.hand(), action@);
                    }
                    assert(hand_cards(cards) =~= played_cards(action@));
                    assert(state.hand() == self.hand());
                    assert(state.all_cards() == self.all_cards());
                    assert(self.wf() ==> state.wf());
                }
                state.play_cards(&cards)
            },
            Action::AnimalCombo(c1, c2) => {
                state.times_yielded = 0;
                let mut cards = crate::fixed::hand_new();
                crate::fixed::hand_push(&mut cards, *c1);
                crate::fixed::hand_push(&mut cards, *c2);
                proof {
                    if self.is_legal(action@) {
                        lemma_played_held(self.hand(), action@);
                    }
                    assert(hand_cards(cards) =~= played_cards(action@));
                }
                state.play_cards(&cards)
            },
            Action::Combo(combo) => {
                state.times_yielded = 0;
                let cards = combo_to_hand(combo);
                proof {
                    if self.is_legal(action@) {
                        lemma_played_held(self.hand(), action@);
                    }
                }
                proof {
                }
                state.play_cards(&cards)
            },
            Action::Yield => {
                let count = state.times_yielded + 1;
                if count < state.players.len() {
                    state.times_yielded = count;
                    let cards = crate::fixed::hand_new();
                    proof {
                        assert(hand_cards(cards).to_multiset() =~= Multiset::empty());
                    }
                    state.play_cards(&cards)
                } else {
                    GameStatus::HasEnded(GameResult::Lost(state.level))
                }
            },
            Action::Discard(cards) => {
                proof {
                    if self.is_legal(action@) {
                        let h = self.hand();
                        let cs = hand_cards(*cards);
                        let idx = choose|idx: Seq<usize>| is_index_combo(idx, h.len(), idx.len()) && cs == pick(h, idx);
                        crate::actions::lemma_pick_held(h, idx);
                    }
                }
                state.discard_from_hand(cards);
                state.action_type = ActionType::PlayCards;
                state.next_player();
                GameStatus::InProgress(state)
            },
            Action::ChangePlayer(id) => {
                state.times_yielded = 0;
                if id.0 < state.players.len() {
                    state.has_turn = *id;
                    state.action_type = ActionType::PlayCards;
                }
                GameStatus::InProgress(state)
            },
            Action::RefillHand => {
                if state.hand_refills_left > 0 {
                    state.hand_refills_left = state.hand_refills_left - 1;
                    state.refill_hand();
                }
                GameStatus::InProgress(state)
            },
        }
    }
}

/// What playing `cs` does to the current enemy: with none left the game is
/// won; an enemy brought to zero health or below is defeated (which wins the
/// game when it was the last); otherwise it keeps its remaining health and
/// the game goes on, unless it ends in a loss at the current level.
pub open spec fn play_outcome(s0: State, cs: Seq<Card>, r: GameStatus) -> bool {
    let castle = s0.table.castle();
    let e = castle.last();
    let h = crate::enemy::damaged_health(e.spec_health(), play_damage(cs, castle));
    &&& (castle.len() == 0 ==> r == GameStatus::HasEnded(GameResult::Won))
    &&& (castle.len() > 0 && h <= 0 && castle.len() == 1 ==> r == GameStatus::HasEnded(GameResult::Won))
    &&& (castle.len() > 0 && h <= 0 && castle.len() > 1 ==> (r matches GameStatus::InProgress(s)
        && s.level == s0.level + 1 && s.table.castle() == castle.drop_last()))
    &&& (castle.len() > 0 && h > 0 ==> (r matches GameStatus::InProgress(s) ==> s.level == s0.level
        && s.table.castle().len() == castle.len() && s.table.castle().last().spec_health() == h))
    &&& (castle.len() > 0 && h > 0 ==> (r matches GameStatus::HasEnded(res) ==> res == GameResult::Lost(s0.level)))
    &&& (castle.len() > 0 && h > 0 && cs.contains(jester()) ==> (r matches GameStatus::InProgress(s)
        && s.action_type == ActionType::Jester && s.has_turn == s0.has_turn))
    &&& (castle.len() > 0 && h > 0 ==> (r matches GameStatus::InProgress(s) ==> {
        &&& s.table.castle().drop_last() == castle.drop_last()
        &&& s.table.castle().last().spec_card() == e.spec_card()
        &&& s.table.castle().last().spec_jester_applied() == (e.spec_jester_applied() || cs.contains(jester()))
        &&& s.table.castle().last().spec_attack() == shielded_attack(s0, cs)
    }))
    &&& (castle.len() > 0 && h > 0 && s0.wf() && holds(s0.hand(), cs)
        && power_active(cs, CardSuit::Hearts, castle) && !power_active(cs, CardSuit::Diamonds, castle)
        ==> (r matches GameStatus::InProgress(s) ==> {
            let k = if sum_attack(cs) <= s0.table.discard().len() {
                sum_attack(cs) as int
            } else {
                s0.table.discard().len() as int
            };
            &&& s.table.tavern().len() == s0.table.tavern().len() + k
            &&& s.table.tavern().skip(k) == s0.table.tavern()
            &&& s.table.discard().len() == s0.table.discard().len() - k
        }))
    &&& (castle.len() > 0 && h > 0 && !power_active(cs, CardSuit::Hearts, castle)
        && power_active(cs, CardSuit::Diamonds, castle) ==> (r matches GameStatus::InProgress(s) ==> {
            &&& s.table.tavern() == s0.table.tavern().take(s.table.tavern().len() as int)
            &&& s0.table.tavern().len() - s.table.tavern().len() <= sum_attack(cs)
            &&& s0.table.tavern().len() - s.table.tavern().len() == min3(
                sum_attack(cs) as int,
                s0.table.tavern().len() as int,
                free_slots_with(s0.players@, s0.has_turn.0 as int, remove_cards(s0.hand(), cs).len() as int, s0.max_hand_size as int),
            )
            &&& s.table.discard() == s0.table.discard()
            &&& forall|j: int| 0 <= j < s0.n_players() && j != s0.has_turn.0 ==> grows_from(#[trigger] s.players@[j], s0.players@[j])
            &&& s.players@[s0.has_turn.0 as int].cards().len() >= remove_cards(s0.hand(), cs).len()
            &&& s.players@[s0.has_turn.0 as int].cards().take(remove_cards(s0.hand(), cs).len() as int) == remove_cards(s0.hand(), cs)
        }))
    &&& (castle.len() > 0 && h > 0 && !cs.contains(jester()) && s0.action_type != ActionType::Jester
        ==> (r matches GameStatus::InProgress(s) ==> {
            let a = s.table.castle().last().spec_attack();
            &&& (a > 0 ==> s.action_type == ActionType::Discard(a as u8) && s.has_turn == s0.has_turn
                && a <= sum_attack(s.players@[s0.has_turn.0 as int].cards()))
            &&& (a == 0 ==> s.action_type == ActionType::PlayCards
                && s.has_turn.0 == (s0.has_turn.0 + 1) % s0.n_players())
        }))
    &&& (castle.len() > 1 && h <= 0 ==> (r matches GameStatus::InProgress(s) && s.has_turn == s0.has_turn
        && s.action_type == if cs.contains(jester()) { ActionType::Jester } else { s0.action_type }))
    &&& (castle.len() > 1 && h <= 0 && s0.wf() && holds(s0.hand(), cs) ==> (r matches GameStatus::InProgress(s)
        && s.table.attack().len() == 0
        && (h == 0 ==> s.table.tavern().len() > 0 && s.table.tavern().last() == e.spec_card())
        && (h < 0 ==> s.table.discard().len() >= s0.table.attack().len() + cs.len() + 1
            && s.table.discard().skip(s.table.discard().len() - (s0.table.attack().len() + cs.len() + 1))
            == seq![e.spec_card()] + (s0.table.attack() + cs))))
    &&& (castle.len() > 0 && h > 0 && !power_active(cs, CardSuit::Hearts, castle)
        && !power_active(cs, CardSuit::Diamonds, castle) ==> (r matches GameStatus::InProgress(s) ==> {
            &&& s.table.tavern() == s0.table.tavern()
            &&& s.table.discard() == s0.table.discard()
            &&& s.players@[s0.has_turn.0 as int].cards() == remove_cards(s0.hand(), cs)
            &&& forall|j: int| 0 <= j < s0.n_players() && j != s0.has_turn.0 ==> same_seat(#[trigger] s.players@[j], s0.players@[j])
        }))
    &&& (castle.len() > 0 && h > 0 && !cs.contains(jester()) && s0.action_type != ActionType::Jester
        && shielded_attack(s0, cs) <= sum_attack(remove_cards(s0.hand(), cs)) ==> r is InProgress)
    &&& (castle.len() > 0 && h > 0 && s0.action_type == ActionType::Jester ==> (r matches GameStatus::InProgress(s)
        && s.action_type == ActionType::Jester && s.has_turn == s0.has_turn))
    &&& (castle.len() > 1 && h <= 0 && s0.wf() && holds(s0.hand(), cs)
        && !power_active(cs, CardSuit::Hearts, castle) && !power_active(cs, CardSuit::Diamonds, castle)
        ==> (r matches GameStatus::InProgress(s) && s.table.attack().len() == 0
        && (h == 0 ==> s.table.tavern() == s0.table.tavern().push(e.spec_card())
            && s.table.discard() == s0.table.discard() + (s0.table.attack() + cs))
        && (h < 0 ==> s.table.tavern() == s0.table.tavern()
            && s.table.discard() == s0.table.discard().push(e.spec_card()) + (s0.table.attack() + cs))))
    &&& (castle.len() > 0 && h > 0 && !cs.contains(jester()) && s0.action_type != ActionType::Jester
        && !power_on(cs, CardSuit::Diamonds, castle) ==> counter_attack(s0, cs, r))
}

/// The enemy's counter-attack after a play that it survives, with no Jester
/// in play and no cards drawn: a hand worth less than the enemy's attack
/// (shielded by the Spades just played) loses the game; otherwise the
/// player discards that much, or the turn passes when the attack is zero.
pub open spec fn counter_attack(s0: State, cs: Seq<Card>, r: GameStatus) -> bool {
    let castle = s0.table.castle();
    let e = castle.last();
    let a = if power_on(cs, CardSuit::Spades, castle) {
        crate::enemy::reduced_attack(e.spec_attack(), sum_attack(cs) as int)
    } else {
        e.spec_attack()
    };
    let value = sum_attack(remove_cards(s0.hand(), cs));
    &&& (a > value ==> r == GameStatus::HasEnded(GameResult::Lost(s0.level)))
    &&& (0 < a <= value ==> (r matches GameStatus::InProgress(s) && s.action_type == ActionType::Discard(a as u8)
        && s.has_turn == s0.has_turn))
    &&& (a == 0 ==> (r matches GameStatus::InProgress(s) && s.action_type == ActionType::PlayCards
        && s.has_turn.0 == (s0.has_turn.0 + 1) % s0.n_players()))
}

/// An action that plays cards (none, for a yield that does not lose).
pub open spec fn is_play(s0: State, a: ActionView) -> bool {
    ||| a is Play
    ||| a is AnimalCombo
    ||| a is Combo
    ||| (a is Yield && s0.times_yielded + 1 < s0.n_players())
}

/// What an action does, for a state `s0` of valid shape: the shape is kept;
/// a legal action keeps every card of a well-formed game in play exactly
/// once; the last of a full round of yields loses; a Jester's choice passes
/// the turn; a discard leaves the hand and ends the turn; and a play deals
/// its damage.
pub open spec fn is_outcome(s0: State, a: ActionView, r: GameStatus) -> bool {
    &&& (r matches GameStatus::InProgress(s) ==> s.inv() && s.n_players() == s0.n_players()
        && s.has_ended == s0.has_ended && s.level >= s0.level)
    &&& (a is Yield && s0.times_yielded + 1 < s0.n_players() ==> (r matches GameStatus::InProgress(s)
        ==> s.times_yielded == s0.times_yielded + 1))
    &&& (r matches GameStatus::InProgress(s) ==> s.level <= s0.level + 1)
    &&& (r matches GameStatus::InProgress(s) ==> enemy_cards(s.table.castle()) == enemy_cards(s0.table.castle())
        || enemy_cards(s.table.castle()) == enemy_cards(s0.table.castle()).drop_last())
    &&& ((a is Play || a is AnimalCombo || a is Combo) ==> (r matches GameStatus::InProgress(s) ==> s.times_yielded == 0))
    &&& (a is ChangePlayer ==> (r matches GameStatus::InProgress(s) && s.times_yielded == 0))
    &&& (a is ChangePlayer && a->ChangePlayer_0.0 < s0.n_players() ==> (r matches GameStatus::InProgress(s)
        && same_zones(s.table, s0.table) && s.level == s0.level
        && s.players@.len() == s0.players@.len()
        && forall|i: int| 0 <= i < s0.n_players() ==> same_seat(#[trigger] s.players@[i], s0.players@[i])))
    &&& (a is Discard ==> (r matches GameStatus::InProgress(s)
        && s.times_yielded == s0.times_yielded && s.level == s0.level
        && s.table.castle() == s0.table.castle() && s.table.tavern() == s0.table.tavern()
        && s.table.attack() == s0.table.attack()
        && forall|i: int| 0 <= i < s0.n_players() && i != s0.has_turn.0 ==> same_seat(#[trigger] s.players@[i], s0.players@[i])))
    &&& (a is RefillHand ==> (r matches GameStatus::InProgress(s)
        && s.times_yielded == s0.times_yielded && s.level == s0.level && s.has_turn == s0.has_turn
        && s.action_type == s0.action_type
        && s.table.castle() == s0.table.castle() && s.table.attack() == s0.table.attack()
        && forall|i: int| 0 <= i < s0.n_players() && i != s0.has_turn.0 ==> same_seat(#[trigger] s.players@[i], s0.players@[i])))
    &&& (a is RefillHand && s0.wf() && s0.hand_refills_left > 0 ==> (r matches GameStatus::InProgress(s) && {
        let k = s.hand().len() as int;
        let t = s0.table.tavern();
        &&& s.table.tavern() == t.take(t.len() - k)
        &&& forall|i: int| 0 <= i < k ==> #[trigger] s.hand()[i] == t[t.len() - 1 - i]
    }))
    &&& (r matches GameStatus::HasEnded(res) ==> res == GameResult::Won || res == GameResult::Lost(s0.level))
    &&& (s0.wf() && s0.is_legal(a) ==> (r matches GameStatus::InProgress(s) ==> s.wf()))
    &&& (a is Yield && s0.times_yielded + 1 >= s0.n_players() ==> r == GameStatus::HasEnded(
        GameResult::Lost(s0.level),
    ))
    &&& (a is ChangePlayer && a->ChangePlayer_0.0 < s0.n_players() ==> (r matches GameStatus::InProgress(s)
        && s.has_turn == a->ChangePlayer_0 && s.action_type == ActionType::PlayCards && s.times_yielded == 0))
    &&& (a is Discard ==> (r matches GameStatus::InProgress(s)
        && s.action_type == ActionType::PlayCards
        && s.has_turn.0 == (s0.has_turn.0 + 1) % s0.n_players()
        && s.players@[s0.has_turn.0 as int].cards() == remove_cards(s0.hand(), a->Discard_0)))
    &&& (is_play(s0, a) ==> play_outcome(s0, played_cards(a), r))
    &&& (is_play(s0, a) && s0.wf() && s0.is_legal(a) && s0.table.castle().len() > 0
        && crate::enemy::damaged_health(s0.table.castle().last().spec_health(), play_damage(played_cards(a), s0.table.castle())) > 0
        ==> (r matches GameStatus::InProgress(s) ==> s.table.attack() == s0.table.attack() + played_cards(a)))
    &&& (a is Discard && s0.wf() && s0.is_legal(a) ==> (r matches GameStatus::InProgress(s)
        && s.table.discard() == s0.table.discard() + a->Discard_0))
    &&& (a is RefillHand && s0.wf() && s0.hand_refills_left > 0 ==> (r matches GameStatus::InProgress(s)
        && s.table.discard() == s0.table.discard() + s0.hand()
        && s.hand().len() == if s0.max_hand_size <= s0.table.tavern().len() {
            s0.max_hand_size as int
        } else {
            s0.table.tavern().len() as int
        }))
    &&& (a is RefillHand ==> (r matches GameStatus::InProgress(s) && s.hand_refills_left == if s0.hand_refills_left > 0 {
        s0.hand_refills_left - 1
    } else {
        0
    }))
}

/// The damage that `cs` deals to the current enemy of `castle`: its attack
/// value, doubled by Clubs when the enemy is not immune to them.
pub open spec fn play_damage(cs: Seq<Card>, castle: Seq<Enemy>) -> int {
    sum_attack(cs) * if clubs_doubled(cs, castle) {
        2int
    } else {
        1int
    }
}

/// Clubs were played, and the current enemy is not immune to them.
pub open spec fn clubs_doubled(cs: Seq<Card>, castle: Seq<Enemy>) -> bool {
    power_active(cs, CardSuit::Clubs, castle)
}

/// The power of suit `s` takes effect when `cs` is played: the suit was
/// played, and the current enemy is not of that suit, or a Jester lifted its
/// immunity (earlier, or with these very cards).
pub open spec fn power_active(cs: Seq<Card>, s: CardSuit, castle: Seq<Enemy>) -> bool {
    &&& has_suit(cs, s)
    &&& (castle.len() == 0 || castle.last().spec_card().suit != s
        || castle.last().spec_jester_applied() || cs.contains(jester()))
}

/// The enemy's attack after `cs` is played: a Jester first lets the Spades
/// already played against a Spades enemy shield (once per enemy), then the
/// Spades just played shield by their attack value.
pub open spec fn shielded_attack(s0: State, cs: Seq<Card>) -> nat {
    let e = s0.table.castle().last();
    let a1 = if cs.contains(jester()) && !e.spec_jester_applied() && e.spec_card().suit == CardSuit::Spades {
        crate::enemy::reduced_attack(e.spec_attack(), spades_attack(s0.table.attack()) as int)
    } else {
        e.spec_attack()
    };
    if power_active(cs, CardSuit::Spades, s0.table.castle()) {
        crate::enemy::reduced_attack(a1, sum_attack(cs) as int)
    } else {
        a1
    }
}

/// A legal play holds cards of the hand, one copy each.
pub proof fn lemma_played_held(h: Seq<Card>, a: ActionView)
    requires
        is_attack_action(h, a),
    ensures
        holds(h, played_cards(a)),
{
    broadcast use vstd::seq_lib::group_to_multiset_ensures;
    broadcast use vstd::multiset::group_multiset_axioms;

    match a {
        ActionView::Play(c) => {
            assert(played_cards(a) =~= Seq::<Card>::empty().push(c));
        },
        ActionView::AnimalCombo(c1, c2) => {
            assert(played_cards(a) =~= Seq::<Card>::empty().push(c1).push(c2));
            assert(c1 != c2);
        },
        ActionView::Combo(cs) => {
            let idx = choose|idx: Seq<usize>| is_index_combo(idx, h.len(), idx.len()) && cs == pick(h, idx);
            crate::actions::lemma_pick_held(h, idx);
        },
        _ => {
            assert(played_cards(a).to_multiset() =~= Multiset::empty());
        },
    }
}

/// The cards of a combo as a hand.
fn combo_to_hand(c: &crate::fixed::ComboCards) -> (r: Hand)
    ensures
        hand_cards(r) == crate::fixed::combo_cards(*c),
        hand_cards(r).len() <= 4,
{
    let n = crate::fixed::combo_len(c);
    let mut r = crate::fixed::hand_new();
    let mut i: usize = 0;
    while i < n
        invariant
            n == crate::fixed::combo_cards(*c).len(),
            n <= 4,
            i <= n,
            hand_cards(r) == crate::fixed::combo_cards(*c).take(i as int),
        decreases n - i,
    {
        let x = crate::fixed::combo_get(c, i);
        crate::fixed::hand_push(&mut r, x);
        assert(crate::fixed::combo_cards(*c).take(i + 1) =~= crate::fixed::combo_cards(*c).take(i as int).push(x));
        i += 1;
    }
    assert(crate::fixed::combo_cards(*c).take(n as int) =~= crate::fixed::combo_cards(*c));
    r
}


/// The same cards in the same places on two tables.
pub open spec fn same_zones(a: Table, b: Table) -> bool {
    &&& a.castle() == b.castle()
    &&& a.tavern() == b.tavern()
    &&& a.discard() == b.discard()
    &&& a.attack() == b.attack()
}

/// The same seat holding the same cards.
pub open spec fn same_seat(p: Player, q: Player) -> bool {
    p.id == q.id && p.cards() == q.cards()
}

/// `s1` is where `r` leaves `s0`: the new state while the game goes on, or
/// `s0` holding the result once it has ended.
pub open spec fn moved_to(s0: State, r: GameStatus, s1: State) -> bool {
    match r {
        GameStatus::InProgress(s) => s1 == s,
        GameStatus::HasEnded(res) => s1 == (State { has_ended: Some(res), ..s0 }),
    }
}

/// `s1` follows from playing `a` in `s0`, the result kept in the state.
pub open spec fn is_move(s0: State, a: ActionView, s1: State) -> bool {
    exists|r: GameStatus| #[trigger] is_outcome(s0, a, r) && moved_to(s0, r, s1)
}

/// `k` cards of `p` taken one by one from its top, after the top `a`: the
/// first is the card `a` places below the top.
pub open spec fn top_run(p: Seq<Card>, a: int, k: int) -> Seq<Card> {
    Seq::new(k as nat, |i: int| p[p.len() - a - 1 - i])
}

/// `r` holds the hidden cards of `s` (the discard pile, the tavern deck and
/// the other hands, shuffled together into the pile `p`, its top last) dealt
/// one card at a time from the top: the other seats in order get as
/// many cards as they held, then the tavern deck as many as it held (the
/// first card dealt at its bottom), and the rest stay as the discard pile.
pub open spec fn dealt_from(s: State, p: Seq<Card>, r: State) -> bool {
    let ps = s.players@;
    let t = s.has_turn.0 as int;
    let o = others_prefix(ps, t, ps.len() as int);
    let tv = s.table.tavern().len() as int;
    &&& p.len() == s.table.discard().len() + tv + o
    &&& p.to_multiset() == s.table.discard().to_multiset().add(s.table.tavern().to_multiset()).add(hidden_hands(ps, t))
    &&& forall|j: int| 0 <= j < ps.len() && j != t ==> #[trigger] r.players@[j].cards() == top_run(
        p,
        others_prefix(ps, t, j),
        ps[j].cards().len() as int,
    )
    &&& r.table.tavern() == top_run(p, o, tv)
    &&& r.table.discard() == p.take(p.len() - o - tv)
}

/// `r` is a determinization of `s`: the same game as seen by the player
/// whose turn it is (their hand, the enemies still to fight with the current
/// one on top, the attack pile, the counters), with every card still in play
/// exactly once, and each hidden zone and hand of the same size.
pub open spec fn is_determinization(s: State, r: State) -> bool {
    &&& r.inv()
    &&& (s.wf() ==> r.wf())
    &&& r.hand() == s.hand()
    &&& same_counters(r, s)
    &&& r.action_type == s.action_type
    &&& r.n_players() == s.n_players()
    &&& r.table.attack() == s.table.attack()
    &&& r.table.castle().len() == s.table.castle().len()
    &&& r.table.castle().to_multiset() == s.table.castle().to_multiset()
    &&& (s.table.castle().len() >= 2 ==> crate::table::tiers_below_top(r.table.castle()))
    &&& (crate::table::in_tier_order(enemy_cards(s.table.castle())) ==> crate::table::in_tier_order(
        enemy_cards(r.table.castle()),
    ))
    &&& (s.table.castle().len() > 0 ==> r.table.castle().last() == s.table.castle().last())
    &&& (s.wf() ==> {
        &&& r.table.tavern().len() == s.table.tavern().len()
        &&& r.table.discard().len() == s.table.discard().len()
        &&& forall|j: int| 0 <= j < s.n_players() ==> (#[trigger] r.players@[j]).cards().len()
            == s.players@[j].cards().len()
    })
}

/// Two states of the same game: the same cards in the same places, the same
/// seats and counters.
pub open spec fn same_game(a: State, b: State) -> bool {
    &&& a.table.castle() == b.table.castle()
    &&& a.table.tavern() == b.table.tavern()
    &&& a.table.discard() == b.table.discard()
    &&& a.table.attack() == b.table.attack()
    &&& a.players@.len() == b.players@.len()
    &&& forall|i: int| 0 <= i < a.players@.len() ==> (#[trigger] a.players@[i]).id == b.players@[i].id
        && a.players@[i].cards() == b.players@[i].cards()
    &&& a.has_turn == b.has_turn
    &&& a.times_yielded == b.times_yielded
    &&& a.max_hand_size == b.max_hand_size
    &&& a.action_type == b.action_type
    &&& a.has_ended == b.has_ended
    &&& a.level == b.level
    &&& a.rng_seed == b.rng_seed
    &&& a.hand_refills_left == b.hand_refills_left
}

proof fn lemma_same_hands(a: Seq<Player>, b: Seq<Player>)
    requires
        a.len() == b.len(),
        forall|i: int| 0 <= i < a.len() ==> (#[trigger] a[i]).cards() == b[i].cards(),
    ensures
        hands_cards(a) == hands_cards(b),
    decreases a.len(),
{
    if a.len() > 0 {
        lemma_same_hands(a.drop_last(), b.drop_last());
    }
}

proof fn lemma_same_game(a: State, b: State, act: ActionView, r: GameStatus)
    requires
        same_game(a, b),
    ensures
        a.inv() == b.inv(),
        a.wf() == b.wf(),
        a.inv() ==> a.hand() == b.hand(),
        a.inv() ==> a.is_legal(act) == b.is_legal(act),
        a.inv() && is_outcome(b, act, r) ==> is_outcome(a, act, r),
{
    lemma_same_hands(a.players@, b.players@);
    assert forall|t: int, lt: int, max: int| #[trigger] free_slots_with(a.players@, t, lt, max) == free_slots_with(b.players@, t, lt, max) by {
        lemma_free_slots_with_same(a.players@, b.players@, t, lt, max);
    }
    if 0 <= a.has_turn.0 < a.players@.len() {
        assert(a.players@[a.has_turn.0 as int].cards() == b.players@[a.has_turn.0 as int].cards());
    }
    assert(a.all_cards() == b.all_cards());
    if a.inv() != b.inv() {
        if a.inv() {
            assert forall|i: int| 0 <= i < b.n_players() implies (#[trigger] b.players@[i]).id == PlayerId(i as usize) by {
                assert(a.players@[i].id == PlayerId(i as usize));
            }
        } else {
            assert forall|i: int| 0 <= i < a.n_players() implies (#[trigger] a.players@[i]).id == PlayerId(i as usize) by {
                assert(b.players@[i].id == PlayerId(i as usize));
            }
        }
    }
}

impl State {
    /// A copy of this state.
    pub fn copy(&self) -> (r: State)
        ensures
            same_game(r, *self),
    {
        let table = Table {
            castle_deck: crate::fixed::castle_copy(&self.table.castle_deck),
            tavern_deck: crate::fixed::pile_copy(&self.table.tavern_deck),
            discard_pile: crate::fixed::pile_copy(&self.table.discard_pile),
            attack_cards: crate::fixed::pile_copy(&self.table.attack_cards),
        };
        let mut players: Vec<Player> = Vec::new();
        let mut i: usize = 0;
        while i < self.players.len()
            invariant
                i <= self.players@.len(),
                players@.len() == i,
                forall|j: int| 0 <= j < i ==> (#[trigger] players@[j]).id == self.players@[j].id
                    && players@[j].cards() == self.players@[j].cards(),
            decreases self.players@.len() - i,
        {
            let p = &self.players[i];
            players.push(Player { id: p.id, hand: crate::fixed::hand_copy(&p.hand) });
            i += 1;
        }
        State {
            table,
            players,
            has_turn: self.has_turn,
            times_yielded: self.times_yielded,
            max_hand_size: self.max_hand_size,
            action_type: self.action_type,
            has_ended: self.has_ended,
            level: self.level,
            rng_seed: self.rng_seed,
            hand_refills_left: self.hand_refills_left,
        }
    }

    /// The state after `action`, or the result that ends the game; this
    /// state is left as it is.
    pub fn take_action(&self, action: &Action) -> (r: GameStatus)
        requires
            self.inv(),
        ensures
            is_outcome(*self, action@, r),
    {
        let next_state = self.copy();
        proof {
            lemma_same_game(*self, next_state, action@, GameStatus::HasEnded(GameResult::Won));
        }
        let r = next_state.apply_action(action);
        proof {
            lemma_same_game(*self, next_state, action@, r);
        }
        r
    }

    /// Plays `action` in place; once the game is over, the state keeps its
    /// last position and records the result.
    pub fn make_move(&mut self, action: &Action)
        requires
            old(self).inv(),
        ensures
            final(self).inv(),
            is_move(*old(self), action@, *final(self)),
    {
        let r = self.take_action(action);
        let ghost s0 = *self;
        match r {
            GameStatus::InProgress(state) => {
                *self = state;
            },
            GameStatus::HasEnded(result) => {
                self.has_ended = Some(result);
            },
        }
        assert(is_outcome(s0, action@, r) && moved_to(s0, r, *self));
    }

    /// Gives player `player` the cards of `hand`.
    pub fn set_hand(&mut self, player: usize, hand: Hand)
        requires
            old(self).inv(),
            player < old(self).n_players(),
        ensures
            final(self).inv(),
            final(self).players@ == old(self).players@.update(
                player as int,
                Player { id: old(self).players@[player as int].id, hand },
            ),
            final(self).table == old(self).table,
            final(self).has_turn == old(self).has_turn,
            final(self).action_type == old(self).action_type,
    {
        self.players[player].hand = hand;
    }

    /// Puts `enemy` in place of the current enemy, if there is one.
    pub fn replace_current_enemy(&mut self, enemy: Enemy)
        requires
            old(self).inv(),
        ensures
            final(self).inv(),
            old(self).table.castle().len() > 0 ==> final(self).table.castle() == old(self).table.castle().update(
                old(self).table.castle().len() - 1,
                enemy,
            ),
            final(self).players == old(self).players,
    {
        if crate::fixed::castle_len(&self.table.castle_deck) > 0 {
            self.table.replace_current_enemy(enemy);
        }
    }
}


impl State {
    /// A determinization: the same game seen by the player whose turn it
    /// is, with what they cannot see dealt anew. The other players' hands
    /// and the tavern deck go onto the discard pile, which is shuffled and
    /// dealt back out in the same amounts, and the enemies below the current
    /// one are reshuffled within their ranks.
    pub fn random_permutation(&self, rng: &mut StdRng) -> (r: State)
        requires
            self.inv(),
        ensures
            is_determinization(*self, r),
            self.wf() ==> exists|p: Seq<Card>| #[trigger] dealt_from(*self, p, r),
    {
        let mut s = self.copy();
        proof {
            lemma_same_game(*self, s, ActionView::Yield, GameStatus::HasEnded(GameResult::Won));
        }
        let n = s.players.len();
        let turn = s.has_turn.0;
        let ghost ps0 = s.players@;
        let ghost d0 = s.table.discard().len() as int;
        let ghost t0 = s.table.tavern().len() as int;
        let ghost wf = self.wf();
        proof {
            lemma_zone_sizes(s);
            lemma_others_prefix(ps0, turn as int, n as int);
            assert(ps0.take(n as int) =~= ps0);
            assert(wf ==> d0 + t0 + others_prefix(ps0, turn as int, n as int) <= 54);
        }
        let mut sizes: Vec<usize> = Vec::new();
        let mut i: usize = 0;
        while i < n
            invariant
                s.inv(),
                self.wf() ==> s.wf(),
                wf == self.wf(),
                n == s.n_players(),
                n == ps0.len(),
                turn == s.has_turn.0,
                i <= n,
                sizes@.len() == i,
                forall|j: int| 0 <= j < i ==> sizes@[j] == ps0[j].cards().len() && sizes@[j] <= 8,
                forall|j: int| i <= j < n ==> #[trigger] s.players@[j] == ps0[j],
                wf ==> forall|j: int| 0 <= j < i && j != turn ==> (#[trigger] s.players@[j]).cards().len() == 0,
                wf ==> s.table.discard().len() == d0 + others_prefix(ps0, turn as int, i as int),
                wf ==> d0 + t0 + others_prefix(ps0, turn as int, n as int) <= 54,
                s.table.tavern().len() == t0,
                s.hand() == self.hand(),
                same_counters(s, *self),
                s.action_type == self.action_type,
                s.table.attack() == self.table.attack(),
                s.table.castle() == self.table.castle(),
            decreases n - i,
        {
            sizes.push(hand_len(&s.players[i].hand));
            proof {
                assert(others_prefix(ps0, turn as int, i + 1) == others_prefix(ps0, turn as int, i as int)
                    + if i == turn { 0 } else { ps0[i as int].cards().len() as int });
                lemma_others_monotone(ps0, turn as int, i as int + 1, n as int);
            }
            if i != turn {
                s.hand_to_discard(i);
            }
            i += 1;
        }
        let tavern_size = crate::fixed::pile_len(&s.table.tavern_deck);
        s.tavern_to_discard();
        let ghost s1 = s;
        crate::random::shuffle_pile(&mut s.table.discard_pile, rng);
        proof {
            assert(s.table.all_cards() =~= s1.table.all_cards());
        }
        let ghost pile = s.table.discard();
        let ghost o = others_prefix(ps0, turn as int, n as int);
        proof {
            if wf {
                let t = turn as int;
                lemma_hidden_hands(self.players@, t);
                lemma_hidden_hands(s1.players@, t);
                lemma_hidden_hands_empty(s1.players@, t);
                assert(s1.players@[t].cards() == self.hand());
                let h = self.hand().to_multiset();
                let hid = hidden_hands(self.players@, t);
                assert(s1.all_cards() == self.all_cards());
                assert forall|v: Card| #[trigger] pile.to_multiset().count(v) == self.table.discard().to_multiset().add(
                    self.table.tavern().to_multiset()).add(hid).count(v) by {
                    assert(s1.all_cards().count(v) == self.all_cards().count(v));
                    assert(s1.table.tavern().to_multiset().count(v) == 0);
                }
                assert(pile.to_multiset() =~= self.table.discard().to_multiset().add(self.table.tavern().to_multiset()).add(hid));
            }
        }
        let mut i: usize = 0;
        while i < n
            invariant
                s.inv(),
                self.wf() ==> s.wf(),
                wf == self.wf(),
                n == s.n_players(),
                n == ps0.len(),
                turn == s.has_turn.0,
                i <= n,
                sizes@.len() == n,
                d0 >= 0,
                t0 >= 0,
                forall|j: int| 0 <= j < n ==> sizes@[j] == ps0[j].cards().len() && sizes@[j] <= 8,
                wf ==> forall|j: int| 0 <= j < i && j != turn ==> (#[trigger] s.players@[j]).cards().len() == ps0[j].cards().len(),
                wf ==> forall|j: int| i <= j < n && j != turn ==> (#[trigger] s.players@[j]).cards().len() == 0,
                wf ==> s.table.discard().len() == d0 + t0 + others_prefix(ps0, turn as int, n as int)
                    - others_prefix(ps0, turn as int, i as int),
                wf ==> s.table.tavern().len() == 0,
                wf ==> pile.len() == d0 + t0 + o,
                o == others_prefix(ps0, turn as int, n as int),
                wf ==> s.table.discard() == pile.take(pile.len() - others_prefix(ps0, turn as int, i as int)),
                wf ==> forall|j: int| 0 <= j < i && j != turn ==> (#[trigger] s.players@[j]).cards() == top_run(pile,
                    others_prefix(ps0, turn as int, j), ps0[j].cards().len() as int),
                tavern_size == t0,
                s.hand() == self.hand(),
                same_counters(s, *self),
                s.action_type == self.action_type,
                s.table.attack() == self.table.attack(),
                s.table.castle() == self.table.castle(),
            decreases n - i,
        {
            proof {
                assert(others_prefix(ps0, turn as int, i + 1) == others_prefix(ps0, turn as int, i as int)
                    + if i == turn { 0 } else { ps0[i as int].cards().len() as int });
                lemma_others_monotone(ps0, turn as int, i as int + 1, n as int);
            }
            let ghost before = s;
            if i != turn {
                proof {
                    if wf {
                        assert(before.players@[i as int].cards().len() == 0);
                        assert(sizes@[i as int] <= before.table.discard().len());
                    }
                }
                s.deal_from_discard(i, sizes[i]);
                proof {
                    if wf {
                        let a = others_prefix(ps0, turn as int, i as int);
                        let k = ps0[i as int].cards().len() as int;
                        assert(before.players@[i as int].cards().len() == 0);
                        assert(before.table.discard() == pile.take(pile.len() - a));
                        let bd = before.table.discard();
                        lemma_others_monotone(ps0, turn as int, 0, i as int);
                        assert(sizes@[i as int] == k);
                        assert(k <= bd.len());
                        assert(others_prefix(ps0, turn as int, i + 1) == a + k);
                        assert(a + k <= o);
                        assert(bd.len() == pile.len() - a);
                        assert(s.players@[i as int].cards() == before.players@[i as int].cards() + top_run(bd, 0, k));
                        assert(before.players@[i as int].cards() + top_run(bd, 0, k) =~= top_run(bd, 0, k));
                        assert forall|x: int| 0 <= x < k implies #[trigger] top_run(bd, 0, k)[x] == top_run(pile, a, k)[x] by {
                            assert(bd[bd.len() - 1 - x] == pile[pile.len() - a - 1 - x]);
                        }
                        assert(top_run(bd, 0, k) =~= top_run(pile, a, k));
                        assert(s.table.discard() == bd.take(bd.len() - k));
                        assert(bd.take(bd.len() - k) =~= pile.take(pile.len() - (a + k)));
                    }
                }
            }
            i += 1;
        }
        proof {
            lemma_others_monotone(ps0, turn as int, 0, n as int);
        }
        let ghost before_tavern = s;
        s.discard_to_tavern(tavern_size);
        proof {
            if wf {
                assert(before_tavern.table.tavern().len() == 0);
                assert(s.table.tavern() =~= top_run(pile, o, t0));
                assert(s.table.discard() =~= pile.take(pile.len() - o - t0));
            }
        }
        proof {
            lemma_others_prefix_same(self.players@, ps0, turn as int, n as int);
            assert forall|j: int| 0 <= j <= n implies others_prefix(self.players@, turn as int, j) == others_prefix(ps0, turn as int, j) by {
                lemma_others_prefix_same(self.players@, ps0, turn as int, j);
            }
        }
        let ghost s2 = s;
        s.table.permute_castle(rng);
        proof {
            if crate::table::in_tier_order(enemy_cards(self.table.castle())) {
                crate::table::lemma_tier_order_kept(self.table.castle(), s.table.castle());
            }
            if wf {
                assert(dealt_from(*self, pile, s));
            }
            if s2.wf() {
                assert(s.table.all_cards() =~= s2.table.all_cards());
                assert(s.all_cards() == s2.all_cards());
            }
            if wf {
                assert forall|j: int| 0 <= j < self.n_players() implies (#[trigger] s.players@[j]).cards().len()
                    == self.players@[j].cards().len() by {
                    if j == turn {
                        assert(s.players@[j].cards() == s.hand());
                    }
                }
            }
        }
        s
    }

    /// Moves the hand of player `i` onto the discard pile, as far as it has room.
    fn hand_to_discard(&mut self, i: usize)
        requires
            old(self).inv(),
            i < old(self).n_players(),
            i != old(self).has_turn.0,
        ensures
            final(self).inv(),
            forall|j: int| 0 <= j < old(self).n_players() && j != i ==> #[trigger] final(self).players@[j] == old(self).players@[j],
            final(self).table.tavern() == old(self).table.tavern(),
            old(self).table.discard().len() + old(self).players@[i as int].cards().len() <= 54 ==> {
                &&& final(self).players@[i as int].cards().len() == 0
                &&& final(self).table.discard().len() == old(self).table.discard().len() + old(self).players@[i as int].cards().len()
            },
            final(self).all_cards() == old(self).all_cards(),
            final(self).n_players() == old(self).n_players(),
            final(self).hand() == old(self).hand(),
            same_counters(*final(self), *old(self)),
            final(self).action_type == old(self).action_type,
            final(self).table.attack() == old(self).table.attack(),
            final(self).table.castle() == old(self).table.castle(),
    {
        let k = hand_len(&self.players[i].hand);
        let ghost d0 = self.table.discard().len();
        let ghost fits = d0 + k <= 54;
        let mut j: usize = 0;
        while j < k
            invariant
                self.inv(),
                i < self.n_players(),
                i != self.has_turn.0,
                j <= k,
                k == old(self).players@[i as int].cards().len(),
                d0 == old(self).table.discard().len(),
                fits == (d0 + k <= 54),
                fits ==> self.players@[i as int].cards().len() == k - j && self.table.discard().len() == d0 + j,
                forall|x: int| 0 <= x < old(self).n_players() && x != i ==> #[trigger] self.players@[x] == old(self).players@[x],
                self.table.tavern() == old(self).table.tavern(),
                self.all_cards() == old(self).all_cards(),
                self.n_players() == old(self).n_players(),
                self.hand() == old(self).hand(),
                same_counters(*self, *old(self)),
                self.action_type == old(self).action_type,
                self.table.attack() == old(self).table.attack(),
                self.table.castle() == old(self).table.castle(),
            decreases k - j,
        {
            let len = hand_len(&self.players[i].hand);
            if len > 0 && crate::fixed::pile_len(&self.table.discard_pile) < 54 {
                let ghost before = *self;
                let c = crate::fixed::hand_remove(&mut self.players[i].hand, len - 1);
                let ghost mid = *self;
                self.table.discard_card(c);
                proof {
                    let ps = before.players@;
                    let p = ps[i as int];
                    let q = self.players@[i as int];
                    assert(self.players@ == ps.update(i as int, q));
                    lemma_hands_cards_update(ps, i as int, q);
                    assert(p.cards() =~= q.cards().push(c));
                    let a = hands_cards(self.players@);
                    let b = hands_cards(ps);
                    assert forall|v: Card| #[trigger] a.insert(c).count(v) == b.count(v) by {
                        assert(a.add(p.cards().to_multiset()).count(v) == b.add(q.cards().to_multiset()).count(v));
                    }
                    assert(a.insert(c) =~= b);
                    assert(self.all_cards() =~= before.all_cards());
                }
            }
            j += 1;
        }
    }

    /// Moves the tavern deck onto the discard pile, as far as it has room.
    fn tavern_to_discard(&mut self)
        requires
            old(self).inv(),
        ensures
            final(self).inv(),
            old(self).table.discard().len() + old(self).table.tavern().len() <= 54 ==> {
                &&& final(self).table.tavern().len() == 0
                &&& final(self).table.discard().len() == old(self).table.discard().len() + old(self).table.tavern().len()
            },
            final(self).all_cards() == old(self).all_cards(),
            final(self).players == old(self).players,
            same_counters(*final(self), *old(self)),
            final(self).action_type == old(self).action_type,
            final(self).table.attack() == old(self).table.attack(),
            final(self).table.castle() == old(self).table.castle(),
    {
        let k = crate::fixed::pile_len(&self.table.tavern_deck);
        let ghost d0 = self.table.discard().len();
        let ghost fits = d0 + k <= 54;
        let mut j: usize = 0;
        while j < k
            invariant
                self.inv(),
                j <= k,
                k == old(self).table.tavern().len(),
                d0 == old(self).table.discard().len(),
                fits == (d0 + k <= 54),
                fits ==> self.table.tavern().len() == k - j && self.table.discard().len() == d0 + j,
                self.all_cards() == old(self).all_cards(),
                self.players == old(self).players,
                same_counters(*self, *old(self)),
                self.action_type == old(self).action_type,
                self.table.attack() == old(self).table.attack(),
                self.table.castle() == old(self).table.castle(),
            decreases k - j,
        {
            if crate::fixed::pile_len(&self.table.discard_pile) < 54 {
                let ghost before = *self;
                match self.table.draw_card() {
                    Some(c) => {
                        self.table.discard_card(c);
                        proof {
                            assert(before.table.tavern() =~= self.table.tavern().push(c));
                            assert(self.all_cards() =~= before.all_cards());
                        }
                    },
                    None => {},
                }
            }
            j += 1;
        }
    }

    /// Player `i` draws up to `k` cards from the top of the discard pile, as
    /// far as the hand has room.
    fn deal_from_discard(&mut self, i: usize, k: usize)
        requires
            old(self).inv(),
            i < old(self).n_players(),
            i != old(self).has_turn.0,
        ensures
            final(self).inv(),
            forall|j: int| 0 <= j < old(self).n_players() && j != i ==> #[trigger] final(self).players@[j] == old(self).players@[j],
            final(self).table.tavern() == old(self).table.tavern(),
            old(self).players@[i as int].cards().len() + k <= 8 && k <= old(self).table.discard().len() ==> {
                &&& final(self).players@[i as int].cards() == old(self).players@[i as int].cards() + top_run(old(self).table.discard(), 0, k as int)
                &&& final(self).table.discard() == old(self).table.discard().take(old(self).table.discard().len() - k)
            },
            final(self).all_cards() == old(self).all_cards(),
            final(self).n_players() == old(self).n_players(),
            final(self).hand() == old(self).hand(),
            same_counters(*final(self), *old(self)),
            final(self).action_type == old(self).action_type,
            final(self).table.attack() == old(self).table.attack(),
            final(self).table.castle() == old(self).table.castle(),
    {
        let ghost h0 = old(self).players@[i as int].cards().len();
        let ghost d0 = old(self).table.discard().len();
        let ghost fits = h0 + k <= 8 && k <= d0;
        let mut j: usize = 0;
        while j < k
            invariant
                self.inv(),
                i < self.n_players(),
                i != self.has_turn.0,
                j <= k,
                h0 == old(self).players@[i as int].cards().len(),
                d0 == old(self).table.discard().len(),
                fits == (h0 + k <= 8 && k <= d0),
                fits ==> self.players@[i as int].cards() == old(self).players@[i as int].cards() + top_run(old(self).table.discard(), 0, j as int)
                    && self.table.discard() == old(self).table.discard().take(d0 - j),
                forall|x: int| 0 <= x < old(self).n_players() && x != i ==> #[trigger] self.players@[x] == old(self).players@[x],
                self.table.tavern() == old(self).table.tavern(),
                self.all_cards() == old(self).all_cards(),
                self.n_players() == old(self).n_players(),
                self.hand() == old(self).hand(),
                same_counters(*self, *old(self)),
                self.action_type == old(self).action_type,
                self.table.attack() == old(self).table.attack(),
                self.table.castle() == old(self).table.castle(),
            decreases k - j,
        {
            if hand_len(&self.players[i].hand) < 8 {
                let ghost before = *self;
                match crate::fixed::pile_pop(&mut self.table.discard_pile) {
                    Some(c) => {
                        crate::fixed::hand_push(&mut self.players[i].hand, c);
                        proof {
                            let ps = before.players@;
                            let p = ps[i as int];
                            let q = self.players@[i as int];
                            assert(self.players@ == ps.update(i as int, q));
                            lemma_hands_cards_update(ps, i as int, q);
                            assert(q.cards() == p.cards().push(c));
                            let a = hands_cards(self.players@);
                            let b = hands_cards(ps);
                            assert forall|v: Card| #[trigger] a.count(v) == b.insert(c).count(v) by {
                                assert(a.add(p.cards().to_multiset()).count(v) == b.add(q.cards().to_multiset()).count(v));
                            }
                            assert(a =~= b.insert(c));
                            assert(before.table.discard() =~= self.table.discard().push(c));
                            assert(self.all_cards() =~= before.all_cards());
                            if fits {
                                let dd = old(self).table.discard();
                                assert(c == dd[d0 - 1 - j]);
                                assert(top_run(dd, 0, j + 1) =~= top_run(dd, 0, j as int).push(c));
                                assert(self.table.discard() =~= dd.take(d0 - j - 1));
                            }
                        }
                    },
                    None => {},
                }
            }
            j += 1;
        }
    }

    /// Moves up to `k` cards from the top of the discard pile to the tavern
    /// deck, as far as it has room.
    fn discard_to_tavern(&mut self, k: usize)
        requires
            old(self).inv(),
        ensures
            final(self).inv(),
            old(self).table.tavern().len() + k <= 54 && k <= old(self).table.discard().len() ==> {
                &&& final(self).table.tavern() == old(self).table.tavern() + top_run(old(self).table.discard(), 0, k as int)
                &&& final(self).table.discard() == old(self).table.discard().take(old(self).table.discard().len() - k)
            },
            final(self).all_cards() == old(self).all_cards(),
            final(self).players == old(self).players,
            same_counters(*final(self), *old(self)),
            final(self).action_type == old(self).action_type,
            final(self).table.attack() == old(self).table.attack(),
            final(self).table.castle() == old(self).table.castle(),
    {
        let ghost t0 = old(self).table.tavern().len();
        let ghost d0 = old(self).table.discard().len();
        let ghost fits = t0 + k <= 54 && k <= d0;
        let mut j: usize = 0;
        while j < k
            invariant
                self.inv(),
                j <= k,
                t0 == old(self).table.tavern().len(),
                d0 == old(self).table.discard().len(),
                fits == (t0 + k <= 54 && k <= d0),
                fits ==> self.table.tavern() == old(self).table.tavern() + top_run(old(self).table.discard(), 0, j as int)
                    && self.table.discard() == old(self).table.discard().take(d0 - j),
                self.all_cards() == old(self).all_cards(),
                self.players == old(self).players,
                same_counters(*self, *old(self)),
                self.action_type == old(self).action_type,
                self.table.attack() == old(self).table.attack(),
                self.table.castle() == old(self).table.castle(),
            decreases k - j,
        {
            if crate::fixed::pile_len(&self.table.tavern_deck) < 54 {
                let ghost before = *self;
                match crate::fixed::pile_pop(&mut self.table.discard_pile) {
                    Some(c) => {
                        self.table.add_to_top_of_tavern_deck(c);
                        proof {
                            assert(before.table.discard() =~= self.table.discard().push(c));
                            assert(self.all_cards() =~= before.all_cards());
                            if fits {
                                let dd = old(self).table.discard();
                                assert(c == dd[d0 - 1 - j]);
                                assert(top_run(dd, 0, j + 1) =~= top_run(dd, 0, j as int).push(c));
                                assert(old(self).table.tavern() + top_run(dd, 0, j + 1) =~= (old(self).table.tavern() + top_run(dd, 0, j as int)).push(c));
                                assert(self.table.discard() =~= dd.take(d0 - j - 1));
                            }
                        }
                    },
                    None => {},
                }
            }
            j += 1;
        }
    }
}

} // verus!
