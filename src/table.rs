use crate::card::{
    attack, is_royal, jesters, number_at, number_cards, royal_at, royal_cards, suit_at, Card,
    CardSuit, CardValue,
};
use crate::enemy::{starting_health, Enemy};
use crate::fixed::{
    castle_enemies, castle_get, castle_len, castle_new, castle_pop, castle_push, hand_cards,
    hand_get, hand_len, hand_new, hand_push, pile_cards, pile_clear, pile_get, pile_insert_bottom,
    pile_len, pile_new, pile_pop, pile_push, CardVec, CastleDeck, Hand,
};
use crate::random::{shuffle_enemies, shuffle_pile};
use rand::rngs::StdRng;
use vstd::multiset::Multiset;
use vstd::prelude::*;

verus! {

broadcast use vstd::seq_lib::group_to_multiset_ensures, vstd::multiset::group_multiset_axioms;

/// The cards of a sequence of enemies.
pub open spec fn enemy_cards(es: Seq<Enemy>) -> Seq<Card> {
    es.map_values(|e: Enemy| e.spec_card())
}

/// A fresh enemy: full health, full attack, no Jester yet.
pub open spec fn is_fresh(e: Enemy) -> bool {
    &&& e.spec_health() == starting_health(e.spec_card().value)
    &&& e.spec_attack() == attack(e.spec_card())
    &&& !e.spec_jester_applied()
}

/// The castle deck of a new game: Kings at the bottom, then Queens, then
/// Jacks on top, so that the weakest are fought first.
pub open spec fn in_tiers(c: Seq<Enemy>) -> bool {
    forall|i: int| 0 <= i < c.len() ==> (#[trigger] c[i]).spec_card().value == royal_at(i / 4)
}

/// The four zones of cards on the table.
#[derive(Clone, Debug)]
pub struct Table {
    pub castle_deck: CastleDeck,
    pub tavern_deck: CardVec,
    pub discard_pile: CardVec,
    pub attack_cards: CardVec,
}

impl Table {
    /// Enemies still to defeat, bottom to top; the top one is the current enemy.
    pub open spec fn castle(&self) -> Seq<Enemy> {
        castle_enemies(self.castle_deck)
    }

    /// The draw pile, bottom to top.
    pub open spec fn tavern(&self) -> Seq<Card> {
        pile_cards(self.tavern_deck)
    }

    pub open spec fn discard(&self) -> Seq<Card> {
        pile_cards(self.discard_pile)
    }

    /// The cards played against the current enemy.
    pub open spec fn attack(&self) -> Seq<Card> {
        pile_cards(self.attack_cards)
    }

    /// Every card on the table, the enemies' cards included.
    pub open spec fn all_cards(&self) -> Multiset<Card> {
        enemy_cards(self.castle()).to_multiset().add(self.tavern().to_multiset()).add(
            self.discard().to_multiset(),
        ).add(self.attack().to_multiset())
    }

    /// A fresh table: twelve fresh enemies, and a tavern deck of the forty
    /// number cards and `n_jesters` Jesters, each shuffled.
    pub fn new(n_jesters: usize, rng: &mut StdRng) -> (r: Table)
        requires
            n_jesters <= 2,
        ensures
            enemy_cards(r.castle()).to_multiset() == royal_cards().to_multiset(),
            r.castle().len() == 12,
            in_tiers(r.castle()),
            forall|i: int| 0 <= i < r.castle().len() ==> is_fresh(#[trigger] r.castle()[i]),
            r.tavern().to_multiset() == (number_cards() + jesters(n_jesters as nat)).to_multiset(),
            r.tavern().len() == 40 + n_jesters,
            r.discard().len() == 0,
            r.attack().len() == 0,
    {
        let castle_deck = Self::new_castle_deck(rng);
        let tavern_deck = Self::new_tavern_deck(rng, n_jesters);
        assert(pile_cards(tavern_deck).len() == pile_cards(tavern_deck).to_multiset().len());
        assert((number_cards() + jesters(n_jesters as nat)).len() == (number_cards() + jesters(n_jesters as nat)).to_multiset().len());
        Table { castle_deck, tavern_deck, discard_pile: pile_new(), attack_cards: pile_new() }
    }

    /// The royals in three tiers, Kings at the bottom and Jacks on top, each
    /// tier shuffled.
    fn new_castle_deck(rng: &mut StdRng) -> (r: CastleDeck)
        ensures
            enemy_cards(castle_enemies(r)).to_multiset() == royal_cards().to_multiset(),
            castle_enemies(r).len() == 12,
            in_tiers(castle_enemies(r)),
            forall|i: int|
                0 <= i < castle_enemies(r).len() ==> is_fresh(#[trigger] castle_enemies(r)[i]),
    {
        let royals = CardValue::royals();
        let suits = CardSuit::all();
        let mut castle = castle_new();
        let mut v: usize = 0;
        while v < 3
            invariant
                v <= 3,
                forall|i: int| 0 <= i < 3 ==> royals@[i] == royal_at(i),
                forall|i: int| 0 <= i < 4 ==> suits@[i] == suit_at(i),
                castle_enemies(castle).len() == 4 * v,
                in_tiers(castle_enemies(castle)),
                enemy_cards(castle_enemies(castle)).to_multiset() == royal_cards().take(
                    4 * v as int,
                ).to_multiset(),
                forall|i: int|
                    0 <= i < castle_enemies(castle).len() ==> is_fresh(
                        #[trigger] castle_enemies(castle)[i],
                    ),
            decreases 3 - v,
        {
            let value = royals[v];
            let mut tier: Vec<Enemy> = Vec::new();
            assert(tier@.len() == 0);
            assert(enemy_cards(tier@) =~= royal_cards().subrange(4 * v as int, 4 * v as int));
            let mut s: usize = 0;
            while s < 4
                invariant
                    v < 3,
                    value == royal_at(v as int),
                    forall|i: int| 0 <= i < 4 ==> suits@[i] == suit_at(i),
                    s <= 4,
                    tier@.len() == s,
                    enemy_cards(tier@) == royal_cards().subrange(4 * v as int, 4 * v + s),
                    forall|i: int| 0 <= i < tier@.len() ==> is_fresh(#[trigger] tier@[i]),
                    forall|i: int| 0 <= i < tier@.len() ==> (#[trigger] tier@[i]).spec_card().value == value,
                decreases 4 - s,
            {
                let e = Enemy::new(Card::new(suits[s], value));
                tier.push(e);
                assert(enemy_cards(tier@) =~= royal_cards().subrange(4 * v as int, 4 * v + s + 1));
                s += 1;
            }
            let ghost before = tier@;
            shuffle_enemies(&mut tier, rng);
            proof {
                lemma_enemy_cards_multiset(before, tier@);
                assert forall|i: int| 0 <= i < tier@.len() implies is_fresh(#[trigger] tier@[i]) && tier@[i].spec_card().value == value by {
                    assert(tier@.contains(tier@[i]));
                    assert(before.to_multiset().count(tier@[i]) > 0);
                    assert(before.contains(tier@[i]));
                }
            }
            let ghost start = castle_enemies(castle);
            let mut k: usize = 0;
            while k < 4
                invariant
                    v < 3,
                    k <= 4,
                    tier@.len() == 4,
                    start.len() == 4 * v,
                    castle_enemies(castle) == start + tier@.take(k as int),
                    value == royal_at(v as int),
                    in_tiers(start),
                    forall|i: int| 0 <= i < tier@.len() ==> (#[trigger] tier@[i]).spec_card().value == value,
                    forall|i: int| 0 <= i < tier@.len() ==> is_fresh(#[trigger] tier@[i]),
                    forall|i: int| 0 <= i < start.len() ==> is_fresh(#[trigger] start[i]),
                decreases 4 - k,
            {
                castle_push(&mut castle, tier[k]);
                assert(start + tier@.take(k + 1) =~= (start + tier@.take(k as int)).push(tier@[k as int]));
                k += 1;
            }
            proof {
                assert(tier@.take(4) =~= tier@);
                assert(enemy_cards(start + tier@) =~= enemy_cards(start) + enemy_cards(tier@));
                vstd::seq_lib::lemma_multiset_commutative(enemy_cards(start), enemy_cards(tier@));
                let a = royal_cards().take(4 * v as int);
                let b = royal_cards().subrange(4 * v as int, 4 * v + 4);
                assert(royal_cards().take(4 * v + 4) =~= a + b);
                vstd::seq_lib::lemma_multiset_commutative(a, b);
                assert forall|i: int| 0 <= i < castle_enemies(castle).len() implies (#[trigger] castle_enemies(castle)[i]).spec_card().value == royal_at(i / 4) by {
                    if i >= start.len() {
                        assert(castle_enemies(castle)[i] == tier@[i - start.len()]);
                        assert(i / 4 == v as int);
                    } else {
                        assert(castle_enemies(castle)[i] == start[i]);
                    }
                }
                assert(forall|i: int| 0 <= i < castle_enemies(castle).len() ==> is_fresh(#[trigger] castle_enemies(castle)[i]) ) by {
                    assert forall|i: int| 0 <= i < castle_enemies(castle).len() implies is_fresh(#[trigger] castle_enemies(castle)[i]) by {
                        if i >= start.len() {
                            assert(castle_enemies(castle)[i] == tier@[i - start.len()]);
                        } else {
                            assert(castle_enemies(castle)[i] == start[i]);
                        }
                    }
                }
            }
            v += 1;
        }
        assert(royal_cards().take(12) =~= royal_cards());
        castle
    }

    /// The forty number cards and `n_jesters` Jesters, shuffled.
    fn new_tavern_deck(rng: &mut StdRng, n_jesters: usize) -> (r: CardVec)
        requires
            n_jesters <= 2,
        ensures
            pile_cards(r).to_multiset() == (number_cards() + jesters(n_jesters as nat)).to_multiset(),
    {
        let numbers = CardValue::numbers();
        let suits = CardSuit::all();
        let mut deck = pile_new();
        let mut v: usize = 0;
        while v < 10
            invariant
                v <= 10,
                forall|i: int| 0 <= i < 10 ==> numbers@[i] == number_at(i),
                forall|i: int| 0 <= i < 4 ==> suits@[i] == suit_at(i),
                pile_cards(deck) == number_cards().take(4 * v as int),
            decreases 10 - v,
        {
            let mut s: usize = 0;
            while s < 4
                invariant
                    v < 10,
                    s <= 4,
                    forall|i: int| 0 <= i < 10 ==> numbers@[i] == number_at(i),
                    forall|i: int| 0 <= i < 4 ==> suits@[i] == suit_at(i),
                    pile_cards(deck) == number_cards().take(4 * v + s),
                decreases 4 - s,
            {
                let c = Card::new(suits[s], numbers[v]);
                pile_push(&mut deck, c);
                proof {
                    let i = 4 * v + s;
                    assert(i / 4 == v as int && i % 4 == s as int);
                    assert(number_cards().take(i + 1) =~= number_cards().take(i).push(c));
                }
                s += 1;
            }
            v += 1;
        }
        let mut j: usize = 0;
        while j < n_jesters
            invariant
                n_jesters <= 2,
                j <= n_jesters,
                pile_cards(deck) == number_cards() + jesters(j as nat),
            decreases n_jesters - j,
        {
            pile_push(&mut deck, Card::new(CardSuit::NoSuit, CardValue::Jester));
            assert(number_cards() + jesters(j as nat + 1) =~= (number_cards() + jesters(j as nat)).push(
                crate::card::jester(),
            ));
            j += 1;
        }
        shuffle_pile(&mut deck, rng);
        deck
    }

    /// Takes up to `n_cards` from the top of the tavern deck, fewer when it runs out.
    /// The first card of the result is the one that was on top.
    pub fn draw_cards(&mut self, n_cards: usize) -> (r: Hand)
        requires
            n_cards <= 8,
        ensures
            ({
                let k = if n_cards <= old(self).tavern().len() {
                    n_cards as int
                } else {
                    old(self).tavern().len() as int
                };
                &&& hand_cards(r).len() == k
                &&& final(self).tavern() == old(self).tavern().take(old(self).tavern().len() - k)
                &&& forall|i: int|
                    0 <= i < k ==> #[trigger] hand_cards(r)[i] == old(self).tavern()[old(
                        self,
                    ).tavern().len() - 1 - i]
            }),
            hand_cards(r).to_multiset().add(final(self).tavern().to_multiset()) == old(
                self,
            ).tavern().to_multiset(),
            final(self).castle() == old(self).castle(),
            final(self).discard() == old(self).discard(),
            final(self).attack() == old(self).attack(),
    {
        let mut cards = hand_new();
        let mut i: usize = 0;
        let ghost t = self.tavern();
        while i < n_cards
            invariant
                i <= n_cards <= 8,
                hand_cards(cards).len() <= i,
                hand_cards(cards).len() < i ==> self.tavern().len() == 0,
                self.tavern() == t.take(t.len() - hand_cards(cards).len()),
                hand_cards(cards).len() <= t.len(),
                forall|j: int|
                    0 <= j < hand_cards(cards).len() ==> #[trigger] hand_cards(cards)[j] == t[t.len()
                        - 1 - j],
                hand_cards(cards).to_multiset().add(self.tavern().to_multiset()) == t.to_multiset(),
                self.castle() == old(self).castle(),
                self.discard() == old(self).discard(),
                self.attack() == old(self).attack(),
            decreases n_cards - i,
        {
            let ghost before = self.tavern();
            let ghost hb = hand_cards(cards);
            match pile_pop(&mut self.tavern_deck) {
                Some(c) => {
                    hand_push(&mut cards, c);
                    proof {
                        assert(before =~= self.tavern().push(c));
                        assert(t.take(t.len() - hand_cards(cards).len()) =~= self.tavern());
                        assert(hand_cards(cards).to_multiset().add(self.tavern().to_multiset())
                            =~= hb.to_multiset().add(before.to_multiset()));
                    }
                },
                None => {},
            }
            i += 1;
        }
        cards
    }

    /// The top card of the tavern deck, if any.
    pub fn draw_card(&mut self) -> (r: Option<Card>)
        ensures
            old(self).tavern().len() == 0 ==> r is None && final(self).tavern() == old(self).tavern(),
            old(self).tavern().len() > 0 ==> r == Some(old(self).tavern().last())
                && final(self).tavern() == old(self).tavern().drop_last(),
            final(self).castle() == old(self).castle(),
            final(self).discard() == old(self).discard(),
            final(self).attack() == old(self).attack(),
    {
        pile_pop(&mut self.tavern_deck)
    }

    pub fn discard_card(&mut self, card: Card)
        requires
            old(self).discard().len() < 54,
        ensures
            final(self).discard() == old(self).discard().push(card),
            final(self).castle() == old(self).castle(),
            final(self).tavern() == old(self).tavern(),
            final(self).attack() == old(self).attack(),
    {
        pile_push(&mut self.discard_pile, card);
    }

    /// Puts the given cards on the discard pile, in order.
    pub fn discard_cards(&mut self, cards: &Hand)
        requires
            old(self).discard().len() + hand_cards(*cards).len() <= 54,
        ensures
            final(self).discard() == old(self).discard() + hand_cards(*cards),
            final(self).castle() == old(self).castle(),
            final(self).tavern() == old(self).tavern(),
            final(self).attack() == old(self).attack(),
    {
        let n = hand_len(cards);
        let mut i: usize = 0;
        while i < n
            invariant
                n == hand_cards(*cards).len(),
                i <= n,
                old(self).discard().len() + n <= 54,
                self.discard() == old(self).discard() + hand_cards(*cards).take(i as int),
                self.castle() == old(self).castle(),
                self.tavern() == old(self).tavern(),
                self.attack() == old(self).attack(),
            decreases n - i,
        {
            let c = hand_get(cards, i);
            pile_push(&mut self.discard_pile, c);
            assert(old(self).discard() + hand_cards(*cards).take(i + 1) =~= (old(self).discard()
                + hand_cards(*cards).take(i as int)).push(c));
            i += 1;
        }
        assert(hand_cards(*cards).take(n as int) =~= hand_cards(*cards));
    }

    /// Puts the given cards on the pile of cards played against the current enemy.
    pub fn add_attack_cards(&mut self, cards: &Hand)
        requires
            old(self).attack().len() + hand_cards(*cards).len() <= 54,
        ensures
            final(self).attack() == old(self).attack() + hand_cards(*cards),
            final(self).castle() == old(self).castle(),
            final(self).tavern() == old(self).tavern(),
            final(self).discard() == old(self).discard(),
    {
        let n = hand_len(cards);
        let mut i: usize = 0;
        while i < n
            invariant
                n == hand_cards(*cards).len(),
                i <= n,
                old(self).attack().len() + n <= 54,
                self.attack() == old(self).attack() + hand_cards(*cards).take(i as int),
                self.castle() == old(self).castle(),
                self.tavern() == old(self).tavern(),
                self.discard() == old(self).discard(),
            decreases n - i,
        {
            let c = hand_get(cards, i);
            pile_push(&mut self.attack_cards, c);
            assert(old(self).attack() + hand_cards(*cards).take(i + 1) =~= (old(self).attack()
                + hand_cards(*cards).take(i as int)).push(c));
            i += 1;
        }
        assert(hand_cards(*cards).take(n as int) =~= hand_cards(*cards));
    }

    pub fn attack_cards(&self) -> (r: &CardVec)
        ensures
            pile_cards(*r) == self.attack(),
    {
        &self.attack_cards
    }

    /// Places all cards played against the enemy on the discard pile.
    pub fn discard_attack_cards(&mut self)
        requires
            old(self).discard().len() + old(self).attack().len() <= 54,
        ensures
            final(self).discard() == old(self).discard() + old(self).attack(),
            final(self).attack().len() == 0,
            final(self).castle() == old(self).castle(),
            final(self).tavern() == old(self).tavern(),
    {
        let n = pile_len(&self.attack_cards);
        let mut i: usize = 0;
        while i < n
            invariant
                n == old(self).attack().len(),
                i <= n,
                old(self).discard().len() + n <= 54,
                self.attack() == old(self).attack(),
                self.discard() == old(self).discard() + old(self).attack().take(i as int),
                self.castle() == old(self).castle(),
                self.tavern() == old(self).tavern(),
            decreases n - i,
        {
            let c = pile_get(&self.attack_cards, i);
            pile_push(&mut self.discard_pile, c);
            assert(old(self).discard() + old(self).attack().take(i + 1) =~= (old(self).discard()
                + old(self).attack().take(i as int)).push(c));
            i += 1;
        }
        assert(old(self).attack().take(n as int) =~= old(self).attack());
        pile_clear(&mut self.attack_cards);
    }

    pub fn add_to_top_of_tavern_deck(&mut self, card: Card)
        requires
            old(self).tavern().len() < 54,
        ensures
            final(self).tavern() == old(self).tavern().push(card),
            final(self).castle() == old(self).castle(),
            final(self).discard() == old(self).discard(),
            final(self).attack() == old(self).attack(),
    {
        pile_push(&mut self.tavern_deck, card);
    }

    /// Shuffles the discard pile, then moves `n_cards` of it (all, if fewer)
    /// from its top to the bottom of the tavern deck.
    pub fn heal_from_discard(&mut self, n_cards: usize, rng: &mut StdRng)
        requires
            old(self).tavern().len() + old(self).discard().len() <= 54,
        ensures
            ({
                let k = if n_cards <= old(self).discard().len() {
                    n_cards as int
                } else {
                    old(self).discard().len() as int
                };
                &&& final(self).discard().len() == old(self).discard().len() - k
                &&& final(self).tavern().len() == old(self).tavern().len() + k
                &&& final(self).tavern().skip(k) == old(self).tavern()
            }),
            final(self).tavern().to_multiset().add(final(self).discard().to_multiset()) == old(
                self,
            ).tavern().to_multiset().add(old(self).discard().to_multiset()),
            final(self).castle() == old(self).castle(),
            final(self).attack() == old(self).attack(),
    {
        shuffle_pile(&mut self.discard_pile, rng);
        let ghost total = self.tavern().to_multiset().add(self.discard().to_multiset());
        let ghost d0 = self.discard().len();
        let mut i: usize = 0;
        let mut moved: usize = 0;
        while i < n_cards
            invariant
                i <= n_cards,
                moved <= i,
                moved < i ==> self.discard().len() == 0,
                self.discard().len() == d0 - moved,
                self.tavern().len() == old(self).tavern().len() + moved,
                self.tavern().skip(moved as int) == old(self).tavern(),
                self.tavern().len() + self.discard().len() <= 54,
                self.tavern().to_multiset().add(self.discard().to_multiset()) == total,
                self.castle() == old(self).castle(),
                self.attack() == old(self).attack(),
            decreases n_cards - i,
        {
            let ghost tb = self.tavern();
            let ghost db = self.discard();
            match pile_pop(&mut self.discard_pile) {
                Some(c) => {
                    pile_insert_bottom(&mut self.tavern_deck, c);
                    moved += 1;
                    proof {
                        assert(db =~= self.discard().push(c));
                        assert(self.tavern().skip(moved as int) =~= tb.skip(moved - 1));
                        vstd::seq_lib::lemma_multiset_commutative(seq![c], tb);
                        assert(seq![c].to_multiset() =~= Multiset::singleton(c)) by {
                            assert(seq![c] =~= Seq::<Card>::empty().push(c));
                        }
                        assert(self.tavern().to_multiset().add(self.discard().to_multiset())
                            =~= tb.to_multiset().add(db.to_multiset()));
                    }
                },
                None => {},
            }
            i += 1;
        }
    }

    /// The enemy on top of the castle deck, if any is left.
    pub fn current_enemy(&self) -> (r: Option<Enemy>)
        ensures
            self.castle().len() == 0 ==> r is None,
            self.castle().len() > 0 ==> r == Some(self.castle().last()),
    {
        let n = castle_len(&self.castle_deck);
        if n == 0 {
            None
        } else {
            Some(castle_get(&self.castle_deck, n - 1))
        }
    }

    /// Puts `enemy` in place of the current enemy.
    pub fn replace_current_enemy(&mut self, enemy: Enemy)
        requires
            old(self).castle().len() > 0,
        ensures
            final(self).castle() == old(self).castle().update(old(self).castle().len() - 1, enemy),
            final(self).tavern() == old(self).tavern(),
            final(self).discard() == old(self).discard(),
            final(self).attack() == old(self).attack(),
    {
        castle_pop(&mut self.castle_deck);
        castle_push(&mut self.castle_deck, enemy);
        assert(old(self).castle().drop_last().push(enemy) =~= old(self).castle().update(
            old(self).castle().len() - 1,
            enemy,
        ));
    }

    /// Turns the next card of the castle deck face up: the current enemy leaves.
    pub fn next_enemy(&mut self)
        ensures
            old(self).castle().len() > 0 ==> final(self).castle() == old(self).castle().drop_last(),
            old(self).castle().len() == 0 ==> final(self).castle() == old(self).castle(),
            final(self).tavern() == old(self).tavern(),
            final(self).discard() == old(self).discard(),
            final(self).attack() == old(self).attack(),
    {
        castle_pop(&mut self.castle_deck);
    }
}

impl Table {
    /// Reshuffles the enemies below the current one, each rank among
    /// itself; the Kings lie at the bottom, then the Queens, then the Jacks.
    /// The current enemy stays on top.
    pub fn permute_castle(&mut self, rng: &mut StdRng)
        ensures
            final(self).castle().len() == old(self).castle().len(),
            final(self).castle().to_multiset() == old(self).castle().to_multiset(),
            enemy_cards(final(self).castle()).to_multiset() == enemy_cards(old(self).castle()).to_multiset(),
            old(self).castle().len() > 0 ==> final(self).castle().last() == old(self).castle().last(),
            old(self).castle().len() >= 2 ==> tiers_below_top(final(self).castle()),
            final(self).tavern() == old(self).tavern(),
            final(self).discard() == old(self).discard(),
            final(self).attack() == old(self).attack(),
    {
        let n = castle_len(&self.castle_deck);
        if n < 2 {
            return;
        }
        let ghost c0 = self.castle();
        let mut kings: Vec<Enemy> = Vec::new();
        let mut queens: Vec<Enemy> = Vec::new();
        let mut jacks: Vec<Enemy> = Vec::new();
        let mut i: usize = 0;
        while i < n - 1
            invariant
                n == c0.len(),
                2 <= n <= 12,
                self.castle() == c0,
                i <= n - 1,
                kings@.to_multiset().add(queens@.to_multiset()).add(jacks@.to_multiset()) == c0.take(i as int).to_multiset(),
                forall|x: int| 0 <= x < kings@.len() ==> tier_rank((#[trigger] kings@[x]).spec_card().value) == 0,
                forall|x: int| 0 <= x < queens@.len() ==> tier_rank((#[trigger] queens@[x]).spec_card().value) == 1,
                forall|x: int| 0 <= x < jacks@.len() ==> tier_rank((#[trigger] jacks@[x]).spec_card().value) == 2,
            decreases n - 1 - i,
        {
            let e = castle_get(&self.castle_deck, i);
            let ghost k0 = kings@;
            let ghost q0 = queens@;
            let ghost j0 = jacks@;
            match e.card().value {
                CardValue::King => kings.push(e),
                CardValue::Queen => queens.push(e),
                _ => jacks.push(e),
            }
            proof {
                assert(c0.take(i + 1) =~= c0.take(i as int).push(e));
                assert(kings@.to_multiset().add(queens@.to_multiset()).add(jacks@.to_multiset())
                    =~= k0.to_multiset().add(q0.to_multiset()).add(j0.to_multiset()).insert(e));
            }
            i += 1;
        }
        let top = castle_get(&self.castle_deck, n - 1);
        let ghost k1 = kings@;
        let ghost q1 = queens@;
        let ghost j1 = jacks@;
        shuffle_enemies(&mut kings, rng);
        shuffle_enemies(&mut queens, rng);
        shuffle_enemies(&mut jacks, rng);
        proof {
            lemma_all_of_rank(k1, kings@, 0);
            lemma_all_of_rank(q1, queens@, 1);
            lemma_all_of_rank(j1, jacks@, 2);
        }
        let ghost all = kings@ + queens@ + jacks@;
        proof {
            vstd::seq_lib::lemma_multiset_commutative(kings@, queens@);
            vstd::seq_lib::lemma_multiset_commutative(kings@ + queens@, jacks@);
            assert(all.to_multiset() =~= c0.take(n - 1).to_multiset());
            assert(all.len() == all.to_multiset().len());
            assert(c0.take(n - 1).len() == c0.take(n - 1).to_multiset().len());
        }
        let mut castle = castle_new();
        push_all_enemies(&mut castle, &kings);
        push_all_enemies(&mut castle, &queens);
        push_all_enemies(&mut castle, &jacks);
        castle_push(&mut castle, top);
        proof {
            assert(castle_enemies(castle) =~= all.push(top));
            assert(c0 =~= c0.take(n - 1).push(top));
            let f = castle_enemies(castle);
            assert forall|i: int| 0 <= i < f.len() - 1 implies tier_rank(#[trigger] f[i].spec_card().value) == if i < kings@.len() {
                0int
            } else if i < kings@.len() + queens@.len() {
                1int
            } else {
                2int
            } by {
                if i < kings@.len() {
                    assert(f[i] == kings@[i]);
                } else if i < kings@.len() + queens@.len() {
                    assert(f[i] == queens@[i - kings@.len()]);
                } else {
                    assert(f[i] == jacks@[i - kings@.len() - queens@.len()]);
                }
            }
        }
        self.castle_deck = castle;
        proof {
            lemma_enemy_cards_multiset(c0, self.castle());
        }
    }
}

/// The enemies below the current one lie Kings first, then Queens, then
/// Jacks, from the bottom.
pub open spec fn tiers_below_top(c: Seq<Enemy>) -> bool {
    forall|i: int, j: int| 0 <= i < j < c.len() - 1
        ==> tier_rank(#[trigger] c[i].spec_card().value) <= tier_rank(#[trigger] c[j].spec_card().value)
}

/// The whole castle deck in tier order: Kings below Queens below Jacks.
pub open spec fn in_tier_order(cs: Seq<Card>) -> bool {
    forall|i: int, j: int| 0 <= i < j < cs.len() ==> tier_rank(#[trigger] cs[i].value) <= tier_rank(#[trigger] cs[j].value)
}

/// A reshuffle below an unchanged top keeps a castle deck in tier order.
pub proof fn lemma_tier_order_kept(c0: Seq<Enemy>, c1: Seq<Enemy>)
    requires
        in_tier_order(enemy_cards(c0)),
        c1.to_multiset() == c0.to_multiset(),
        c1.len() == c0.len(),
        c0.len() > 0 ==> c1.last() == c0.last(),
        c0.len() >= 2 ==> tiers_below_top(c1),
    ensures
        in_tier_order(enemy_cards(c1)),
{
    let n = c1.len() as int;
    assert forall|i: int, j: int| 0 <= i < j < n implies tier_rank(#[trigger] enemy_cards(c1)[i].value)
        <= tier_rank(#[trigger] enemy_cards(c1)[j].value) by {
        if j < n - 1 {
            assert(tier_rank(c1[i].spec_card().value) <= tier_rank(c1[j].spec_card().value));
        } else {
            assert(c1.contains(c1[i]));
            assert(c0.to_multiset().count(c1[i]) > 0);
            assert(c0.contains(c1[i]));
            let k = choose|k: int| 0 <= k < c0.len() && c0[k] == c1[i];
            if k < n - 1 {
                assert(tier_rank(enemy_cards(c0)[k].value) <= tier_rank(enemy_cards(c0)[n - 1].value));
            }
        }
    }
}

/// The place of a royal rank in the castle deck, from the bottom.
pub open spec fn tier_rank(v: CardValue) -> int {
    match v {
        CardValue::King => 0,
        CardValue::Queen => 1,
        _ => 2,
    }
}

/// A shuffle of enemies all of one tier keeps them all of that tier.
proof fn lemma_all_of_rank(a: Seq<Enemy>, b: Seq<Enemy>, t: int)
    requires
        a.to_multiset() == b.to_multiset(),
        forall|x: int| 0 <= x < a.len() ==> tier_rank((#[trigger] a[x]).spec_card().value) == t,
    ensures
        forall|x: int| 0 <= x < b.len() ==> tier_rank((#[trigger] b[x]).spec_card().value) == t,
{
    assert forall|x: int| 0 <= x < b.len() implies tier_rank((#[trigger] b[x]).spec_card().value) == t by {
        assert(b.contains(b[x]));
        assert(a.to_multiset().count(b[x]) > 0);
        assert(a.contains(b[x]));
    }
}

/// Puts the enemies of `es` on top of `castle`, in order.
fn push_all_enemies(castle: &mut CastleDeck, es: &Vec<Enemy>)
    requires
        castle_enemies(*old(castle)).len() + es@.len() <= 12,
    ensures
        castle_enemies(*final(castle)) == castle_enemies(*old(castle)) + es@,
{
    let mut i: usize = 0;
    while i < es.len()
        invariant
            castle_enemies(*old(castle)).len() + es@.len() <= 12,
            i <= es@.len(),
            castle_enemies(*castle) == castle_enemies(*old(castle)) + es@.take(i as int),
        decreases es@.len() - i,
    {
        castle_push(castle, es[i]);
        assert(castle_enemies(*old(castle)) + es@.take(i + 1) =~= (castle_enemies(*old(castle)) + es@.take(i as int)).push(es@[i as int]));
        i += 1;
    }
    assert(es@.take(es@.len() as int) =~= es@);
}

/// Two sequences of enemies with the same multiset have cards with the same multiset.
pub proof fn lemma_enemy_cards_multiset(a: Seq<Enemy>, b: Seq<Enemy>)
    requires
        a.to_multiset() == b.to_multiset(),
    ensures
        enemy_cards(a).to_multiset() == enemy_cards(b).to_multiset(),
    decreases a.len(),
{
    if a.len() > 0 {
        let x = a.last();
        assert(a.to_multiset().contains(x)) by {
            assert(a.contains(x)) by { assert(a[a.len() - 1] == x); }
        }
        assert(b.contains(x));
        let j = choose|j: int| 0 <= j < b.len() && b[j] == x;
        let a2 = a.drop_last();
        let b2 = b.remove(j);
        assert(a =~= a2.push(x));
        assert(a2.to_multiset() =~= a.to_multiset().remove(x));
        assert(b2.to_multiset() =~= b.to_multiset().remove(x));
        lemma_enemy_cards_multiset(a2, b2);
        assert(enemy_cards(a) =~= enemy_cards(a2).push(x.spec_card()));
        assert(enemy_cards(b2) =~= enemy_cards(b).remove(j));
        assert(enemy_cards(b).to_multiset() =~= enemy_cards(b2).to_multiset().insert(x.spec_card()));
    } else {
        assert(a.to_multiset().len() == 0);
        assert(b.len() == b.to_multiset().len());
        assert(enemy_cards(a) =~= enemy_cards(b));
    }
}
} // verus!
