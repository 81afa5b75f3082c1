use crate::card::{sum_attack, lemma_sum_attack_push, Card};
use crate::fixed::{hand_cards, hand_get, hand_len, hand_remove, Hand};
use vstd::multiset::Multiset;
use vstd::prelude::*;

verus! {

/// A seat at the table; seats take turns clockwise.
#[derive(Clone, Copy, PartialEq, Eq, Structural, Debug, Hash)]
pub struct PlayerId(pub usize);

impl PlayerId {
    /// The seat after this one in a ring of `total_players`.
    pub fn next_id(&self, total_players: usize) -> (r: PlayerId)
        requires
            self.0 < total_players,
        ensures
            r.0 == (self.0 + 1) % (total_players as int),
            r.0 < total_players,
    {
        PlayerId((self.0 + 1) % total_players)
    }
}

/// `h` without its first copy of `c` (unchanged where `c` is absent).
pub open spec fn remove_first(h: Seq<Card>, c: Card) -> Seq<Card>
    decreases h.len(),
{
    if h.len() == 0 {
        h
    } else if h[0] == c {
        h.drop_first()
    } else {
        seq![h[0]] + remove_first(h.drop_first(), c)
    }
}

/// `h` after removing, one by one, a copy of each card of `cs`.
pub open spec fn remove_cards(h: Seq<Card>, cs: Seq<Card>) -> Seq<Card>
    decreases cs.len(),
{
    if cs.len() == 0 {
        h
    } else {
        remove_first(remove_cards(h, cs.drop_last()), cs.last())
    }
}

/// The hand `h` holds every card of `cs`, as many times as `cs` lists it.
pub open spec fn holds(h: Seq<Card>, cs: Seq<Card>) -> bool {
    cs.to_multiset().subset_of(h.to_multiset())
}

pub proof fn lemma_remove_first_at(h: Seq<Card>, c: Card, i: int)
    requires
        0 <= i < h.len(),
        h[i] == c,
        forall|j: int| 0 <= j < i ==> h[j] != c,
    ensures
        remove_first(h, c) == h.remove(i),
    decreases h.len(),
{
    if i > 0 {
        lemma_remove_first_at(h.drop_first(), c, i - 1);
        assert(seq![h[0]] + h.drop_first().remove(i - 1) =~= h.remove(i));
    } else {
        assert(h.drop_first() =~= h.remove(0));
    }
}

pub proof fn lemma_remove_first_absent(h: Seq<Card>, c: Card)
    requires
        forall|j: int| 0 <= j < h.len() ==> h[j] != c,
    ensures
        remove_first(h, c) == h,
    decreases h.len(),
{
    if h.len() > 0 {
        lemma_remove_first_absent(h.drop_first(), c);
        assert(seq![h[0]] + h.drop_first() =~= h);
    }
}

pub proof fn lemma_remove_first_multiset(h: Seq<Card>, c: Card)
    ensures
        remove_first(h, c).to_multiset() == h.to_multiset().remove(c),
    decreases h.len(),
{
    broadcast use vstd::seq_lib::group_to_multiset_ensures;
    broadcast use vstd::multiset::group_multiset_axioms;

    if h.len() == 0 {
        assert(h.to_multiset() =~= Multiset::empty());
        assert(h.to_multiset().remove(c) =~= Multiset::empty());
    } else {
        let t = h.drop_first();
        lemma_remove_first_multiset(t, c);
        vstd::seq_lib::lemma_multiset_commutative(seq![h[0]], t);
        assert(seq![h[0]] + t =~= h);
        assert(seq![h[0]].to_multiset() =~= Multiset::singleton(h[0])) by {
            assert(seq![h[0]] =~= Seq::<Card>::empty().push(h[0]));
        }
        if h[0] == c {
            assert(h.to_multiset().remove(c) =~= t.to_multiset());
        } else {
            vstd::seq_lib::lemma_multiset_commutative(seq![h[0]], remove_first(t, c));
            assert(remove_first(h, c).to_multiset() =~= h.to_multiset().remove(c));
        }
    }
}

pub proof fn lemma_remove_cards_multiset(h: Seq<Card>, cs: Seq<Card>)
    ensures
        remove_cards(h, cs).to_multiset() == h.to_multiset().sub(cs.to_multiset()),
    decreases cs.len(),
{
    broadcast use vstd::seq_lib::group_to_multiset_ensures;
    broadcast use vstd::multiset::group_multiset_axioms;

    if cs.len() == 0 {
        assert(cs.to_multiset() =~= Multiset::empty());
        assert(h.to_multiset().sub(cs.to_multiset()) =~= h.to_multiset());
    } else {
        lemma_remove_cards_multiset(h, cs.drop_last());
        lemma_remove_first_multiset(remove_cards(h, cs.drop_last()), cs.last());
        assert(cs.drop_last().push(cs.last()) =~= cs);
        assert(remove_cards(h, cs).to_multiset() =~= h.to_multiset().sub(cs.to_multiset()));
    }
}

/// Removing the cards of `cs` from a hand that holds them leaves the
/// multiset difference: nothing else leaves.
pub proof fn lemma_remove_held(h: Seq<Card>, cs: Seq<Card>)
    requires
        holds(h, cs),
    ensures
        remove_cards(h, cs).to_multiset().add(cs.to_multiset()) == h.to_multiset(),
{
    broadcast use vstd::multiset::group_multiset_axioms;

    lemma_remove_cards_multiset(h, cs);
    assert(remove_cards(h, cs).to_multiset().add(cs.to_multiset()) =~= h.to_multiset());
}

/// A player and the cards in their hand.
#[derive(Clone, Debug)]
pub struct Player {
    pub id: PlayerId,
    pub hand: Hand,
}

impl Player {
    pub open spec fn cards(&self) -> Seq<Card> {
        hand_cards(self.hand)
    }

    pub fn new(id: usize, hand: Hand) -> (r: Player)
        ensures
            r.id == PlayerId(id),
            r.hand == hand,
    {
        Player { id: PlayerId(id), hand }
    }

    pub fn id(&self) -> (r: PlayerId)
        ensures
            r == self.id,
    {
        self.id
    }

    /// The sum of the attack values of the cards in hand: the damage this
    /// player can absorb.
    pub fn total_hand_value(&self) -> (r: u16)
        ensures
            r == sum_attack(self.cards()),
    {
        hand_attack_sum(&self.hand)
    }

    /// Removes one copy of `c` from the hand, the first, if there is one.
    pub fn remove_card(&mut self, c: Card)
        ensures
            final(self).cards() == remove_first(old(self).cards(), c),
            final(self).id == old(self).id,
    {
        let n = hand_len(&self.hand);
        let mut i: usize = 0;
        while i < n
            invariant
                n == self.cards().len(),
                self.cards() == old(self).cards(),
                self.id == old(self).id,
                i <= n,
                forall|j: int| 0 <= j < i ==> self.cards()[j] != c,
            decreases n - i,
        {
            if hand_get(&self.hand, i) == c {
                proof {
                    lemma_remove_first_at(self.cards(), c, i as int);
                }
                hand_remove(&mut self.hand, i);
                return;
            }
            i += 1;
        }
        proof {
            lemma_remove_first_absent(self.cards(), c);
        }
    }

    /// Removes the given cards from the hand, one copy for each card listed;
    /// a listed card that is not in the hand is passed over.
    pub fn remove_from_hand(&mut self, cards: &Hand)
        ensures
            final(self).cards() == remove_cards(old(self).cards(), hand_cards(*cards)),
            final(self).id == old(self).id,
    {
        let n = hand_len(cards);
        let mut i: usize = 0;
        while i < n
            invariant
                n == hand_cards(*cards).len(),
                i <= n,
                self.cards() == remove_cards(old(self).cards(), hand_cards(*cards).take(i as int)),
                self.id == old(self).id,
            decreases n - i,
        {
            let c = hand_get(cards, i);
            self.remove_card(c);
            proof {
                let t = hand_cards(*cards).take(i + 1);
                assert(t.drop_last() =~= hand_cards(*cards).take(i as int));
            }
            i += 1;
        }
        assert(hand_cards(*cards).take(n as int) =~= hand_cards(*cards));
    }
}

/// The sum of the attack values of the cards of a hand.
pub fn hand_attack_sum(h: &Hand) -> (r: u16)
    ensures
        r == sum_attack(hand_cards(*h)),
{
    let n = hand_len(h);
    let mut s: u16 = 0;
    let mut i: usize = 0;
    while i < n
        invariant
            n == hand_cards(*h).len(),
            n <= 8,
            i <= n,
            s == sum_attack(hand_cards(*h).take(i as int)),
        decreases n - i,
    {
        let c = hand_get(h, i);
        proof {
            lemma_sum_attack_push(hand_cards(*h).take(i as int), c);
            assert(hand_cards(*h).take(i + 1) =~= hand_cards(*h).take(i as int).push(c));
            crate::card::lemma_sum_attack_bound(hand_cards(*h).take(i + 1));
        }
        s = s + c.attack_value();
        i += 1;
    }
    assert(hand_cards(*h).take(n as int) =~= hand_cards(*h));
    s
}

} // verus!
