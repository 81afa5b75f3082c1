use vstd::multiset::Multiset;
use vstd::prelude::*;

verus! {

/// The suit of a card. `NoSuit` is the suit of a Jester.
#[derive(Clone, Copy, PartialEq, Eq, Structural, Debug, Hash)]
pub enum CardSuit {
    Spades,
    Hearts,
    Diamonds,
    Clubs,
    NoSuit,
}

/// The rank of a card.
#[derive(Clone, Copy, PartialEq, Eq, Structural, Debug, Hash)]
pub enum CardValue {
    Jester,
    Ace,
    Two,
    Three,
    Four,
    Five,
    Six,
    Seven,
    Eight,
    Nine,
    Ten,
    Jack,
    Queen,
    King,
}

#[derive(Clone, Copy, PartialEq, Eq, Structural, Debug, Hash)]
pub struct Card {
    pub suit: CardSuit,
    pub value: CardValue,
}

/// The four real suits, in the order in which decks are built.
pub open spec fn suit_at(i: int) -> CardSuit {
    if i == 0 {
        CardSuit::Spades
    } else if i == 1 {
        CardSuit::Hearts
    } else if i == 2 {
        CardSuit::Diamonds
    } else {
        CardSuit::Clubs
    }
}

/// Position of a real suit in the (otherwise meaningless) total order on suits.
pub open spec fn suit_rank(s: CardSuit) -> int {
    match s {
        CardSuit::Spades => 1,
        CardSuit::Hearts => 2,
        CardSuit::Diamonds => 3,
        CardSuit::Clubs => 4,
        CardSuit::NoSuit => 0,
    }
}

/// The number ranks Ace to Ten, in order.
pub open spec fn number_at(i: int) -> CardValue {
    if i == 0 {
        CardValue::Ace
    } else if i == 1 {
        CardValue::Two
    } else if i == 2 {
        CardValue::Three
    } else if i == 3 {
        CardValue::Four
    } else if i == 4 {
        CardValue::Five
    } else if i == 5 {
        CardValue::Six
    } else if i == 6 {
        CardValue::Seven
    } else if i == 7 {
        CardValue::Eight
    } else if i == 8 {
        CardValue::Nine
    } else {
        CardValue::Ten
    }
}

/// The royal ranks, strongest first (the castle deck is a stack, so the
/// strongest tier lies at the bottom).
pub open spec fn royal_at(i: int) -> CardValue {
    if i == 0 {
        CardValue::King
    } else if i == 1 {
        CardValue::Queen
    } else {
        CardValue::Jack
    }
}

/// The order that lists each pair of Aces once; a Jester's suit is ordered against none.
pub open spec fn suit_outranks(a: CardSuit, b: CardSuit) -> bool {
    suit_rank(a) > 0 && suit_rank(b) > 0 && suit_rank(a) > suit_rank(b)
}

/// The ranks that can be played together: Two to Five.
pub open spec fn is_combo_rank(v: CardValue) -> bool {
    v == CardValue::Two || v == CardValue::Three || v == CardValue::Four || v == CardValue::Five
}

pub open spec fn is_royal(v: CardValue) -> bool {
    v == CardValue::Jack || v == CardValue::Queen || v == CardValue::King
}

/// The fixed attack value of a rank.
pub open spec fn value_attack(v: CardValue) -> nat {
    match v {
        CardValue::Jester => 0,
        CardValue::Ace => 1,
        CardValue::Two => 2,
        CardValue::Three => 3,
        CardValue::Four => 4,
        CardValue::Five => 5,
        CardValue::Six => 6,
        CardValue::Seven => 7,
        CardValue::Eight => 8,
        CardValue::Nine => 9,
        CardValue::Ten => 10,
        CardValue::Jack => 10,
        CardValue::Queen => 15,
        CardValue::King => 20,
    }
}

pub open spec fn attack(c: Card) -> nat {
    value_attack(c.value)
}

/// Sum of the attack values of a sequence of cards.
pub open spec fn sum_attack(s: Seq<Card>) -> nat
    decreases s.len(),
{
    if s.len() == 0 {
        0
    } else {
        sum_attack(s.drop_last()) + attack(s.last())
    }
}

pub open spec fn jester() -> Card {
    Card { suit: CardSuit::NoSuit, value: CardValue::Jester }
}

/// The forty number cards: every suit of Ace, then every suit of Two, and so on.
pub open spec fn number_cards() -> Seq<Card> {
    Seq::new(40, |i: int| Card { suit: suit_at(i % 4), value: number_at(i / 4) })
}

/// The twelve royals in castle order: the Kings, then the Queens, then the Jacks.
pub open spec fn royal_cards() -> Seq<Card> {
    Seq::new(12, |i: int| Card { suit: suit_at(i % 4), value: royal_at(i / 4) })
}

pub open spec fn jesters(n: nat) -> Seq<Card> {
    Seq::new(n, |i: int| jester())
}

/// Every card of a game with `n_jesters` Jesters.
pub open spec fn full_deck(n_jesters: nat) -> Multiset<Card> {
    (number_cards() + jesters(n_jesters) + royal_cards()).to_multiset()
}

pub proof fn lemma_sum_attack_bound(s: Seq<Card>)
    ensures
        sum_attack(s) <= 20 * s.len(),
    decreases s.len(),
{
    if s.len() > 0 {
        lemma_sum_attack_bound(s.drop_last());
    }
}

pub proof fn lemma_sum_attack_push(s: Seq<Card>, c: Card)
    ensures
        sum_attack(s.push(c)) == sum_attack(s) + attack(c),
{
    assert(s.push(c).drop_last() =~= s);
}

impl CardSuit {
    pub fn all() -> (r: [CardSuit; 4])
        ensures
            forall|i: int| 0 <= i < 4 ==> r@[i] == suit_at(i),
    {
        [CardSuit::Spades, CardSuit::Hearts, CardSuit::Diamonds, CardSuit::Clubs]
    }

    /// The order used to list each pair of Aces once: `true` when `self`
    /// comes strictly after `other`. A Jester's suit is ordered against none.
    pub fn outranks(&self, other: &CardSuit) -> (r: bool)
        ensures
            r == suit_outranks(*self, *other),
    {
        let a: u8 = match self {
            CardSuit::Spades => 1,
            CardSuit::Hearts => 2,
            CardSuit::Diamonds => 3,
            CardSuit::Clubs => 4,
            CardSuit::NoSuit => 0,
        };
        let b: u8 = match other {
            CardSuit::Spades => 1,
            CardSuit::Hearts => 2,
            CardSuit::Diamonds => 3,
            CardSuit::Clubs => 4,
            CardSuit::NoSuit => 0,
        };
        a > 0 && b > 0 && a > b
    }
}

impl CardValue {
    pub fn numbers() -> (r: [CardValue; 10])
        ensures
            forall|i: int| 0 <= i < 10 ==> r@[i] == number_at(i),
    {
        [
            CardValue::Ace,
            CardValue::Two,
            CardValue::Three,
            CardValue::Four,
            CardValue::Five,
            CardValue::Six,
            CardValue::Seven,
            CardValue::Eight,
            CardValue::Nine,
            CardValue::Ten,
        ]
    }

    pub fn royals() -> (r: [CardValue; 3])
        ensures
            forall|i: int| 0 <= i < 3 ==> r@[i] == royal_at(i),
    {
        [CardValue::King, CardValue::Queen, CardValue::Jack]
    }
}

impl Card {
    pub fn new(suit: CardSuit, value: CardValue) -> (r: Card)
        ensures
            r == (Card { suit, value }),
    {
        Card { suit, value }
    }

    pub fn attack_value(&self) -> (r: u16)
        ensures
            r == attack(*self),
    {
        match self.value {
            CardValue::Jester => 0,
            CardValue::Ace => 1,
            CardValue::Two => 2,
            CardValue::Three => 3,
            CardValue::Four => 4,
            CardValue::Five => 5,
            CardValue::Six => 6,
            CardValue::Seven => 7,
            CardValue::Eight => 8,
            CardValue::Nine => 9,
            CardValue::Ten => 10,
            CardValue::Jack => 10,
            CardValue::Queen => 15,
            CardValue::King => 20,
        }
    }

    pub fn is_jester(&self) -> (r: bool)
        ensures
            r == (*self == jester()),
    {
        self.suit == CardSuit::NoSuit && self.value == CardValue::Jester
    }
}

} // verus!
