//! The fixed-capacity card collections of the game, kept in `arrayvec::ArrayVec`.
//! Each capacity gets a name for its contents and the few operations the rules use.
use crate::card::Card;
use crate::enemy::Enemy;
use arrayvec::ArrayVec;
use vstd::prelude::*;

verus! {

/// The most cards a hand can hold.
pub const MAX_HAND_SIZE: usize = 8;

/// The most cards any pile can hold: the whole deck.
pub const PILE_CAPACITY: usize = 54;

pub type Hand = ArrayVec<Card, MAX_HAND_SIZE>;

pub type CardVec = ArrayVec<Card, PILE_CAPACITY>;

pub type ComboCards = ArrayVec<Card, 4>;

pub type CastleDeck = ArrayVec<Enemy, 12>;

#[verifier::external_type_specification]
#[verifier::external_body]
#[verifier::reject_recursive_types(T)]
pub struct ExArrayVec<T, const CAP: usize>(ArrayVec<T, CAP>);

/// Relies on ArrayVec's `Clone`, so that types holding one can derive it;
/// nothing is assumed of the copy.
pub assume_specification<T, const CAP: usize>[ <ArrayVec<T, CAP> as Clone>::clone ](
    v: &ArrayVec<T, CAP>,
) -> ArrayVec<T, CAP>
    where
        T: Clone,
;

/// The cards of a hand, first to last.
pub uninterp spec fn hand_cards(h: ArrayVec<Card, 8>) -> Seq<Card>;

/// The cards of a combo, first to last.
pub uninterp spec fn combo_cards(c: ArrayVec<Card, 4>) -> Seq<Card>;

/// The cards of a pile, bottom to top.
pub uninterp spec fn pile_cards(p: ArrayVec<Card, 54>) -> Seq<Card>;

/// The enemies of the castle deck, bottom to top.
pub uninterp spec fn castle_enemies(c: ArrayVec<Enemy, 12>) -> Seq<Enemy>;

/// Relies on ArrayVec::new: an empty vector.
#[verifier::external_body]
pub(crate) fn hand_new() -> (r: Hand)
    ensures
        hand_cards(r) == Seq::<Card>::empty(),
{
    ArrayVec::new()
}

/// Relies on ArrayVec::len, which never exceeds the capacity.
#[verifier::external_body]
pub(crate) fn hand_len(h: &Hand) -> (r: usize)
    ensures
        r == hand_cards(*h).len(),
        r <= 8,
{
    h.len()
}

/// Relies on indexing an ArrayVec (through its slice).
#[verifier::external_body]
pub(crate) fn hand_get(h: &Hand, i: usize) -> (r: Card)
    requires
        i < hand_cards(*h).len(),
    ensures
        r == hand_cards(*h)[i as int],
{
    h[i]
}

/// Relies on ArrayVec::push, which panics only on a full vector.
#[verifier::external_body]
pub(crate) fn hand_push(h: &mut Hand, c: Card)
    requires
        hand_cards(*old(h)).len() < 8,
    ensures
        hand_cards(*final(h)) == hand_cards(*old(h)).push(c),
{
    h.push(c)
}

/// Relies on ArrayVec::remove, which shifts the later cards down.
#[verifier::external_body]
pub(crate) fn hand_remove(h: &mut Hand, i: usize) -> (r: Card)
    requires
        i < hand_cards(*old(h)).len(),
    ensures
        r == hand_cards(*old(h))[i as int],
        hand_cards(*final(h)) == hand_cards(*old(h)).remove(i as int),
{
    h.remove(i)
}

/// Relies on ArrayVec::new: an empty vector.
#[verifier::external_body]
pub(crate) fn combo_new() -> (r: ComboCards)
    ensures
        combo_cards(r) == Seq::<Card>::empty(),
{
    ArrayVec::new()
}

/// Relies on ArrayVec::len, which never exceeds the capacity.
#[verifier::external_body]
pub(crate) fn combo_len(c: &ComboCards) -> (r: usize)
    ensures
        r == combo_cards(*c).len(),
        r <= 4,
{
    c.len()
}

/// Relies on indexing an ArrayVec (through its slice).
#[verifier::external_body]
pub(crate) fn combo_get(c: &ComboCards, i: usize) -> (r: Card)
    requires
        i < combo_cards(*c).len(),
    ensures
        r == combo_cards(*c)[i as int],
{
    c[i]
}

/// Relies on ArrayVec::push, which panics only on a full vector.
#[verifier::external_body]
pub(crate) fn combo_push(c: &mut ComboCards, card: Card)
    requires
        combo_cards(*old(c)).len() < 4,
    ensures
        combo_cards(*final(c)) == combo_cards(*old(c)).push(card),
{
    c.push(card)
}

/// Relies on ArrayVec::new: an empty vector.
#[verifier::external_body]
pub(crate) fn pile_new() -> (r: CardVec)
    ensures
        pile_cards(r) == Seq::<Card>::empty(),
{
    ArrayVec::new()
}

/// Relies on ArrayVec::len, which never exceeds the capacity.
#[verifier::external_body]
pub(crate) fn pile_len(p: &CardVec) -> (r: usize)
    ensures
        r == pile_cards(*p).len(),
        r <= 54,
{
    p.len()
}

/// Relies on indexing an ArrayVec (through its slice).
#[verifier::external_body]
pub(crate) fn pile_get(p: &CardVec, i: usize) -> (r: Card)
    requires
        i < pile_cards(*p).len(),
    ensures
        r == pile_cards(*p)[i as int],
{
    p[i]
}

/// Relies on ArrayVec::push, which panics only on a full vector.
#[verifier::external_body]
pub(crate) fn pile_push(p: &mut CardVec, c: Card)
    requires
        pile_cards(*old(p)).len() < 54,
    ensures
        pile_cards(*final(p)) == pile_cards(*old(p)).push(c),
{
    p.push(c)
}

/// Relies on ArrayVec::pop: the last card, if any, leaves the pile.
#[verifier::external_body]
pub(crate) fn pile_pop(p: &mut CardVec) -> (r: Option<Card>)
    ensures
        pile_cards(*old(p)).len() == 0 ==> r is None && pile_cards(*final(p)) == pile_cards(
            *old(p),
        ),
        pile_cards(*old(p)).len() > 0 ==> r == Some(pile_cards(*old(p)).last()) && pile_cards(
            *final(p),
        ) == pile_cards(*old(p)).drop_last(),
{
    p.pop()
}

/// Relies on ArrayVec::insert at position 0, which shifts every card up.
#[verifier::external_body]
pub(crate) fn pile_insert_bottom(p: &mut CardVec, c: Card)
    requires
        pile_cards(*old(p)).len() < 54,
    ensures
        pile_cards(*final(p)) == seq![c] + pile_cards(*old(p)),
{
    p.insert(0, c)
}

/// Relies on ArrayVec::clear: the pile becomes empty.
#[verifier::external_body]
pub(crate) fn pile_clear(p: &mut CardVec)
    ensures
        pile_cards(*final(p)) == Seq::<Card>::empty(),
{
    p.clear()
}

/// Relies on ArrayVec::new: an empty vector.
#[verifier::external_body]
pub(crate) fn castle_new() -> (r: CastleDeck)
    ensures
        castle_enemies(r) == Seq::<Enemy>::empty(),
{
    ArrayVec::new()
}

/// Relies on ArrayVec::len, which never exceeds the capacity.
#[verifier::external_body]
pub(crate) fn castle_len(c: &CastleDeck) -> (r: usize)
    ensures
        r == castle_enemies(*c).len(),
        r <= 12,
{
    c.len()
}

/// Relies on indexing an ArrayVec (through its slice).
#[verifier::external_body]
pub(crate) fn castle_get(c: &CastleDeck, i: usize) -> (r: Enemy)
    requires
        i < castle_enemies(*c).len(),
    ensures
        r == castle_enemies(*c)[i as int],
{
    c[i]
}

/// Relies on ArrayVec::push, which panics only on a full vector.
#[verifier::external_body]
pub(crate) fn castle_push(c: &mut CastleDeck, e: Enemy)
    requires
        castle_enemies(*old(c)).len() < 12,
    ensures
        castle_enemies(*final(c)) == castle_enemies(*old(c)).push(e),
{
    c.push(e)
}

/// Relies on ArrayVec::pop: the top enemy, if any, leaves the deck.
#[verifier::external_body]
pub(crate) fn castle_pop(c: &mut CastleDeck) -> (r: Option<Enemy>)
    ensures
        castle_enemies(*old(c)).len() == 0 ==> r is None && castle_enemies(*final(c))
            == castle_enemies(*old(c)),
        castle_enemies(*old(c)).len() > 0 ==> r == Some(castle_enemies(*old(c)).last())
            && castle_enemies(*final(c)) == castle_enemies(*old(c)).drop_last(),
        castle_enemies(*old(c)).len() <= 12,
{
    c.pop()
}

/// The number of cards in a hand.
pub fn hand_size(h: &Hand) -> (r: usize)
    ensures
        r == hand_cards(*h).len(),
        r <= MAX_HAND_SIZE,
{
    hand_len(h)
}

/// The number of cards in a pile.
pub fn pile_size(p: &CardVec) -> (r: usize)
    ensures
        r == pile_cards(*p).len(),
        r <= PILE_CAPACITY,
{
    pile_len(p)
}

/// The number of enemies in a castle deck.
pub fn castle_size(c: &CastleDeck) -> (r: usize)
    ensures
        r == castle_enemies(*c).len(),
        r <= 12,
{
    castle_len(c)
}

/// A copy of a hand with the same cards.
pub(crate) fn hand_copy(h: &Hand) -> (r: Hand)
    ensures
        hand_cards(r) == hand_cards(*h),
{
    let mut r = hand_new();
    let n = hand_len(h);
    let mut i: usize = 0;
    while i < n
        invariant
            n == hand_cards(*h).len(),
            n <= 8,
            i <= n,
            hand_cards(r) == hand_cards(*h).take(i as int),
        decreases n - i,
    {
        let c = hand_get(h, i);
        hand_push(&mut r, c);
        assert(hand_cards(*h).take(i + 1) =~= hand_cards(*h).take(i as int).push(c));
        i += 1;
    }
    assert(hand_cards(*h).take(n as int) =~= hand_cards(*h));
    r
}

/// A copy of a combo with the same cards.
pub(crate) fn combo_copy(c: &ComboCards) -> (r: ComboCards)
    ensures
        combo_cards(r) == combo_cards(*c),
{
    let mut r = combo_new();
    let n = combo_len(c);
    let mut i: usize = 0;
    while i < n
        invariant
            n == combo_cards(*c).len(),
            n <= 4,
            i <= n,
            combo_cards(r) == combo_cards(*c).take(i as int),
        decreases n - i,
    {
        let x = combo_get(c, i);
        combo_push(&mut r, x);
        assert(combo_cards(*c).take(i + 1) =~= combo_cards(*c).take(i as int).push(x));
        i += 1;
    }
    assert(combo_cards(*c).take(n as int) =~= combo_cards(*c));
    r
}

/// A copy of a pile with the same cards in the same order.
pub(crate) fn pile_copy(p: &CardVec) -> (r: CardVec)
    ensures
        pile_cards(r) == pile_cards(*p),
{
    let mut r = pile_new();
    let n = pile_len(p);
    let mut i: usize = 0;
    while i < n
        invariant
            n == pile_cards(*p).len(),
            n <= 54,
            i <= n,
            pile_cards(r) == pile_cards(*p).take(i as int),
        decreases n - i,
    {
        let x = pile_get(p, i);
        pile_push(&mut r, x);
        assert(pile_cards(*p).take(i + 1) =~= pile_cards(*p).take(i as int).push(x));
        i += 1;
    }
    assert(pile_cards(*p).take(n as int) =~= pile_cards(*p));
    r
}

/// A copy of a castle deck with the same enemies in the same order.
pub(crate) fn castle_copy(c: &CastleDeck) -> (r: CastleDeck)
    ensures
        castle_enemies(r) == castle_enemies(*c),
{
    let mut r = castle_new();
    let n = castle_len(c);
    let mut i: usize = 0;
    while i < n
        invariant
            n == castle_enemies(*c).len(),
            n <= 12,
            i <= n,
            castle_enemies(r) == castle_enemies(*c).take(i as int),
        decreases n - i,
    {
        let x = castle_get(c, i);
        castle_push(&mut r, x);
        assert(castle_enemies(*c).take(i + 1) =~= castle_enemies(*c).take(i as int).push(x));
        i += 1;
    }
    assert(castle_enemies(*c).take(n as int) =~= castle_enemies(*c));
    r
}

} // verus!
