//! The actions a player may choose from, by what the turn asks for.
use crate::card::{
    attack, is_combo_rank, lemma_sum_attack_bound, lemma_sum_attack_push, suit_outranks,
    sum_attack, Card, CardValue,
};
use crate::fixed::{
    combo_cards, combo_new, combo_push, hand_cards, hand_get, hand_len, hand_new, hand_push,
    ComboCards, Hand,
};
use crate::game::{Action, ActionView};
use crate::subsets::{index_combinations, is_index_combo};
use vstd::multiset::Multiset;
use vstd::prelude::*;

verus! {

broadcast use vstd::seq_lib::group_seq_properties;

/// The views of a list of actions.
pub open spec fn views(r: Seq<Action>) -> Seq<ActionView> {
    r.map_values(|a: Action| a@)
}

/// The cards of `h` at the positions `idx`.
pub open spec fn pick(h: Seq<Card>, idx: Seq<usize>) -> Seq<Card> {
    idx.map_values(|j: usize| h[j as int])
}

/// Two to four cards of one rank between Two and Five, worth at most ten.
pub open spec fn is_combo(cs: Seq<Card>) -> bool {
    &&& 2 <= cs.len() <= 4
    &&& forall|t: int| 0 <= t < cs.len() ==> is_combo_rank(#[trigger] cs[t].value)
    &&& forall|t: int| 0 <= t < cs.len() ==> (#[trigger] cs[t]).value == cs[0].value
    &&& sum_attack(cs) <= 10
}

/// An Ace with one other card that is not a Jester; two Aces are listed once,
/// the higher suit first.
pub open spec fn is_animal_pair(c1: Card, c2: Card) -> bool {
    &&& c1.value == CardValue::Ace
    &&& c2.value != CardValue::Jester
    &&& c2.value == CardValue::Ace ==> suit_outranks(c1.suit, c2.suit)
}

/// The cards at some distinct positions of `h`, in the order of the hand.
pub open spec fn is_sub_hand(h: Seq<Card>, cs: Seq<Card>) -> bool {
    exists|idx: Seq<usize>| is_index_combo(idx, h.len(), idx.len()) && cs == pick(h, idx)
}

/// What may be played from hand `h` when cards are to be played.
pub open spec fn is_attack_action(h: Seq<Card>, a: ActionView) -> bool {
    match a {
        ActionView::Play(c) => h.contains(c),
        ActionView::AnimalCombo(c1, c2) => h.contains(c1) && h.contains(c2) && is_animal_pair(
            c1,
            c2,
        ),
        ActionView::Combo(cs) => is_sub_hand(h, cs) && is_combo(cs),
        ActionView::Yield => true,
        _ => false,
    }
}

/// What may be discarded from hand `h` to absorb `amount` damage: any
/// nonempty choice of cards worth at least that much.
pub open spec fn is_discard_action(h: Seq<Card>, amount: int, a: ActionView) -> bool {
    match a {
        ActionView::Discard(cs) => cs.len() >= 1 && is_sub_hand(h, cs) && sum_attack(cs) >= amount,
        _ => false,
    }
}

/// Adding an action that is not listed keeps a list free of repeats.
pub proof fn lemma_push_new(s: Seq<ActionView>, x: ActionView)
    requires
        s.no_duplicates(),
        !s.contains(x),
    ensures
        s.push(x).no_duplicates(),
{
    assert forall|i: int, j: int| 0 <= i < j < s.push(x).len() implies s.push(x)[i] != s.push(x)[j] by {
        if j == s.len() {
            assert(s.contains(s[i]));
        }
    }
}

/// Distinct positions of a hand without repeated cards hold distinct cards.
pub proof fn lemma_pick_injective(hs: Seq<Card>, c1: Seq<usize>, c2: Seq<usize>)
    requires
        hs.no_duplicates(),
        is_index_combo(c1, hs.len(), c1.len()),
        is_index_combo(c2, hs.len(), c2.len()),
        pick(hs, c1) == pick(hs, c2),
    ensures
        c1 == c2,
{
    assert(c1.len() == pick(hs, c1).len());
    assert forall|t: int| 0 <= t < c1.len() implies c1[t] == c2[t] by {
        assert(pick(hs, c1)[t] == pick(hs, c2)[t]);
        assert(pick(hs, c1)[t] == hs[c1[t] as int]);
        assert(pick(hs, c2)[t] == hs[c2[t] as int]);
        assert(c1[t] < hs.len() && c2[t] < hs.len());
        if c1[t] != c2[t] {
            assert(hs[c1[t] as int] != hs[c2[t] as int]);
        }
    }
    assert(c1 =~= c2);
}

/// `a` is a combo or a discard (`discard`) of the cards at positions
/// listed before: fewer than `k` of them, or `k` listed in `done`.
pub open spec fn picked_before(hs: Seq<Card>, a: ActionView, k: int, done: Seq<Seq<usize>>, discard: bool) -> bool {
    exists|idx: Seq<usize>| #![trigger pick(hs, idx)]
        is_index_combo(idx, hs.len(), idx.len())
        && a == (if discard { ActionView::Discard(pick(hs, idx)) } else { ActionView::Combo(pick(hs, idx)) })
        && (idx.len() < k || (idx.len() == k && done.contains(idx)))
}

pub proof fn lemma_picked_more(hs: Seq<Card>, a: ActionView, k: int, d1: Seq<Seq<usize>>, d2: Seq<Seq<usize>>, discard: bool)
    requires
        picked_before(hs, a, k, d1, discard),
        forall|idx: Seq<usize>| d1.contains(idx) ==> d2.contains(idx),
    ensures
        picked_before(hs, a, k, d2, discard),
{
    let idx = choose|idx: Seq<usize>| #![trigger pick(hs, idx)]
        is_index_combo(idx, hs.len(), idx.len())
        && a == (if discard { ActionView::Discard(pick(hs, idx)) } else { ActionView::Combo(pick(hs, idx)) })
        && (idx.len() < k || (idx.len() == k && d1.contains(idx)));
    assert(is_index_combo(idx, hs.len(), idx.len()));
}

pub proof fn lemma_picked_next(hs: Seq<Card>, a: ActionView, k: int, d: Seq<Seq<usize>>, discard: bool)
    requires
        picked_before(hs, a, k, d, discard),
    ensures
        picked_before(hs, a, k + 1, Seq::empty(), discard),
{
    let idx = choose|idx: Seq<usize>| #![trigger pick(hs, idx)]
        is_index_combo(idx, hs.len(), idx.len())
        && a == (if discard { ActionView::Discard(pick(hs, idx)) } else { ActionView::Combo(pick(hs, idx)) })
        && (idx.len() < k || (idx.len() == k && d.contains(idx)));
    assert(is_index_combo(idx, hs.len(), idx.len()));
}

/// A choice of positions not listed before gives an action not listed yet.
pub proof fn lemma_picked_fresh(hs: Seq<Card>, r: Seq<ActionView>, c: Seq<usize>, k: int, d: Seq<Seq<usize>>, discard: bool)
    requires
        hs.no_duplicates(),
        forall|q: int| 0 <= q < r.len() ==> picked_before(hs, #[trigger] r[q], k, d, discard),
        is_index_combo(c, hs.len(), c.len()),
        c.len() == k,
        !d.contains(c),
    ensures
        !r.contains(if discard { ActionView::Discard(pick(hs, c)) } else { ActionView::Combo(pick(hs, c)) }),
{
    let a = if discard { ActionView::Discard(pick(hs, c)) } else { ActionView::Combo(pick(hs, c)) };
    if r.contains(a) {
        let q = choose|q: int| 0 <= q < r.len() && r[q] == a;
        assert(picked_before(hs, r[q], k, d, discard));
        let idx = choose|idx: Seq<usize>| #![trigger pick(hs, idx)]
            is_index_combo(idx, hs.len(), idx.len())
            && r[q] == (if discard { ActionView::Discard(pick(hs, idx)) } else { ActionView::Combo(pick(hs, idx)) })
            && (idx.len() < k || (idx.len() == k && d.contains(idx)));
        lemma_pick_injective(hs, idx, c);
    }
}

/// `a` pairs the cards at positions `(x, y)` of `hs` that come before
/// `(i, j)`, first position first.
pub open spec fn paired_before(hs: Seq<Card>, a: ActionView, i: int, j: int) -> bool {
    exists|x: int, y: int| 0 <= x < hs.len() && 0 <= y < hs.len() && (x < i || (x == i && y < j))
        && a == ActionView::AnimalCombo(hs[x], hs[y])
}

/// The number of cards a discard action discards.
pub open spec fn discard_size(a: ActionView) -> int {
    match a {
        ActionView::Discard(cs) => cs.len() as int,
        _ => 0,
    }
}

/// The positions of a list of combinations.
pub open spec fn combo_views(v: Seq<Vec<usize>>) -> Seq<Seq<usize>> {
    v.map_values(|c: Vec<usize>| c@)
}

pub proof fn lemma_combo_len(c: Seq<usize>, n: nat, k: nat)
    requires
        is_index_combo(c, n, k),
    ensures
        k <= n,
{
    if k > 0 {
        assert forall|t: int| 0 <= t < c.len() implies c[t] >= t by {
            lemma_combo_floor(c, n, k, t);
        }
        assert(c[k - 1] >= k - 1);
    }
}

proof fn lemma_combo_floor(c: Seq<usize>, n: nat, k: nat, t: int)
    requires
        is_index_combo(c, n, k),
        0 <= t < c.len(),
    ensures
        c[t] >= t,
    decreases t,
{
    if t > 0 {
        lemma_combo_floor(c, n, k, t - 1);
        assert(c[t - 1] < c[t]);
    }
}

/// The cards of `h` at the positions `idx`, as a hand.
fn pick_hand(h: &Hand, idx: &Vec<usize>) -> (r: Hand)
    requires
        is_index_combo(idx@, hand_cards(*h).len(), idx@.len()),
    ensures
        hand_cards(r) == pick(hand_cards(*h), idx@),
{
    let n = hand_len(h);
    proof {
        lemma_combo_len(idx@, n as nat, idx@.len());
    }
    let mut r = hand_new();
    let mut t: usize = 0;
    while t < idx.len()
        invariant
            n == hand_cards(*h).len(),
            idx@.len() <= n <= 8,
            is_index_combo(idx@, n as nat, idx@.len()),
            t <= idx@.len(),
            hand_cards(r) == pick(hand_cards(*h), idx@.take(t as int)),
        decreases idx@.len() - t,
    {
        let c = hand_get(h, idx[t]);
        hand_push(&mut r, c);
        assert(pick(hand_cards(*h), idx@.take(t + 1)) =~= pick(hand_cards(*h), idx@.take(t as int)).push(c));
        t += 1;
    }
    assert(idx@.take(idx@.len() as int) =~= idx@);
    r
}

/// The cards of `h` at the positions `idx` (at most four), as a combo.
fn pick_combo(h: &Hand, idx: &Vec<usize>) -> (r: ComboCards)
    requires
        is_index_combo(idx@, hand_cards(*h).len(), idx@.len()),
        idx@.len() <= 4,
    ensures
        combo_cards(r) == pick(hand_cards(*h), idx@),
{
    let n = hand_len(h);
    let mut r = combo_new();
    let mut t: usize = 0;
    while t < idx.len()
        invariant
            n == hand_cards(*h).len(),
            idx@.len() <= 4,
            is_index_combo(idx@, n as nat, idx@.len()),
            t <= idx@.len(),
            combo_cards(r) == pick(hand_cards(*h), idx@.take(t as int)),
        decreases idx@.len() - t,
    {
        let c = hand_get(h, idx[t]);
        combo_push(&mut r, c);
        assert(pick(hand_cards(*h), idx@.take(t + 1)) =~= pick(hand_cards(*h), idx@.take(t as int)).push(c));
        t += 1;
    }
    assert(idx@.take(idx@.len() as int) =~= idx@);
    r
}

/// `true` when the cards of `h` at `idx` make a combo.
fn picks_combo(h: &Hand, idx: &Vec<usize>) -> (r: bool)
    requires
        is_index_combo(idx@, hand_cards(*h).len(), idx@.len()),
    ensures
        r == is_combo(pick(hand_cards(*h), idx@)),
{
    let k = idx.len();
    if k < 2 || k > 4 {
        return false;
    }
    let ghost cs = pick(hand_cards(*h), idx@);
    let first = hand_get(h, idx[0]);
    let low = match first.value {
        CardValue::Two | CardValue::Three | CardValue::Four | CardValue::Five => true,
        _ => false,
    };
    if !low {
        return false;
    }
    let mut sum: u16 = 0;
    let mut t: usize = 0;
    while t < k
        invariant
            k == idx@.len(),
            2 <= k <= 4,
            is_index_combo(idx@, hand_cards(*h).len(), idx@.len()),
            cs == pick(hand_cards(*h), idx@),
            first == cs[0],
            is_combo_rank(first.value),
            t <= k,
            forall|u: int| 0 <= u < t ==> (#[trigger] cs[u]).value == first.value,
            sum == sum_attack(cs.take(t as int)),
        decreases k - t,
    {
        let c = hand_get(h, idx[t]);
        if c.value != first.value {
            assert(cs[t as int] == c);
            return false;
        }
        proof {
            lemma_sum_attack_push(cs.take(t as int), c);
            assert(cs.take(t + 1) =~= cs.take(t as int).push(c));
            lemma_sum_attack_bound(cs.take(t + 1));
        }
        sum = sum + c.attack_value();
        t += 1;
    }
    assert(cs.take(k as int) =~= cs);
    sum <= 10
}

/// Every card of the hand played alone.
pub fn play_actions(h: &Hand) -> (r: Vec<Action>)
    ensures
        forall|a: ActionView| #[trigger] views(r@).contains(a) <==> (a is Play && is_attack_action(hand_cards(*h), a)),
        hand_cards(*h).no_duplicates() ==> views(r@).no_duplicates(),
{
    let n = hand_len(h);
    let mut r: Vec<Action> = Vec::new();
    let mut i: usize = 0;
    while i < n
        invariant
            n == hand_cards(*h).len(),
            i <= n,
            forall|a: ActionView| views(r@).contains(a) <==> (a matches ActionView::Play(c) && hand_cards(*h).take(i as int).contains(c)),
            hand_cards(*h).no_duplicates() ==> views(r@).no_duplicates(),
        decreases n - i,
    {
        let c = hand_get(h, i);
        let ghost before = r@;
        proof {
            if hand_cards(*h).no_duplicates() {
                if views(before).contains(ActionView::Play(c)) {
                    let j = choose|j: int| 0 <= j < i && hand_cards(*h).take(i as int)[j] == c;
                    assert(hand_cards(*h)[j] == hand_cards(*h)[i as int]);
                }
                lemma_push_new(views(before), ActionView::Play(c));
            }
        }
        r.push(Action::Play(c));
        proof {
            assert(views(r@) =~= views(before).push(ActionView::Play(c)));
            assert(hand_cards(*h).take(i + 1) =~= hand_cards(*h).take(i as int).push(c));
        }
        i += 1;
    }
    assert(hand_cards(*h).take(n as int) =~= hand_cards(*h));
    r
}

/// Every Ace paired with another card of the hand that is not a Jester; two
/// Aces are paired once, the higher suit first.
pub fn animal_actions(h: &Hand) -> (r: Vec<Action>)
    ensures
        forall|a: ActionView| #[trigger] views(r@).contains(a) <==> (a is AnimalCombo && is_attack_action(hand_cards(*h), a)),
        hand_cards(*h).no_duplicates() ==> views(r@).no_duplicates(),
{
    let n = hand_len(h);
    let ghost hs = hand_cards(*h);
    let mut r: Vec<Action> = Vec::new();
    let mut i: usize = 0;
    while i < n
        invariant
            n == hs.len(),
            hs == hand_cards(*h),
            i <= n,
            forall|a: ActionView| #[trigger] views(r@).contains(a) ==> (a is AnimalCombo && is_attack_action(hs, a)),
            forall|x: int, y: int| 0 <= x < i && 0 <= y < n && #[trigger] is_animal_pair(hs[x], hs[y]) ==> views(r@).contains(ActionView::AnimalCombo(hs[x], hs[y])),
            hs.no_duplicates() ==> views(r@).no_duplicates(),
            forall|q: int| 0 <= q < views(r@).len() ==> paired_before(hs, #[trigger] views(r@)[q], i as int, 0),
        decreases n - i,
    {
        let c1 = hand_get(h, i);
        let mut j: usize = 0;
        while j < n
            invariant
                n == hs.len(),
                hs == hand_cards(*h),
                i < n,
                c1 == hs[i as int],
                j <= n,
                forall|a: ActionView| #[trigger] views(r@).contains(a) ==> (a is AnimalCombo && is_attack_action(hs, a)),
                forall|x: int, y: int| 0 <= x < i && 0 <= y < n && #[trigger] is_animal_pair(hs[x], hs[y]) ==> views(r@).contains(ActionView::AnimalCombo(hs[x], hs[y])),
                forall|y: int| 0 <= y < j && #[trigger] is_animal_pair(c1, hs[y]) ==> views(r@).contains(ActionView::AnimalCombo(c1, hs[y])),
                hs.no_duplicates() ==> views(r@).no_duplicates(),
                forall|q: int| 0 <= q < views(r@).len() ==> paired_before(hs, #[trigger] views(r@)[q], i as int, j as int),
            decreases n - j,
        {
            let c2 = hand_get(h, j);
            let pair = c1.value == CardValue::Ace && c2.value != CardValue::Jester && (
            c2.value != CardValue::Ace || c1.suit.outranks(&c2.suit));
            proof {
                assert forall|q: int| 0 <= q < views(r@).len() implies paired_before(hs, #[trigger] views(r@)[q], i as int, j + 1) by {
                    let (x, y) = choose|x: int, y: int| 0 <= x < hs.len() && 0 <= y < hs.len() && (x < i || (x == i && y < j))
                        && views(r@)[q] == ActionView::AnimalCombo(hs[x], hs[y]);
                    assert(0 <= x < hs.len() && 0 <= y < hs.len() && (x < i || (x == i && y < j + 1))
                        && views(r@)[q] == ActionView::AnimalCombo(hs[x], hs[y]));
                }
            }
            if pair {
                let ghost before = r@;
                proof {
                    let na = ActionView::AnimalCombo(c1, c2);
                    if hs.no_duplicates() {
                        if views(before).contains(na) {
                            let q = choose|q: int| 0 <= q < views(before).len() && views(before)[q] == na;
                            assert(paired_before(hs, views(before)[q], i as int, j as int));
                            let (x, y) = choose|x: int, y: int| 0 <= x < hs.len() && 0 <= y < hs.len() && (x < i || (x == i && y < j))
                                && views(before)[q] == ActionView::AnimalCombo(hs[x], hs[y]);
                            assert(hs[x] == hs[i as int] && hs[y] == hs[j as int]);
                        }
                        lemma_push_new(views(before), na);
                    }
                }
                r.push(Action::AnimalCombo(c1, c2));
                proof {
                    assert(views(r@) =~= views(before).push(ActionView::AnimalCombo(c1, c2)));
                    assert(hs.contains(c1)) by { assert(hs[i as int] == c1); }
                    assert(hs.contains(c2)) by { assert(hs[j as int] == c2); }
                    assert(paired_before(hs, ActionView::AnimalCombo(c1, c2), i as int, j + 1));
                }
            }
            j += 1;
        }
        proof {
            assert forall|q: int| 0 <= q < views(r@).len() implies paired_before(hs, #[trigger] views(r@)[q], i + 1, 0) by {
                let (x, y) = choose|x: int, y: int| 0 <= x < hs.len() && 0 <= y < hs.len() && (x < i || (x == i && y < n))
                    && views(r@)[q] == ActionView::AnimalCombo(hs[x], hs[y]);
                assert(0 <= x < hs.len() && 0 <= y < hs.len() && (x < i + 1 || (x == i + 1 && y < 0))
                    && views(r@)[q] == ActionView::AnimalCombo(hs[x], hs[y]));
            }
        }
        i += 1;
    }
    proof {
        assert forall|a: ActionView| (a is AnimalCombo && is_attack_action(hs, a)) implies views(r@).contains(a) by {
            if let ActionView::AnimalCombo(c1, c2) = a {
                let x = choose|x: int| 0 <= x < hs.len() && hs[x] == c1;
                let y = choose|y: int| 0 <= y < hs.len() && hs[y] == c2;
                assert(is_animal_pair(hs[x], hs[y]));
            }
        }
    }
    r
}

/// Every combo of two to four cards of one rank from Two to Five, worth at
/// most ten in all.
pub fn combo_actions(h: &Hand) -> (r: Vec<Action>)
    ensures
        forall|a: ActionView| #[trigger] views(r@).contains(a) <==> (a is Combo && is_attack_action(hand_cards(*h), a)),
        hand_cards(*h).no_duplicates() ==> views(r@).no_duplicates(),
{
    let n = hand_len(h);
    let ghost hs = hand_cards(*h);
    let mut r: Vec<Action> = Vec::new();
    let mut k: usize = 2;
    while k <= 4
        invariant
            n == hs.len(),
            hs == hand_cards(*h),
            2 <= k <= 5,
            forall|a: ActionView| #[trigger] views(r@).contains(a) ==> (a is Combo && is_attack_action(hs, a)),
            forall|idx: Seq<usize>| #[trigger] is_index_combo(idx, n as nat, idx.len()) && idx.len() < k && is_combo(pick(hs, idx)) ==> views(r@).contains(ActionView::Combo(pick(hs, idx))),
            hs.no_duplicates() ==> views(r@).no_duplicates(),
            forall|q: int| 0 <= q < views(r@).len() ==> picked_before(hs, #[trigger] views(r@)[q], k as int, Seq::empty(), false),
        decreases 5 - k,
    {
        let combos = index_combinations(n, k);
        let mut i: usize = 0;
        while i < combos.len()
            invariant
                n == hs.len(),
                hs == hand_cards(*h),
                2 <= k <= 4,
                i <= combos@.len(),
                forall|x: int| 0 <= x < combos@.len() ==> is_index_combo(#[trigger] combos@[x]@, n as nat, k as nat),
                forall|a: ActionView| #[trigger] views(r@).contains(a) ==> (a is Combo && is_attack_action(hs, a)),
                forall|idx: Seq<usize>| #[trigger] is_index_combo(idx, n as nat, idx.len()) && idx.len() < k && is_combo(pick(hs, idx)) ==> views(r@).contains(ActionView::Combo(pick(hs, idx))),
                forall|x: int| 0 <= x < i && is_combo(pick(hs, #[trigger] combos@[x]@)) ==> views(r@).contains(ActionView::Combo(pick(hs, combos@[x]@))),
                forall|x: int, y: int| 0 <= x < y < combos@.len() ==> combos@[x]@ != combos@[y]@,
                hs.no_duplicates() ==> views(r@).no_duplicates(),
                forall|q: int| 0 <= q < views(r@).len() ==> picked_before(hs, #[trigger] views(r@)[q], k as int, combo_views(combos@).take(i as int), false),
            decreases combos@.len() - i,
        {
            let idx = &combos[i];
            assert(is_index_combo(combos@[i as int]@, n as nat, k as nat));
            let ghost cv = combo_views(combos@);
            proof {
                assert(cv[i as int] == combos@[i as int]@);
                assert forall|q: int| 0 <= q < views(r@).len() implies picked_before(hs, #[trigger] views(r@)[q], k as int, cv.take(i + 1), false) by {
                    assert forall|c: Seq<usize>| cv.take(i as int).contains(c) implies cv.take(i + 1).contains(c) by {
                        let x = choose|x: int| 0 <= x < i && cv.take(i as int)[x] == c;
                        assert(cv.take(i + 1)[x] == c);
                    }
                    lemma_picked_more(hs, views(r@)[q], k as int, cv.take(i as int), cv.take(i + 1), false);
                }
                assert(cv.take(i + 1)[i as int] == cv[i as int]);
            }
            if picks_combo(h, idx) {
                let cs = pick_combo(h, idx);
                let ghost before = r@;
                proof {
                    if hs.no_duplicates() {
                        if cv.take(i as int).contains(cv[i as int]) {
                            let x = choose|x: int| 0 <= x < i && cv.take(i as int)[x] == cv[i as int];
                            assert(combos@[x]@ == combos@[i as int]@);
                        }
                        lemma_picked_fresh(hs, views(before), cv[i as int], k as int, cv.take(i as int), false);
                        lemma_push_new(views(before), ActionView::Combo(combo_cards(cs)));
                    }
                }
                r.push(Action::Combo(cs));
                proof {
                    assert(views(r@) =~= views(before).push(ActionView::Combo(combo_cards(cs))));
                    assert(is_sub_hand(hs, combo_cards(cs)));
                    assert(picked_before(hs, views(r@)[views(before).len() as int], k as int, cv.take(i + 1), false));
                }
            }
            i += 1;
        }
        proof {
            assert forall|idx: Seq<usize>| #[trigger] is_index_combo(idx, n as nat, idx.len()) && idx.len() < k + 1 && is_combo(pick(hs, idx)) implies views(r@).contains(ActionView::Combo(pick(hs, idx))) by {
                if idx.len() == k {
                    let x = choose|x: int| 0 <= x < combos@.len() && #[trigger] combos@[x]@ == idx;
                }
            }
            assert forall|q: int| 0 <= q < views(r@).len() implies picked_before(hs, #[trigger] views(r@)[q], k + 1, Seq::empty(), false) by {
                lemma_picked_next(hs, views(r@)[q], k as int, combo_views(combos@).take(combos@.len() as int), false);
            }
        }
        k += 1;
    }
    proof {
        assert forall|a: ActionView| (a is Combo && is_attack_action(hs, a)) implies views(r@).contains(a) by {
            if let ActionView::Combo(cs) = a {
                let idx = choose|idx: Seq<usize>| is_index_combo(idx, hs.len(), idx.len()) && cs == pick(hs, idx);
                assert(is_index_combo(idx, n as nat, idx.len()));
            }
        }
    }
    r
}

/// Every nonempty choice of cards from the hand worth at least `amount`,
/// smaller choices first.
pub fn discard_actions(h: &Hand, amount: u8) -> (r: Vec<Action>)
    ensures
        forall|a: ActionView| #[trigger] views(r@).contains(a) <==> is_discard_action(hand_cards(*h), amount as int, a),
        hand_cards(*h).no_duplicates() ==> views(r@).no_duplicates(),
        forall|p: int, q: int| 0 <= p < q < r@.len() ==> discard_size(views(r@)[p]) <= discard_size(views(r@)[q]),
{
    let n = hand_len(h);
    let ghost hs = hand_cards(*h);
    let mut r: Vec<Action> = Vec::new();
    let mut k: usize = 1;
    while k <= n
        invariant
            n == hs.len(),
            n <= 8,
            hs == hand_cards(*h),
            1 <= k <= n + 1,
            forall|a: ActionView| #[trigger] views(r@).contains(a) ==> is_discard_action(hs, amount as int, a),
            forall|idx: Seq<usize>| #[trigger] is_index_combo(idx, n as nat, idx.len()) && 1 <= idx.len() < k && sum_attack(pick(hs, idx)) >= amount ==> views(r@).contains(ActionView::Discard(pick(hs, idx))),
            hs.no_duplicates() ==> views(r@).no_duplicates(),
            forall|q: int| 0 <= q < views(r@).len() ==> picked_before(hs, #[trigger] views(r@)[q], k as int, Seq::empty(), true),
            forall|q: int| 0 <= q < r@.len() ==> discard_size(#[trigger] views(r@)[q]) < k,
            forall|p: int, q: int| 0 <= p < q < r@.len() ==> discard_size(views(r@)[p]) <= discard_size(views(r@)[q]),
        decreases n + 1 - k,
    {
        let combos = index_combinations(n, k);
        let mut i: usize = 0;
        while i < combos.len()
            invariant
                n == hs.len(),
                hs == hand_cards(*h),
                1 <= k <= n,
                i <= combos@.len(),
                forall|x: int| 0 <= x < combos@.len() ==> is_index_combo(#[trigger] combos@[x]@, n as nat, k as nat),
                forall|a: ActionView| #[trigger] views(r@).contains(a) ==> is_discard_action(hs, amount as int, a),
                forall|idx: Seq<usize>| #[trigger] is_index_combo(idx, n as nat, idx.len()) && 1 <= idx.len() < k && sum_attack(pick(hs, idx)) >= amount ==> views(r@).contains(ActionView::Discard(pick(hs, idx))),
                forall|x: int| 0 <= x < i && sum_attack(pick(hs, #[trigger] combos@[x]@)) >= amount ==> views(r@).contains(ActionView::Discard(pick(hs, combos@[x]@))),
                forall|x: int, y: int| 0 <= x < y < combos@.len() ==> combos@[x]@ != combos@[y]@,
                hs.no_duplicates() ==> views(r@).no_duplicates(),
                forall|q: int| 0 <= q < views(r@).len() ==> picked_before(hs, #[trigger] views(r@)[q], k as int, combo_views(combos@).take(i as int), true),
                forall|q: int| 0 <= q < r@.len() ==> discard_size(#[trigger] views(r@)[q]) <= k,
                forall|p: int, q: int| 0 <= p < q < r@.len() ==> discard_size(views(r@)[p]) <= discard_size(views(r@)[q]),
            decreases combos@.len() - i,
        {
            let idx = &combos[i];
            assert(is_index_combo(combos@[i as int]@, n as nat, k as nat));
            let ghost cv = combo_views(combos@);
            proof {
                assert(cv[i as int] == combos@[i as int]@);
                assert forall|q: int| 0 <= q < views(r@).len() implies picked_before(hs, #[trigger] views(r@)[q], k as int, cv.take(i + 1), true) by {
                    assert forall|c: Seq<usize>| cv.take(i as int).contains(c) implies cv.take(i + 1).contains(c) by {
                        let x = choose|x: int| 0 <= x < i && cv.take(i as int)[x] == c;
                        assert(cv.take(i + 1)[x] == c);
                    }
                    lemma_picked_more(hs, views(r@)[q], k as int, cv.take(i as int), cv.take(i + 1), true);
                }
                assert(cv.take(i + 1)[i as int] == cv[i as int]);
            }
            let cards = pick_hand(h, idx);
            let value = crate::player::hand_attack_sum(&cards);
            if value >= amount as u16 {
                let ghost before = r@;
                let ghost cs = hand_cards(cards);
                proof {
                    if hs.no_duplicates() {
                        if cv.take(i as int).contains(cv[i as int]) {
                            let x = choose|x: int| 0 <= x < i && cv.take(i as int)[x] == cv[i as int];
                            assert(combos@[x]@ == combos@[i as int]@);
                        }
                        lemma_picked_fresh(hs, views(before), cv[i as int], k as int, cv.take(i as int), true);
                        lemma_push_new(views(before), ActionView::Discard(cs));
                    }
                }
                r.push(Action::Discard(cards));
                proof {
                    assert(views(r@) =~= views(before).push(ActionView::Discard(cs)));
                    assert(is_sub_hand(hs, cs));
                    assert(cs.len() == k);
                    assert(picked_before(hs, views(r@)[views(before).len() as int], k as int, cv.take(i + 1), true));
                }
            }
            i += 1;
        }
        proof {
            assert forall|idx: Seq<usize>| #[trigger] is_index_combo(idx, n as nat, idx.len()) && 1 <= idx.len() < k + 1 && sum_attack(pick(hs, idx)) >= amount implies views(r@).contains(ActionView::Discard(pick(hs, idx))) by {
                if idx.len() == k {
                    let x = choose|x: int| 0 <= x < combos@.len() && #[trigger] combos@[x]@ == idx;
                }
            }
            assert forall|q: int| 0 <= q < views(r@).len() implies picked_before(hs, #[trigger] views(r@)[q], k + 1, Seq::empty(), true) by {
                lemma_picked_next(hs, views(r@)[q], k as int, combo_views(combos@).take(combos@.len() as int), true);
            }
        }
        k += 1;
    }
    proof {
        assert forall|a: ActionView| is_discard_action(hs, amount as int, a) implies views(r@).contains(a) by {
            if let ActionView::Discard(cs) = a {
                let idx = choose|idx: Seq<usize>| is_index_combo(idx, hs.len(), idx.len()) && cs == pick(hs, idx);
                assert(is_index_combo(idx, n as nat, idx.len()));
                lemma_combo_len(idx, n as nat, idx.len());
            }
        }
    }
    r
}

/// A prefix of a sequence holds no more copies of any card than a longer prefix.
pub proof fn lemma_take_held(h: Seq<Card>, i: int, j: int)
    requires
        0 <= i <= j <= h.len(),
    ensures
        h.take(i).to_multiset().subset_of(h.take(j).to_multiset()),
    decreases j - i,
{
    broadcast use vstd::seq_lib::group_to_multiset_ensures;
    broadcast use vstd::multiset::group_multiset_axioms;

    if i < j {
        lemma_take_held(h, i, j - 1);
        assert(h.take(j) =~= h.take(j - 1).push(h[j - 1]));
    }
}

/// The cards at distinct positions of a hand are held by it.
pub proof fn lemma_pick_held(h: Seq<Card>, idx: Seq<usize>)
    requires
        is_index_combo(idx, h.len(), idx.len()),
    ensures
        crate::player::holds(h, pick(h, idx)),
    decreases idx.len(),
{
    broadcast use vstd::seq_lib::group_to_multiset_ensures;
    broadcast use vstd::multiset::group_multiset_axioms;

    if idx.len() > 0 {
        lemma_pick_prefix(h, idx);
        let last = idx.last() as int;
        lemma_take_held(h, last + 1, h.len() as int);
        assert(h.take(h.len() as int) =~= h);
    } else {
        assert(pick(h, idx).to_multiset() =~= Multiset::empty());
    }
}

/// The cards at distinct positions up to the last one come from the prefix
/// of the hand that ends there.
proof fn lemma_pick_prefix(h: Seq<Card>, idx: Seq<usize>)
    requires
        is_index_combo(idx, h.len(), idx.len()),
        idx.len() > 0,
    ensures
        pick(h, idx).to_multiset().subset_of(h.take(idx.last() + 1).to_multiset()),
    decreases idx.len(),
{
    broadcast use vstd::seq_lib::group_to_multiset_ensures;
    broadcast use vstd::multiset::group_multiset_axioms;

    let last = idx.last() as int;
    let rest = idx.drop_last();
    assert(pick(h, idx) =~= pick(h, rest).push(h[last]));
    assert(h.take(last + 1) =~= h.take(last).push(h[last]));
    if rest.len() > 0 {
        assert(is_index_combo(rest, h.len(), rest.len()));
        lemma_pick_prefix(h, rest);
        assert(rest.last() < last);
        lemma_take_held(h, rest.last() + 1, last);
    } else {
        assert(pick(h, rest).to_multiset() =~= Multiset::empty());
    }
}

} // verus!
