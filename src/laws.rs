//! Properties of the rules that relate several calls or hold of every state.
use crate::actions::views;
use crate::game::{Action, ActionView, GameResult, GameStatus};
use crate::state::{is_action_space, is_outcome, State};
use crate::table::{enemy_cards, in_tier_order, tier_rank};
use vstd::prelude::*;

verus! {

/// Card conservation: a legal action on a well-formed game keeps every card
/// of the deck in play exactly once (in the castle, the tavern deck, the
/// discard pile, the attack pile or a hand), with the same players.
pub proof fn card_conservation(s: State, a: ActionView, r: GameStatus)
    requires
        s.wf(),
        s.is_legal(a),
        is_outcome(s, a, r),
    ensures
        r matches GameStatus::InProgress(t) ==> t.wf() && t.all_cards() == s.all_cards()
            && t.n_players() == s.n_players(),
{
}

/// Yields in a row: a yield that is not the last of a full round raises the
/// count of consecutive yields by one, and the yield that completes a round
/// (every player having yielded in turn) loses the game at its current level.
pub proof fn consecutive_yields_lose(s: State, r: GameStatus)
    requires
        s.inv(),
        is_outcome(s, ActionView::Yield, r),
    ensures
        s.times_yielded + 1 == s.n_players() ==> r == GameStatus::HasEnded(
            GameResult::Lost(s.level),
        ),
        s.times_yielded + 1 < s.n_players() ==> (r matches GameStatus::InProgress(t)
            ==> t.times_yielded == s.times_yielded + 1),
{
}

/// The yield count counts the yields since the last play: a play or a
/// Jester's choice resets it, a yield raises it, and a discard or a refill
/// leaves it. With the law above, a round in which every player yields in
/// turn, with only discards between the yields, ends in a loss.
pub proof fn yield_count_tracks_yields(s: State, a: ActionView, r: GameStatus)
    requires
        s.inv(),
        is_outcome(s, a, r),
    ensures
        r matches GameStatus::InProgress(t) ==> {
            &&& ((a is Play || a is AnimalCombo || a is Combo || a is ChangePlayer) ==> t.times_yielded == 0)
            &&& (a is Yield ==> t.times_yielded == s.times_yielded + 1)
            &&& ((a is Discard || a is RefillHand) ==> t.times_yielded == s.times_yielded)
        },
{
}

/// The castle deck stays in tier order, Kings below Queens below Jacks: an
/// action only turns up the next enemy or changes the current one in place.
pub proof fn tier_order_kept(s: State, a: ActionView, r: GameStatus)
    requires
        s.inv(),
        in_tier_order(enemy_cards(s.table.castle())),
        is_outcome(s, a, r),
    ensures
        r matches GameStatus::InProgress(t) ==> in_tier_order(enemy_cards(t.table.castle())),
{
    if r is InProgress {
        let t = r->InProgress_0;
        let c = enemy_cards(s.table.castle());
        if enemy_cards(t.table.castle()) == c.drop_last() {
            assert forall|i: int, j: int| 0 <= i < j < c.drop_last().len() implies tier_rank(
                #[trigger] c.drop_last()[i].value,
            ) <= tier_rank(#[trigger] c.drop_last()[j].value) by {
                assert(c.drop_last()[i] == c[i] && c.drop_last()[j] == c[j]);
            }
        }
    }
}

/// Listing the actions of a state twice gives the same set of actions.
pub proof fn action_space_is_pure(s: State, r1: Seq<Action>, r2: Seq<Action>)
    requires
        is_action_space(s, r1),
        is_action_space(s, r2),
    ensures
        views(r1).to_set() == views(r2).to_set(),
{
    assert(views(r1).to_set() =~= views(r2).to_set());
}

} // verus!
