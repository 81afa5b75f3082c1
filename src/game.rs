use crate::card::Card;
use crate::fixed::{combo_cards, hand_cards, ComboCards, Hand};
use crate::player::PlayerId;
use crate::state::State;
use vstd::prelude::*;

verus! {

/// How a game ended. A loss carries the number of enemies defeated.
#[derive(Clone, Copy, PartialEq, Eq, Structural, Debug, Hash)]
pub enum GameResult {
    Won,
    Lost(u8),
}

/// Where a game stands after an action.
#[derive(Debug)]
pub enum GameStatus {
    InProgress(State),
    HasEnded(GameResult),
}

/// The errors a caller can recover from.
#[derive(Clone, Copy, PartialEq, Eq, Structural, Debug)]
pub enum RegicideError {
    /// A game is for 1 to 4 players.
    WrongNumberOfPlayers,
    /// The action is not among the legal actions of the state.
    IllegalAction,
}

/// A move of the player whose turn it is.
#[derive(Clone, Debug, PartialEq)]
pub enum Action {
    Play(Card),
    AnimalCombo(Card, Card),
    Combo(ComboCards),
    Yield,
    Discard(Hand),
    ChangePlayer(PlayerId),
    RefillHand,
}

/// An action with its cards as plain sequences.
pub enum ActionView {
    Play(Card),
    AnimalCombo(Card, Card),
    Combo(Seq<Card>),
    Yield,
    Discard(Seq<Card>),
    ChangePlayer(PlayerId),
    RefillHand,
}

impl View for Action {
    type V = ActionView;

    open spec fn view(&self) -> ActionView {
        match self {
            Action::Play(c) => ActionView::Play(*c),
            Action::AnimalCombo(a, b) => ActionView::AnimalCombo(*a, *b),
            Action::Combo(cs) => ActionView::Combo(combo_cards(*cs)),
            Action::Yield => ActionView::Yield,
            Action::Discard(h) => ActionView::Discard(hand_cards(*h)),
            Action::ChangePlayer(id) => ActionView::ChangePlayer(*id),
            Action::RefillHand => ActionView::RefillHand,
        }
    }
}

/// The highest score: every enemy defeated.
pub const MAX_SCORE: u8 = 12;

/// The reward of a result: the score of a loss, or the highest score for a win.
pub open spec fn result_score(r: GameResult) -> int {
    match r {
        GameResult::Won => MAX_SCORE as int,
        GameResult::Lost(s) => s as int,
    }
}

impl GameResult {
    pub fn max_score() -> (r: u8)
        ensures
            r == MAX_SCORE,
    {
        MAX_SCORE
    }

    /// The reward of this result, as the search engine counts it.
    pub fn score(&self) -> (r: i64)
        ensures
            r == result_score(*self),
    {
        match self {
            GameResult::Won => MAX_SCORE as i64,
            GameResult::Lost(s) => *s as i64,
        }
    }
}

/// A copy of an action with the same cards.
pub fn copy_action(a: &Action) -> (r: Action)
    ensures
        r@ == a@,
{
    match a {
        Action::Play(c) => Action::Play(*c),
        Action::AnimalCombo(x, y) => Action::AnimalCombo(*x, *y),
        Action::Combo(cs) => Action::Combo(crate::fixed::combo_copy(cs)),
        Action::Yield => Action::Yield,
        Action::Discard(h) => Action::Discard(crate::fixed::hand_copy(h)),
        Action::ChangePlayer(id) => Action::ChangePlayer(*id),
        Action::RefillHand => Action::RefillHand,
    }
}

} // verus!
