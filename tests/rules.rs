use arrayvec::ArrayVec;
use regicide::card::{Card, CardSuit, CardValue};
use regicide::enemy::Enemy;
use regicide::fixed::Hand;
use regicide::game::{Action, GameResult, GameStatus, RegicideError};
use regicide::player::PlayerId;
use regicide::state::{ActionType, State};

const SEED: u64 = 1337;

fn hand(cards: &[(CardSuit, CardValue)]) -> Hand {
    let mut h: Hand = ArrayVec::new();
    for (suit, value) in cards {
        h.push(Card::new(*suit, *value));
    }
    h
}

/// The number of actions of one kind: "animal" pairs, or "combo"s of `combo_len` cards.
fn combo_count(actions: &Vec<Action>, variant: &str, combo_len: usize) -> usize {
    actions
        .iter()
        .filter(|action| match (variant, action) {
            ("animal", Action::AnimalCombo(_, _)) => true,
            ("combo", Action::Combo(a)) if a.len() == combo_len => true,
            _ => false,
        })
        .count()
}

fn in_progress(status: GameStatus) -> State {
    match status {
        GameStatus::InProgress(state) => state,
        _ => panic!("Game should not have ended"),
    }
}

#[test]
fn jester_removes_immunity() {
    let mut state = State::new(3, Some(1337)).unwrap();
    state.replace_current_enemy(Enemy::new(Card::new(CardSuit::Clubs, CardValue::Queen)));

    assert_eq!(state.current_enemy().unwrap().health(), 30);
    state = in_progress(state.take_action(&Action::Play(Card::new(CardSuit::NoSuit, CardValue::Jester))));
    assert_eq!(state.current_enemy().unwrap().health(), 30);

    state = in_progress(state.take_action(&Action::Play(Card::new(CardSuit::Clubs, CardValue::Two))));
    assert_eq!(state.current_enemy().unwrap().health(), 26);
}

#[test]
fn enemies_are_immune() {
    let mut state = State::new(3, Some(1337)).unwrap();
    state.replace_current_enemy(Enemy::new(Card::new(CardSuit::Clubs, CardValue::Queen)));

    assert_eq!(state.current_enemy().unwrap().health(), 30);
    state = in_progress(state.take_action(&Action::Play(Card::new(CardSuit::Clubs, CardValue::Two))));
    assert_eq!(state.current_enemy().unwrap().health(), 28);
}

fn animal_hand() -> Hand {
    hand(&[
        (CardSuit::Diamonds, CardValue::Ace),
        (CardSuit::Hearts, CardValue::Ace),
        (CardSuit::Spades, CardValue::Ace),
        (CardSuit::Spades, CardValue::Six),
        (CardSuit::Spades, CardValue::Seven),
    ])
}

fn twos(n: usize) -> Hand {
    let suits = [CardSuit::Diamonds, CardSuit::Clubs, CardSuit::Hearts, CardSuit::Spades];
    let cards: Vec<(CardSuit, CardValue)> = suits[..n].iter().map(|s| (*s, CardValue::Two)).collect();
    hand(&cards)
}

fn actions_for(h: Hand) -> Vec<Action> {
    let mut state = State::new(1, Some(SEED)).unwrap();
    state.set_hand(0, h);
    state.get_action_space()
}

#[test]
fn tests_no_duplicate_animal_combos() {
    let actions = actions_for(animal_hand());
    assert_eq!(combo_count(&actions, "animal", 2), 9);
}

#[test]
fn tests_two_card_combos() {
    let actions = actions_for(twos(2));
    assert_eq!(combo_count(&actions, "combo", 2), 1);
    assert_eq!(combo_count(&actions, "combo", 3), 0);
    assert_eq!(combo_count(&actions, "combo", 4), 0);
}

#[test]
fn tests_three_card_combos() {
    let actions = actions_for(twos(3));
    assert_eq!(combo_count(&actions, "combo", 2), 3);
    assert_eq!(combo_count(&actions, "combo", 3), 1);
    assert_eq!(combo_count(&actions, "combo", 4), 0);
}

#[test]
fn tests_four_card_combos() {
    let actions = actions_for(twos(4));
    assert_eq!(combo_count(&actions, "combo", 2), 6);
    assert_eq!(combo_count(&actions, "combo", 3), 4);
    assert_eq!(combo_count(&actions, "combo", 4), 1);
}

#[test]
fn test_no_duplicate_animal_combos() {
    let actions = actions_for(animal_hand());
    assert_eq!(combo_count(&actions, "animal", 2), 9);
}

#[test]
fn test_two_card_combos() {
    let actions = actions_for(twos(2));
    assert_eq!(combo_count(&actions, "combo", 2), 1);
    assert_eq!(combo_count(&actions, "combo", 3), 0);
    assert_eq!(combo_count(&actions, "combo", 4), 0);
}

#[test]
fn test_three_card_combos() {
    let actions = actions_for(twos(3));
    assert_eq!(combo_count(&actions, "combo", 2), 3);
    assert_eq!(combo_count(&actions, "combo", 3), 1);
    assert_eq!(combo_count(&actions, "combo", 4), 0);
}

#[test]
fn test_four_card_combos() {
    let actions = actions_for(twos(4));
    assert_eq!(combo_count(&actions, "combo", 2), 6);
    assert_eq!(combo_count(&actions, "combo", 3), 4);
    assert_eq!(combo_count(&actions, "combo", 4), 1);
}

#[test]
fn wrong_number_of_players() {
    assert!(matches!(State::new(0, Some(SEED)), Err(RegicideError::WrongNumberOfPlayers)));
    assert!(matches!(State::new(5, Some(SEED)), Err(RegicideError::WrongNumberOfPlayers)));
}

fn total_cards(state: &State) -> usize {
    state.table.castle_deck.len()
        + state.table.tavern_deck.len()
        + state.table.discard_pile.len()
        + state.table.attack_cards.len()
        + state.players.iter().map(|p| p.hand.len()).sum::<usize>()
}

#[test]
fn new_game_deals_full_hands() {
    for (n, size, jesters) in [(1usize, 8usize, 0usize), (2, 7, 0), (3, 6, 1), (4, 5, 2)] {
        let state = State::new(n, Some(SEED)).unwrap();
        assert_eq!(state.players.len(), n);
        for p in state.players.iter() {
            assert_eq!(p.hand.len(), size);
        }
        assert_eq!(state.table.castle_deck.len(), 12);
        assert_eq!(state.table.tavern_deck.len(), 40 + jesters - n * size);
        assert_eq!(total_cards(&state), 52 + jesters);
        assert_eq!(state.has_turn(), PlayerId(0));
        assert_eq!(state.reward(), 0);
        let enemy = state.current_enemy().unwrap();
        assert_eq!(enemy.card().value, CardValue::Jack);
        assert_eq!(enemy.health(), 20);
        assert_eq!(enemy.attack_value(), 10);
    }
}

#[test]
fn same_seed_same_game() {
    let a = State::new(2, Some(7)).unwrap();
    let b = State::new(2, Some(7)).unwrap();
    assert_eq!(a.current_hand(), b.current_hand());
    assert_eq!(a.current_enemy(), b.current_enemy());
}

#[test]
fn cards_are_conserved_over_a_game() {
    for n in 1..=4usize {
        let jesters = [0usize, 0, 0, 1, 2][n];
        let mut state = State::new(n, Some(SEED + n as u64)).unwrap();
        for step in 0..200usize {
            let actions = state.get_action_space();
            assert!(!actions.is_empty());
            let action = actions[(step * 7) % actions.len()].clone();
            match state.take_action(&action) {
                GameStatus::InProgress(next) => {
                    assert_eq!(total_cards(&next), 52 + jesters);
                    state = next;
                }
                GameStatus::HasEnded(result) => {
                    match result {
                        GameResult::Won => {}
                        GameResult::Lost(score) => assert!(score <= GameResult::max_score()),
                    }
                    break;
                }
            }
        }
    }
}

#[test]
fn action_space_is_idempotent() {
    for n in 1..=4usize {
        let state = State::new(n, Some(SEED)).unwrap();
        assert_eq!(state.get_action_space(), state.get_action_space());
    }
}

#[test]
fn single_player_yield_loses() {
    let state = State::new(1, Some(SEED)).unwrap();
    match state.take_action(&Action::Yield) {
        GameStatus::HasEnded(GameResult::Lost(0)) => {}
        _ => panic!("a lone player's yield ends the game"),
    }
}

#[test]
fn every_player_yielding_loses() {
    let mut state = State::new(2, Some(SEED)).unwrap();
    // Give both players enough to survive the counter-attack.
    state.set_hand(0, hand(&[(CardSuit::Hearts, CardValue::Ten), (CardSuit::Clubs, CardValue::Nine)]));
    state.set_hand(1, hand(&[(CardSuit::Hearts, CardValue::Nine), (CardSuit::Clubs, CardValue::Ten)]));
    state = in_progress(state.take_action(&Action::Yield));
    assert_eq!(state.action_type, ActionType::Discard(10));
    let discard = state
        .get_action_space()
        .into_iter()
        .find(|a| matches!(a, Action::Discard(_)))
        .unwrap();
    state = in_progress(state.take_action(&discard));
    assert_eq!(state.has_turn(), PlayerId(1));
    assert_eq!(state.times_yielded, 1);
    match state.take_action(&Action::Yield) {
        GameStatus::HasEnded(GameResult::Lost(0)) => {}
        _ => panic!("two yields in a row end a two-player game"),
    }
}

#[test]
fn discard_actions_cover_the_damage() {
    let mut state = State::new(1, Some(SEED)).unwrap();
    state.set_hand(
        0,
        hand(&[(CardSuit::Hearts, CardValue::Ten), (CardSuit::Clubs, CardValue::Two), (CardSuit::Spades, CardValue::Nine)]),
    );
    state.action_type = ActionType::Discard(10);
    let actions = state.get_action_space();
    let discards: Vec<usize> = actions
        .iter()
        .filter_map(|a| match a {
            Action::Discard(cards) => Some(cards.len()),
            _ => None,
        })
        .collect();
    // {10}, {10,2}, {10,9}, {2,9}, {10,2,9}
    assert_eq!(discards, vec![1, 2, 2, 2, 3]);
    // A lone player may also refill the hand.
    assert!(actions.contains(&Action::RefillHand));
}

#[test]
fn jester_lets_anyone_play_next() {
    let mut state = State::new(3, Some(SEED)).unwrap();
    state.action_type = ActionType::Jester;
    let actions = state.get_action_space();
    assert_eq!(
        actions,
        vec![
            Action::ChangePlayer(PlayerId(0)),
            Action::ChangePlayer(PlayerId(1)),
            Action::ChangePlayer(PlayerId(2))
        ]
    );
    let next = in_progress(state.take_action(&Action::ChangePlayer(PlayerId(2))));
    assert_eq!(next.has_turn(), PlayerId(2));
    assert_eq!(next.action_type, ActionType::PlayCards);
}

#[test]
fn exact_kill_puts_enemy_on_tavern() {
    let mut state = State::new(1, Some(SEED)).unwrap();
    state.replace_current_enemy(Enemy::new(Card::new(CardSuit::Spades, CardValue::Jack)));
    let mut enemy = state.current_enemy().unwrap();
    enemy.take_damage(10);
    state.replace_current_enemy(enemy);
    state.set_hand(0, hand(&[(CardSuit::Hearts, CardValue::Ten)]));
    let tavern_before = state.table.tavern_deck.len();
    let next = in_progress(state.take_action(&Action::Play(Card::new(CardSuit::Hearts, CardValue::Ten))));
    assert_eq!(next.reward(), 1);
    assert_eq!(next.table.castle_deck.len(), 11);
    assert_eq!(next.table.tavern_deck.len(), tavern_before + 1);
    assert_eq!(*next.table.tavern_deck.last().unwrap(), Card::new(CardSuit::Spades, CardValue::Jack));
    assert_eq!(next.table.attack_cards.len(), 0);
}

#[test]
fn overkill_discards_enemy() {
    let mut state = State::new(1, Some(SEED)).unwrap();
    state.replace_current_enemy(Enemy::new(Card::new(CardSuit::Spades, CardValue::Jack)));
    let mut enemy = state.current_enemy().unwrap();
    enemy.take_damage(15);
    state.replace_current_enemy(enemy);
    state.set_hand(0, hand(&[(CardSuit::Diamonds, CardValue::Ten)]));
    let next = in_progress(state.take_action(&Action::Play(Card::new(CardSuit::Diamonds, CardValue::Ten))));
    assert_eq!(next.reward(), 1);
    let discard = &next.table.discard_pile;
    assert_eq!(discard.len(), 2);
    assert_eq!(discard[0], Card::new(CardSuit::Spades, CardValue::Jack));
    assert_eq!(discard[1], Card::new(CardSuit::Diamonds, CardValue::Ten));
}

#[test]
fn enemy_damage_and_attack_saturate() {
    let mut e = Enemy::new(Card::new(CardSuit::Hearts, CardValue::King));
    assert_eq!(e.health(), 40);
    assert_eq!(e.attack_value(), 20);
    e.take_damage(7);
    assert_eq!(e.health(), 33);
    e.take_damage(1000);
    assert_eq!(e.health(), -1);
    e.decrease_attack(5);
    assert_eq!(e.attack_value(), 15);
    e.decrease_attack(300);
    assert_eq!(e.attack_value(), 0);
    assert!(!e.jester_applied());
    e.apply_jester();
    assert!(e.jester_applied());
}

#[test]
fn spades_shield_and_diamonds_draw() {
    let mut state = State::new(2, Some(SEED)).unwrap();
    state.replace_current_enemy(Enemy::new(Card::new(CardSuit::Hearts, CardValue::Jack)));
    state.set_hand(0, hand(&[(CardSuit::Spades, CardValue::Four), (CardSuit::Clubs, CardValue::Ten)]));
    state.set_hand(1, hand(&[(CardSuit::Hearts, CardValue::Two)]));
    let next = in_progress(state.take_action(&Action::Play(Card::new(CardSuit::Spades, CardValue::Four))));
    let enemy = next.current_enemy().unwrap();
    assert_eq!(enemy.health(), 16);
    assert_eq!(enemy.attack_value(), 6);
    assert_eq!(next.action_type, ActionType::Discard(6));

    let mut state = State::new(2, Some(SEED)).unwrap();
    state.replace_current_enemy(Enemy::new(Card::new(CardSuit::Hearts, CardValue::Jack)));
    state.set_hand(0, hand(&[(CardSuit::Diamonds, CardValue::Three), (CardSuit::Clubs, CardValue::Ten)]));
    state.set_hand(1, hand(&[(CardSuit::Hearts, CardValue::Two)]));
    let tavern_before = state.table.tavern_deck.len();
    let next = in_progress(state.take_action(&Action::Play(Card::new(CardSuit::Diamonds, CardValue::Three))));
    // Three draws, alternating from the player whose turn it is.
    assert_eq!(next.table.tavern_deck.len(), tavern_before - 3);
    assert_eq!(next.players[0].hand.len(), 3);
    assert_eq!(next.players[1].hand.len(), 2);
}

#[test]
fn max_score_and_rewards() {
    assert_eq!(GameResult::max_score(), 12);
    assert_eq!(GameResult::Won.score(), 12);
    assert_eq!(GameResult::Lost(5).score(), 5);
}

#[test]
fn next_seat_wraps_around() {
    assert_eq!(PlayerId(0).next_id(3), PlayerId(1));
    assert_eq!(PlayerId(2).next_id(3), PlayerId(0));
}

#[test]
fn attack_values() {
    assert_eq!(Card::new(CardSuit::NoSuit, CardValue::Jester).attack_value(), 0);
    assert_eq!(Card::new(CardSuit::Hearts, CardValue::Ace).attack_value(), 1);
    assert_eq!(Card::new(CardSuit::Hearts, CardValue::Ten).attack_value(), 10);
    assert_eq!(Card::new(CardSuit::Hearts, CardValue::Jack).attack_value(), 10);
    assert_eq!(Card::new(CardSuit::Hearts, CardValue::Queen).attack_value(), 15);
    assert_eq!(Card::new(CardSuit::Hearts, CardValue::King).attack_value(), 20);
}

#[test]
fn illegal_actions_are_refused() {
    let mut state = State::new(1, Some(SEED)).unwrap();
    state.set_hand(0, hand(&[(CardSuit::Hearts, CardValue::Five)]));
    let missing = Action::Play(Card::new(CardSuit::Spades, CardValue::King));
    assert!(!state.is_legal_action(&missing));
    assert!(matches!(state.take_legal_action(&missing), Err(RegicideError::IllegalAction)));
    assert!(matches!(state.take_legal_action(&Action::ChangePlayer(PlayerId(0))), Err(RegicideError::IllegalAction)));
    let play = Action::Play(Card::new(CardSuit::Hearts, CardValue::Five));
    assert!(state.is_legal_action(&play));
    assert!(state.take_legal_action(&play).is_ok());
}

#[test]
fn a_new_state_has_a_valid_shape() {
    let mut state = State::new(2, Some(SEED)).unwrap();
    assert!(state.check_shape());
    state.times_yielded = 2;
    assert!(!state.check_shape());
}

#[test]
fn hearts_heal_from_the_discard_pile() {
    let mut state = State::new(1, Some(SEED)).unwrap();
    state.replace_current_enemy(Enemy::new(Card::new(CardSuit::Spades, CardValue::Jack)));
    state.set_hand(0, hand(&[(CardSuit::Hearts, CardValue::Three), (CardSuit::Clubs, CardValue::Ten)]));
    for v in [CardValue::Six, CardValue::Seven, CardValue::Eight, CardValue::Nine, CardValue::Ten] {
        state.table.discard_pile.push(Card::new(CardSuit::Diamonds, v));
    }
    let top_before = *state.table.tavern_deck.last().unwrap();
    let tavern_before = state.table.tavern_deck.len();
    let next = in_progress(state.take_action(&Action::Play(Card::new(CardSuit::Hearts, CardValue::Three))));
    assert_eq!(next.table.discard_pile.len(), 2);
    assert_eq!(next.table.tavern_deck.len(), tavern_before + 3);
    // The healed cards go under the tavern deck: its top is unchanged.
    assert_eq!(*next.table.tavern_deck.last().unwrap(), top_before);
    for c in next.table.tavern_deck.iter().take(3) {
        assert_eq!(c.suit, CardSuit::Diamonds);
    }
    assert_eq!(next.current_enemy().unwrap().health(), 17);
}

#[test]
fn clubs_double_against_other_suits() {
    let mut state = State::new(1, Some(SEED)).unwrap();
    state.replace_current_enemy(Enemy::new(Card::new(CardSuit::Hearts, CardValue::Jack)));
    state.set_hand(0, hand(&[(CardSuit::Clubs, CardValue::Five), (CardSuit::Spades, CardValue::Ten)]));
    let next = in_progress(state.take_action(&Action::Play(Card::new(CardSuit::Clubs, CardValue::Five))));
    assert_eq!(next.current_enemy().unwrap().health(), 10);
}

#[test]
fn animal_combo_adds_the_ace() {
    let mut state = State::new(1, Some(SEED)).unwrap();
    state.replace_current_enemy(Enemy::new(Card::new(CardSuit::Hearts, CardValue::Queen)));
    state.set_hand(
        0,
        hand(&[
            (CardSuit::Clubs, CardValue::Ace),
            (CardSuit::Clubs, CardValue::Nine),
            (CardSuit::Spades, CardValue::Ten),
            (CardSuit::Hearts, CardValue::Ten),
        ]),
    );
    let combo = Action::AnimalCombo(Card::new(CardSuit::Clubs, CardValue::Ace), Card::new(CardSuit::Clubs, CardValue::Nine));
    assert!(state.is_legal_action(&combo));
    let next = in_progress(state.take_action(&combo));
    // (1 + 9) doubled by Clubs.
    assert_eq!(next.current_enemy().unwrap().health(), 10);
    assert_eq!(next.current_hand().len(), 2);
    assert_eq!(next.action_type, ActionType::Discard(15));
}

#[test]
fn jester_shields_with_earlier_spades() {
    let mut state = State::new(3, Some(SEED)).unwrap();
    state.replace_current_enemy(Enemy::new(Card::new(CardSuit::Spades, CardValue::Jack)));
    state.set_hand(
        0,
        hand(&[(CardSuit::Spades, CardValue::Four), (CardSuit::Hearts, CardValue::Ten), (CardSuit::NoSuit, CardValue::Jester)]),
    );
    state = in_progress(state.take_action(&Action::Play(Card::new(CardSuit::Spades, CardValue::Four))));
    // The enemy is immune to Spades: no shield yet.
    assert_eq!(state.current_enemy().unwrap().attack_value(), 10);
    assert_eq!(state.current_enemy().unwrap().health(), 16);
    assert_eq!(state.action_type, ActionType::Discard(10));
    state.action_type = ActionType::PlayCards;
    state = in_progress(state.take_action(&Action::Play(Card::new(CardSuit::NoSuit, CardValue::Jester))));
    let enemy = state.current_enemy().unwrap();
    assert_eq!(enemy.attack_value(), 6);
    assert!(enemy.jester_applied());
    assert_eq!(state.action_type, ActionType::Jester);
}

#[test]
fn defeating_the_last_enemy_wins() {
    let mut state = State::new(1, Some(SEED)).unwrap();
    while state.table.castle_deck.len() > 1 {
        state.table.castle_deck.remove(0);
        state.level += 1;
    }
    let mut enemy = state.current_enemy().unwrap();
    enemy.take_damage(19);
    state.replace_current_enemy(enemy);
    state.set_hand(0, hand(&[(CardSuit::Hearts, CardValue::Two)]));
    match state.take_action(&Action::Play(Card::new(CardSuit::Hearts, CardValue::Two))) {
        GameStatus::HasEnded(GameResult::Won) => {}
        _ => panic!("the last enemy's defeat wins the game"),
    }
}

#[test]
fn removing_a_card_removes_one_copy() {
    let mut state = State::new(4, Some(SEED)).unwrap();
    state.set_hand(
        0,
        hand(&[(CardSuit::NoSuit, CardValue::Jester), (CardSuit::Hearts, CardValue::Five), (CardSuit::NoSuit, CardValue::Jester)]),
    );
    let mut player = state.players[0].clone();
    player.remove_from_hand(&hand(&[(CardSuit::NoSuit, CardValue::Jester), (CardSuit::Spades, CardValue::King)]));
    assert_eq!(player.hand.len(), 2);
    assert_eq!(player.hand[0], Card::new(CardSuit::Hearts, CardValue::Five));
    assert_eq!(player.hand[1], Card::new(CardSuit::NoSuit, CardValue::Jester));
    assert_eq!(player.total_hand_value(), 5);
}

#[test]
fn a_new_game_starts_against_a_fresh_jack() {
    for n in 1..=4usize {
        let state = State::new(n, Some(SEED)).unwrap();
        let enemy = state.current_enemy().unwrap();
        assert_eq!(enemy.health(), 20);
        assert_eq!(enemy.attack_value(), 10);
        assert!(!enemy.jester_applied());
        assert_eq!(regicide::fixed::castle_size(&state.table.castle_deck), 12);
        assert_eq!(regicide::fixed::pile_size(&state.table.discard_pile), 0);
        assert_eq!(regicide::fixed::hand_size(&state.current_hand()), 9 - n);
    }
}

#[test]
fn each_action_is_listed_once() {
    let actions = actions_for(animal_hand());
    for (i, a) in actions.iter().enumerate() {
        for b in actions.iter().skip(i + 1) {
            assert_ne!(a, b);
        }
    }
    assert_eq!(actions.last(), Some(&Action::RefillHand));
}
