use arrayvec::ArrayVec;
use rand::SeedableRng;
use regicide::card::{Card, CardSuit, CardValue};
use regicide::fixed::Hand;
use regicide::game::{Action, GameResult, GameStatus};
use regicide::search::{
    best_move, merge_move_stats, prune_bad_moves, rank_moves, same_action, MoveStats, MyEvaluator, MyMCTS,
};
use regicide::state::State;

fn discard(cards: &[(CardSuit, CardValue)]) -> Action {
    let mut h: Hand = ArrayVec::new();
    for (s, v) in cards {
        h.push(Card::new(*s, *v));
    }
    Action::Discard(h)
}

#[test]
fn prune_keeps_diamonds_when_it_can() {
    let moves = vec![
        discard(&[(CardSuit::Diamonds, CardValue::Five)]),
        discard(&[(CardSuit::Hearts, CardValue::Five)]),
        discard(&[(CardSuit::Clubs, CardValue::Two), (CardSuit::Diamonds, CardValue::Three)]),
    ];
    let kept = prune_bad_moves(moves);
    assert_eq!(kept, vec![discard(&[(CardSuit::Hearts, CardValue::Five)])]);
}

#[test]
fn prune_keeps_everything_rather_than_nothing() {
    let moves = vec![
        discard(&[(CardSuit::Diamonds, CardValue::Five)]),
        discard(&[(CardSuit::Diamonds, CardValue::Six)]),
    ];
    assert_eq!(prune_bad_moves(moves.clone()), moves);
    assert_eq!(prune_bad_moves(vec![Action::Yield]), vec![Action::Yield]);
}

#[test]
fn most_visited_child_is_chosen() {
    let settings = MyMCTS { heuristics: false };
    assert_eq!(settings.select_child_after_search(&vec![3, 9, 2, 9, 1]), 3);
    assert_eq!(settings.select_child_after_search(&vec![5]), 0);
    assert_eq!(settings.max_playout_length(), 1000);
    assert_eq!(settings.visits_before_expansion(), 1000);
    assert_eq!(settings.node_limit(), usize::MAX);
}

#[test]
fn statistics_merge_per_move() {
    let mut stats: Vec<MoveStats> = Vec::new();
    let a = discard(&[(CardSuit::Hearts, CardValue::Five)]);
    let b = Action::Yield;
    merge_move_stats(&mut stats, &a, 10, 40);
    merge_move_stats(&mut stats, &b, 12, 10);
    merge_move_stats(&mut stats, &discard(&[(CardSuit::Hearts, CardValue::Five)]), 5, 30);
    assert_eq!(stats.len(), 2);
    assert_eq!(stats[0].visits, 15);
    assert_eq!(stats[0].sum_rewards, 70);
    assert_eq!(stats[1].visits, 12);
    assert_eq!(best_move(&stats), Some(0));
    merge_move_stats(&mut stats, &b, 3, 0);
    // Equal visits: the larger reward sum wins.
    assert_eq!(best_move(&stats), Some(0));
    merge_move_stats(&mut stats, &b, u64::MAX, 0);
    assert_eq!(stats[1].visits, u64::MAX);
    assert_eq!(best_move(&stats), Some(1));
    assert_eq!(best_move(&Vec::new()), None);
}

#[test]
fn actions_compare_by_cards() {
    assert!(same_action(&discard(&[(CardSuit::Hearts, CardValue::Five)]), &discard(&[(CardSuit::Hearts, CardValue::Five)])));
    assert!(!same_action(&discard(&[(CardSuit::Hearts, CardValue::Five)]), &discard(&[(CardSuit::Hearts, CardValue::Six)])));
    assert!(!same_action(&Action::Yield, &Action::RefillHand));
}

#[test]
fn playouts_end_with_a_valid_score() {
    let mut rng = rand::rngs::StdRng::seed_from_u64(5);
    for n in 1..=4usize {
        let state = State::new(n, Some(11)).unwrap();
        for heuristics in [false, true] {
            let result = MyEvaluator { heuristics }.evaluate_new_state(&state, &mut rng);
            match result {
                GameResult::Won => {}
                GameResult::Lost(k) => assert!(k <= GameResult::max_score()),
            }
            let score = MyEvaluator { heuristics }.interpret_evaluation_for_player(&result);
            assert!((0..=12).contains(&score));
        }
    }
}

#[test]
fn determinization_keeps_what_the_player_sees() {
    let mut rng = rand::rngs::StdRng::seed_from_u64(3);
    for n in 1..=4usize {
        let state = State::new(n, Some(99)).unwrap();
        let other = state.random_permutation(&mut rng);
        assert_eq!(other.current_hand(), state.current_hand());
        assert_eq!(other.current_enemy(), state.current_enemy());
        assert_eq!(other.table.tavern_deck.len(), state.table.tavern_deck.len());
        assert_eq!(other.table.discard_pile.len(), state.table.discard_pile.len());
        assert_eq!(other.table.castle_deck.len(), 12);
        for (p, q) in other.players.iter().zip(state.players.iter()) {
            assert_eq!(p.hand.len(), q.hand.len());
        }
        let mut before: Vec<Card> = state.table.tavern_deck.iter().copied().collect();
        let mut after: Vec<Card> = other.table.tavern_deck.iter().copied().collect();
        for p in state.players.iter().skip(1) {
            before.extend(p.hand.iter().copied());
        }
        for p in other.players.iter().skip(1) {
            after.extend(p.hand.iter().copied());
        }
        let key = |c: &Card| (c.suit as u8, c.value as u8);
        before.sort_by_key(key);
        after.sort_by_key(key);
        assert_eq!(before, after);
        // Castle tiers: the Kings at the bottom, the Jacks on top.
        assert_eq!(other.table.castle_deck[0].card().value, CardValue::King);
        assert_eq!(other.table.castle_deck[11].card().value, CardValue::Jack);
        assert!(other.check_shape());
    }
}

#[test]
fn a_playout_step_plays_a_listed_move() {
    let state = State::new(2, Some(4)).unwrap();
    let evaluator = MyEvaluator { heuristics: true };
    let moves = evaluator.playout_moves(&state);
    assert!(!moves.is_empty());
    let expected = state.take_action(&moves[1]);
    match (evaluator.playout_step(&state, &moves, 1), expected) {
        (GameStatus::InProgress(a), GameStatus::InProgress(b)) => {
            assert_eq!(a.current_hand(), b.current_hand());
            assert_eq!(a.current_enemy(), b.current_enemy());
        }
        (GameStatus::HasEnded(a), GameStatus::HasEnded(b)) => assert_eq!(a, b),
        _ => panic!("the step plays the move at the given position"),
    }
}

#[test]
fn moves_rank_by_visits_then_rewards() {
    let stats = vec![
        MoveStats { action: Action::Yield, visits: 5, sum_rewards: 10 },
        MoveStats { action: Action::RefillHand, visits: 9, sum_rewards: 1 },
        MoveStats { action: discard(&[(CardSuit::Hearts, CardValue::Two)]), visits: 5, sum_rewards: 30 },
        MoveStats { action: discard(&[(CardSuit::Hearts, CardValue::Three)]), visits: 5, sum_rewards: 10 },
    ];
    assert_eq!(rank_moves(&stats), vec![1, 2, 0, 3]);
    assert_eq!(rank_moves(&Vec::new()), Vec::<usize>::new());
}
