//! The game-specific parts of the tree search: the random playout that
//! scores a position, the move filter it may use, the search settings, and
//! the choice of a move from the statistics of one or several searches.
use crate::actions::views;
use crate::card::CardSuit;
use crate::fixed::{combo_cards, combo_get, combo_len, hand_cards, hand_get, hand_len};
use crate::game::{copy_action, Action, ActionView, GameResult, GameStatus};
use crate::random::random_index;
use crate::state::{has_suit, is_outcome, State};
use itertools::Itertools;
use rand::rngs::StdRng;
use vstd::prelude::*;

verus! {

/// A move the playout heuristic avoids: discarding a Diamond.
pub open spec fn discards_diamonds(a: ActionView) -> bool {
    a is Discard && has_suit(a->Discard_0, CardSuit::Diamonds)
}

/// The moves that keep every Diamond.
pub open spec fn keeps_diamonds(moves: Seq<ActionView>) -> Seq<ActionView> {
    moves.filter(|a: ActionView| !discards_diamonds(a))
}

/// `true` when `a` discards a Diamond.
fn is_diamond_discard(a: &Action) -> (r: bool)
    ensures
        r == discards_diamonds(a@),
{
    match a {
        Action::Discard(cards) => {
            let n = hand_len(cards);
            let mut i: usize = 0;
            while i < n
                invariant
                    a@ == ActionView::Discard(hand_cards(*cards)),
                    n == hand_cards(*cards).len(),
                    i <= n,
                    forall|t: int| 0 <= t < i ==> (#[trigger] hand_cards(*cards)[t]).suit != CardSuit::Diamonds,
                decreases n - i,
            {
                if hand_get(cards, i).suit == CardSuit::Diamonds {
                    assert((hand_cards(*cards)[i as int]).suit == CardSuit::Diamonds);
                    return true;
                }
                i += 1;
            }
            false
        },
        _ => false,
    }
}

/// Never discard a Diamond, unless every move does.
pub fn prune_bad_moves(all_moves: Vec<Action>) -> (r: Vec<Action>)
    ensures
        keeps_diamonds(views(all_moves@)).len() > 0 ==> views(r@) == keeps_diamonds(views(all_moves@)),
        keeps_diamonds(views(all_moves@)).len() == 0 ==> views(r@) == views(all_moves@),
{
    let ghost all = views(all_moves@);
    let mut kept: Vec<Action> = Vec::new();
    let mut i: usize = 0;
    while i < all_moves.len()
        invariant
            all == views(all_moves@),
            i <= all_moves@.len(),
            views(kept@) == keeps_diamonds(all.take(i as int)),
        decreases all_moves@.len() - i,
    {
        let ghost before = kept@;
        proof {
            reveal(Seq::filter);
            assert(all.take(i + 1).drop_last() =~= all.take(i as int));
            assert(all.take(i + 1).last() == all_moves@[i as int]@);
        }
        if !is_diamond_discard(&all_moves[i]) {
            kept.push(copy_action(&all_moves[i]));
            assert(views(kept@) =~= views(before).push(all_moves@[i as int]@));
        }
        i += 1;
    }
    assert(all.take(all_moves@.len() as int) =~= all);
    if kept.len() > 0 {
        kept
    } else {
        all_moves
    }
}

/// The number of plies after which a playout stops and scores the level reached.
pub const MAX_PLAYOUT_LENGTH: usize = 1000;

/// A score a playout can end with: a win, or a loss at a level from
/// `level` up to the highest score.
pub open spec fn is_playout_result(r: GameResult, level: int) -> bool {
    ||| r == GameResult::Won
    ||| (r matches GameResult::Lost(k) && level <= k <= crate::game::MAX_SCORE)
}

/// The moves kept are exactly the moves that keep every Diamond.
pub proof fn lemma_keeps_diamonds(moves: Seq<ActionView>)
    ensures
        forall|a: ActionView| #[trigger] keeps_diamonds(moves).contains(a) <==> moves.contains(a)
            && !discards_diamonds(a),
    decreases moves.len(),
{
    broadcast use vstd::seq_lib::group_seq_properties;

    reveal(Seq::filter);
    if moves.len() > 0 {
        let rest = moves.drop_last();
        let x = moves.last();
        lemma_keeps_diamonds(rest);
        assert(moves =~= rest.push(x));
        assert(keeps_diamonds(moves) == if !discards_diamonds(x) {
            keeps_diamonds(rest).push(x)
        } else {
            keeps_diamonds(rest)
        });
    } else {
        assert(keeps_diamonds(moves).len() == 0);
    }
}

/// A move a playout may pick in `node`: a legal action, and, with the
/// heuristic on, one that keeps every Diamond whenever such a move exists.
pub open spec fn is_playout_move(heuristics: bool, node: State, a: ActionView) -> bool {
    &&& node.is_legal(a)
    &&& (heuristics && (exists|b: ActionView| node.is_legal(b) && !discards_diamonds(b))
        ==> !discards_diamonds(a))
}

/// `moves` lists exactly the moves a playout may pick in `node`.
pub open spec fn is_playout_list(heuristics: bool, node: State, moves: Seq<Action>) -> bool {
    forall|a: ActionView| #[trigger] views(moves).contains(a) <==> is_playout_move(heuristics, node, a)
}

/// A playout from `node` with `fuel` moves left can end with `r`: it makes
/// playout moves until the game ends, and counts a loss at the level reached
/// when no move is left or the moves run out.
pub open spec fn playout_ends(heuristics: bool, node: State, r: GameResult, fuel: nat) -> bool
    decreases fuel,
{
    if fuel == 0 {
        r == GameResult::Lost(node.level)
    } else {
        ||| (!(exists|a: ActionView| is_playout_move(heuristics, node, a)) && r == GameResult::Lost(node.level))
        ||| exists|a: ActionView, st: GameStatus|
            is_playout_move(heuristics, node, a) && #[trigger] is_outcome(node, a, st) && match st {
                GameStatus::HasEnded(res) => r == res,
                GameStatus::InProgress(next) => playout_ends(heuristics, next, r, (fuel - 1) as nat),
            }
    }
}

/// Scores a position by one random game played out from it.
pub struct MyEvaluator {
    /// Whether the playout avoids discarding Diamonds.
    pub heuristics: bool,
}

impl MyEvaluator {
    /// The moves a playout may pick in `node`.
    pub fn playout_moves(&self, node: &State) -> (r: Vec<Action>)
        requires
            node.inv(),
        ensures
            is_playout_list(self.heuristics, *node, r@),
    {
        let all = node.get_action_space();
        let ghost va = views(all@);
        proof {
            lemma_keeps_diamonds(va);
        }
        let moves = if self.heuristics {
            prune_bad_moves(all)
        } else {
            all
        };
        proof {
            if self.heuristics && keeps_diamonds(va).len() > 0 {
                let b = keeps_diamonds(va)[0];
                assert(keeps_diamonds(va).contains(b));
                assert(va.contains(b));
                assert(node.is_legal(b) && !discards_diamonds(b));
            }
            if self.heuristics && keeps_diamonds(va).len() == 0 {
                assert forall|b: ActionView| node.is_legal(b) implies discards_diamonds(b) by {
                    assert(va.contains(b));
                    if !discards_diamonds(b) {
                        let j = choose|j: int| 0 <= j < va.len() && va[j] == b;
                        assert(keeps_diamonds(va).contains(b));
                    }
                }
            }
        }
        proof {
            assert forall|a: ActionView| #[trigger] views(moves@).contains(a) <==> is_playout_move(self.heuristics, *node, a) by {
                if views(moves@).contains(a) {
                    if self.heuristics && keeps_diamonds(va).len() > 0 {
                        assert(keeps_diamonds(va).contains(a));
                    }
                }
                if is_playout_move(self.heuristics, *node, a) {
                    assert(va.contains(a));
                    if self.heuristics && keeps_diamonds(va).len() > 0 {
                        assert(keeps_diamonds(va).contains(a));
                    }
                }
            }
        }
        moves
    }

    /// One move of a playout: the move at position `i` of `moves`, played.
    pub fn playout_step(&self, node: &State, moves: &Vec<Action>, i: usize) -> (r: GameStatus)
        requires
            node.inv(),
            is_playout_list(self.heuristics, *node, moves@),
            i < moves@.len(),
        ensures
            is_outcome(*node, moves@[i as int]@, r),
            is_playout_move(self.heuristics, *node, moves@[i as int]@),
    {
        proof {
            assert(views(moves@)[i as int] == moves@[i as int]@);
            assert(views(moves@).contains(moves@[i as int]@));
        }
        node.take_action(&moves[i])
    }

    /// Plays random moves from a determinization of `state` until the game
    /// ends, no move is left or the ply limit is reached, and returns the
    /// result; an unfinished game counts as a loss at the level reached. A
    /// state that already holds its result returns that result.
    pub fn evaluate_new_state(&self, state: &State, rng: &mut StdRng) -> (r: GameResult)
        requires
            state.inv(),
        ensures
            state.has_ended matches Some(res) ==> r == res,
            state.has_ended is None ==> is_playout_result(r, state.level as int),
            state.has_ended is None ==> exists|det: State|
                crate::state::is_determinization(*state, det) && #[trigger] playout_ends(
                    self.heuristics,
                    det,
                    r,
                    MAX_PLAYOUT_LENGTH as nat,
                ),
    {
        match state.has_ended {
            Some(res) => {
                return res;
            },
            None => {},
        }
        let mut node = state.random_permutation(rng);
        let ghost det = node;
        let mut ply: usize = 0;
        while ply < MAX_PLAYOUT_LENGTH
            invariant
                state.has_ended is None,
                crate::state::is_determinization(*state, det),
                node.inv(),
                node.has_ended is None,
                state.level <= node.level,
                ply <= MAX_PLAYOUT_LENGTH,
                forall|res: GameResult| playout_ends(self.heuristics, node, res, (MAX_PLAYOUT_LENGTH - ply) as nat)
                    ==> #[trigger] playout_ends(self.heuristics, det, res, MAX_PLAYOUT_LENGTH as nat),
            decreases MAX_PLAYOUT_LENGTH - ply,
        {
            let ghost fuel = (MAX_PLAYOUT_LENGTH - ply) as nat;
            let moves = self.playout_moves(&node);
            if moves.len() == 0 {
                proof {
                    assert forall|a: ActionView| !is_playout_move(self.heuristics, node, a) by {
                        if is_playout_move(self.heuristics, node, a) {
                            assert(views(moves@).contains(a));
                        }
                    }
                    assert(playout_ends(self.heuristics, node, GameResult::Lost(node.level), fuel));
                    assert(playout_ends(self.heuristics, det, GameResult::Lost(node.level), MAX_PLAYOUT_LENGTH as nat));
                }
                return GameResult::Lost(node.level);
            }
            let i = crate::random::random_index(rng, moves.len());
            match self.playout_step(&node, &moves, i) {
                GameStatus::HasEnded(res) => {
                    proof {
                        let st = GameStatus::HasEnded(res);
                        let a = moves@[i as int]@;
                        assert(is_playout_move(self.heuristics, node, a) && is_outcome(node, a, st));
                        assert(playout_ends(self.heuristics, node, res, fuel));
                        assert(playout_ends(self.heuristics, det, res, MAX_PLAYOUT_LENGTH as nat));
                    }
                    return res;
                },
                GameStatus::InProgress(next) => {
                    proof {
                        let st = GameStatus::InProgress(next);
                        let a = moves@[i as int]@;
                        assert forall|res: GameResult| playout_ends(self.heuristics, next, res, (fuel - 1) as nat)
                            implies #[trigger] playout_ends(self.heuristics, det, res, MAX_PLAYOUT_LENGTH as nat) by {
                            assert(is_playout_move(self.heuristics, node, a) && is_outcome(node, a, st));
                            assert(playout_ends(self.heuristics, node, res, fuel));
                        }
                    }
                    node = next;
                },
            }
            ply += 1;
        }
        assert(playout_ends(self.heuristics, det, GameResult::Lost(node.level), MAX_PLAYOUT_LENGTH as nat));
        GameResult::Lost(node.level)
    }

    /// The reward of a result for the search: the level reached, or the
    /// highest score for a win.
    pub fn interpret_evaluation_for_player(&self, evaln: &GameResult) -> (r: i64)
        ensures
            r == crate::game::result_score(*evaln),
    {
        evaln.score()
    }
}

/// The settings of the tree search.
pub struct MyMCTS {
    /// Whether playouts avoid discarding Diamonds.
    pub heuristics: bool,
}

impl MyMCTS {
    pub fn max_playout_length(&self) -> (r: usize)
        ensures
            r == MAX_PLAYOUT_LENGTH,
    {
        MAX_PLAYOUT_LENGTH
    }

    /// Visits of a leaf before its moves are expanded.
    pub fn visits_before_expansion(&self) -> (r: u64)
        ensures
            r == 1000,
    {
        1000
    }

    /// No limit on the number of nodes.
    pub fn node_limit(&self) -> (r: usize)
        ensures
            r == usize::MAX,
    {
        usize::MAX
    }

    /// The most robust child: the position, among the children's visit
    /// counts, of the most visited one (the last of several equal ones).
    pub fn select_child_after_search(&self, visits: &Vec<u64>) -> (r: usize)
        requires
            visits@.len() > 0,
        ensures
            r < visits@.len(),
            forall|j: int| 0 <= j < visits@.len() ==> visits@[j] <= visits@[r as int],
            forall|j: int| r < j < visits@.len() ==> visits@[j] < visits@[r as int],
    {
        let mut best: usize = 0;
        let mut i: usize = 1;
        while i < visits.len()
            invariant
                visits@.len() > 0,
                1 <= i <= visits@.len(),
                best < i,
                forall|j: int| 0 <= j < i ==> visits@[j] <= visits@[best as int],
                forall|j: int| best < j < i ==> visits@[j] < visits@[best as int],
            decreases visits@.len() - i,
        {
            if visits[i] >= visits[best] {
                best = i;
            }
            i += 1;
        }
        best
    }
}

/// The statistics of one move, summed over searches.
pub struct MoveStats {
    pub action: Action,
    pub visits: u64,
    pub sum_rewards: u64,
}

/// `true` when the two actions are the same move with the same cards.
pub fn same_action(a: &Action, b: &Action) -> (r: bool)
    ensures
        r == (a@ == b@),
{
    match (a, b) {
        (Action::Play(x), Action::Play(y)) => x == y,
        (Action::AnimalCombo(x1, x2), Action::AnimalCombo(y1, y2)) => x1 == y1 && x2 == y2,
        (Action::Combo(x), Action::Combo(y)) => {
            let n = combo_len(x);
            if n != combo_len(y) {
                return false;
            }
            let mut i: usize = 0;
            while i < n
                invariant
                    a@ == ActionView::Combo(combo_cards(*x)),
                    b@ == ActionView::Combo(combo_cards(*y)),
                    n == combo_cards(*x).len(),
                    n == combo_cards(*y).len(),
                    i <= n,
                    forall|t: int| 0 <= t < i ==> combo_cards(*x)[t] == combo_cards(*y)[t],
                decreases n - i,
            {
                if combo_get(x, i) != combo_get(y, i) {
                    assert(combo_cards(*x)[i as int] != combo_cards(*y)[i as int]);
                    return false;
                }
                i += 1;
            }
            assert(combo_cards(*x) =~= combo_cards(*y));
            true
        },
        (Action::Yield, Action::Yield) => true,
        (Action::Discard(x), Action::Discard(y)) => {
            let n = hand_len(x);
            if n != hand_len(y) {
                return false;
            }
            let mut i: usize = 0;
            while i < n
                invariant
                    a@ == ActionView::Discard(hand_cards(*x)),
                    b@ == ActionView::Discard(hand_cards(*y)),
                    n == hand_cards(*x).len(),
                    n == hand_cards(*y).len(),
                    i <= n,
                    forall|t: int| 0 <= t < i ==> hand_cards(*x)[t] == hand_cards(*y)[t],
                decreases n - i,
            {
                if hand_get(x, i) != hand_get(y, i) {
                    assert(hand_cards(*x)[i as int] != hand_cards(*y)[i as int]);
                    return false;
                }
                i += 1;
            }
            assert(hand_cards(*x) =~= hand_cards(*y));
            true
        },
        (Action::ChangePlayer(x), Action::ChangePlayer(y)) => x == y,
        (Action::RefillHand, Action::RefillHand) => true,
        _ => false,
    }
}

/// Adds the statistics of one search for `action` to `stats`: to its entry
/// if it has one, else as a new entry at the end. Sums saturate.
pub fn merge_move_stats(stats: &mut Vec<MoveStats>, action: &Action, visits: u64, sum_rewards: u64)
    requires
        forall|i: int, j: int| 0 <= i < j < old(stats)@.len() ==> old(stats)@[i].action@ != old(stats)@[j].action@,
    ensures
        forall|i: int, j: int| 0 <= i < j < final(stats)@.len() ==> final(stats)@[i].action@ != final(stats)@[j].action@,
        (exists|i: int| 0 <= i < old(stats)@.len() && old(stats)@[i].action@ == action@) ==> {
            &&& final(stats)@.len() == old(stats)@.len()
            &&& forall|i: int| 0 <= i < old(stats)@.len() ==> {
                let o = old(stats)@[i];
                let f = #[trigger] final(stats)@[i];
                &&& f.action@ == o.action@
                &&& (o.action@ == action@ ==> f.visits == if o.visits + visits <= u64::MAX { o.visits + visits } else { u64::MAX as int })
                &&& (o.action@ == action@ ==> f.sum_rewards == if o.sum_rewards + sum_rewards <= u64::MAX { o.sum_rewards + sum_rewards } else { u64::MAX as int })
                &&& (o.action@ != action@ ==> f.visits == o.visits && f.sum_rewards == o.sum_rewards)
            }
        },
        !(exists|i: int| 0 <= i < old(stats)@.len() && old(stats)@[i].action@ == action@) ==> {
            &&& final(stats)@.len() == old(stats)@.len() + 1
            &&& forall|i: int| 0 <= i < old(stats)@.len() ==> (#[trigger] final(stats)@[i]).action@ == old(stats)@[i].action@
                && final(stats)@[i].visits == old(stats)@[i].visits && final(stats)@[i].sum_rewards == old(stats)@[i].sum_rewards
            &&& final(stats)@.last().action@ == action@
            &&& final(stats)@.last().visits == visits
            &&& final(stats)@.last().sum_rewards == sum_rewards
        },
{
    let mut i: usize = 0;
    while i < stats.len()
        invariant
            stats@ == old(stats)@,
            forall|i: int, j: int| 0 <= i < j < old(stats)@.len() ==> old(stats)@[i].action@ != old(stats)@[j].action@,
            i <= stats@.len(),
            forall|j: int| 0 <= j < i ==> stats@[j].action@ != action@,
        decreases stats@.len() - i,
    {
        if same_action(&stats[i].action, action) {
            let entry = stats.remove(i);
            let merged = MoveStats {
                action: entry.action,
                visits: entry.visits.saturating_add(visits),
                sum_rewards: entry.sum_rewards.saturating_add(sum_rewards),
            };
            stats.insert(i, merged);
            assert(stats@ =~= old(stats)@.update(i as int, merged));
            return;
        }
        i += 1;
    }
    stats.push(MoveStats { action: copy_action(action), visits, sum_rewards });
}

/// The move to play after the searches: the most visited, ties broken by the
/// larger sum of rewards (the first of equal ones).
pub fn best_move(stats: &Vec<MoveStats>) -> (r: Option<usize>)
    ensures
        stats@.len() == 0 <==> r is None,
        r matches Some(b) ==> {
            &&& b < stats@.len()
            &&& forall|j: int| 0 <= j < b ==> !ranks_at_least(#[trigger] stats@[j], stats@[b as int])
            &&& forall|j: int| 0 <= j < stats@.len() ==> #[trigger] stats@[j].visits < stats@[b as int].visits
                || (stats@[j].visits == stats@[b as int].visits && stats@[j].sum_rewards <= stats@[b as int].sum_rewards)
        },
{
    if stats.len() == 0 {
        return None;
    }
    let mut best: usize = 0;
    let mut i: usize = 1;
    while i < stats.len()
        invariant
            stats@.len() > 0,
            1 <= i <= stats@.len(),
            best < i,
            forall|j: int| 0 <= j < i ==> #[trigger] stats@[j].visits < stats@[best as int].visits
                || (stats@[j].visits == stats@[best as int].visits && stats@[j].sum_rewards <= stats@[best as int].sum_rewards),
            forall|j: int| 0 <= j < best ==> !ranks_at_least(#[trigger] stats@[j], stats@[best as int]),
        decreases stats@.len() - i,
    {
        let s = &stats[i];
        let b = &stats[best];
        if s.visits > b.visits || (s.visits == b.visits && s.sum_rewards > b.sum_rewards) {
            best = i;
        }
        i += 1;
    }
    Some(best)
}

/// `a` ranks at least as high as `b`: more visits, or as many and at least
/// as large a sum of rewards.
pub open spec fn ranks_at_least(a: MoveStats, b: MoveStats) -> bool {
    a.visits > b.visits || (a.visits == b.visits && a.sum_rewards >= b.sum_rewards)
}

/// Relies on Itertools::sorted_by_key, a stable sort, with each key
/// reversed: the positions of `keys`, largest key first (tuples compare
/// first field first), equal keys in the order they are listed.
#[verifier::external_body]
fn positions_by_key_descending(keys: &Vec<(u64, u64)>) -> (r: Vec<usize>)
    ensures
        r@.len() == keys@.len(),
        forall|i: int| 0 <= i < r@.len() ==> #[trigger] r@[i] < keys@.len(),
        r@.no_duplicates(),
        forall|i: int, j: int| 0 <= i < j < r@.len() ==> key_at_least(keys@[r@[i] as int], keys@[r@[j] as int]),
        forall|i: int, j: int| 0 <= i < j < r@.len() && keys@[r@[i] as int] == keys@[r@[j] as int] ==> r@[i] < r@[j],
{
    (0..keys.len()).sorted_by_key(|&i| std::cmp::Reverse(keys[i])).collect()
}

/// `a` is at least `b` in the order of pairs: first field first.
pub open spec fn key_at_least(a: (u64, u64), b: (u64, u64)) -> bool {
    a.0 > b.0 || (a.0 == b.0 && a.1 >= b.1)
}

/// The positions of `stats` from the best move down: each position once,
/// ordered by visits and then by the sum of rewards, equal moves in the order
/// they were listed.
pub fn rank_moves(stats: &Vec<MoveStats>) -> (r: Vec<usize>)
    ensures
        r@.len() == stats@.len(),
        forall|i: int| 0 <= i < r@.len() ==> #[trigger] r@[i] < stats@.len(),
        r@.no_duplicates(),
        forall|i: int, j: int| 0 <= i < j < r@.len() ==> ranks_at_least(stats@[r@[i] as int], stats@[r@[j] as int]),
        forall|i: int, j: int| 0 <= i < j < r@.len() && ranks_at_least(stats@[r@[j] as int], stats@[r@[i] as int])
            ==> r@[i] < r@[j],
{
    let mut keys: Vec<(u64, u64)> = Vec::new();
    let mut i: usize = 0;
    while i < stats.len()
        invariant
            i <= stats@.len(),
            keys@.len() == i,
            forall|j: int| 0 <= j < i ==> #[trigger] keys@[j] == (stats@[j].visits, stats@[j].sum_rewards),
        decreases stats@.len() - i,
    {
        keys.push((stats[i].visits, stats[i].sum_rewards));
        i += 1;
    }
    let r = positions_by_key_descending(&keys);
    proof {
        assert forall|i: int, j: int| 0 <= i < j < r@.len() implies ranks_at_least(stats@[r@[i] as int], stats@[r@[j] as int]) by {
            assert(key_at_least(keys@[r@[i] as int], keys@[r@[j] as int]));
        }
        assert forall|i: int, j: int| 0 <= i < j < r@.len() && ranks_at_least(stats@[r@[j] as int], stats@[r@[i] as int])
            implies r@[i] < r@[j] by {
            assert(key_at_least(keys@[r@[i] as int], keys@[r@[j] as int]));
            assert(keys@[r@[i] as int] == keys@[r@[j] as int]);
        }
    }
    r
}

} // verus!
