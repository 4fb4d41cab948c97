//! The self-play driver and agent evaluation: repeated tree searches turned
//! into full games, their outcomes back-assigned by ply parity, and the
//! finished examples appended to a replay buffer.

use vstd::prelude::*;
use crate::data::ReplayBuffer;
use crate::game::{Game, GameStatus, Player};
use crate::mcts::{MAX_VISITS, MCTS};
use crate::policy::{Agent, RawPolicy, UNIT};

verus! {

/// Play one full game by repeated search: starting from a fresh game, run
/// `search_steps` iterations on a brand-new tree per move, step to the
/// most-visited child, and record each pre-move state with its visit-count
/// policy. On termination the outcome (UNIT for a decisive win, 0 for a
/// draw, from the side of the player who made the terminal move) is
/// back-assigned with alternating sign walking backward from the last ply.
fn play_one_game<G: Game<N>, A: Agent<G, N>, const N: usize>(
    agent: &mut A,
    search_steps: u32,
) -> (r: (Vec<G>, Vec<i64>, Vec<RawPolicy<N>>))
    requires
        2 <= search_steps <= MAX_VISITS,
        N <= 100_000,
    ensures
        r.0@.len() == r.1@.len(),
        r.1@.len() == r.2@.len(),
        r.0@.len() >= 1,
        forall|i: int| 0 <= i < r.2@.len() ==> (#[trigger] r.2@[i]).wf(),
        forall|i: int| 0 <= i < r.0@.len() ==> (#[trigger] r.0@[i]).wf(),
{
    let mut games: Vec<G> = Vec::new();
    let mut policies: Vec<RawPolicy<N>> = Vec::new();
    let mut current: G = G::new_game();
    games.push(current);
    let mut done = false;
    let mut final_value: i64 = 0;
    while !done
        invariant
            2 <= search_steps <= MAX_VISITS,
            N <= 100_000,
            games@.len() >= 1,
            games@.len() == policies@.len() + if done {
                0int
            } else {
                1int
            },
            current == games@[games@.len() - 1],
            current.wf(),
            !done ==> !current.over_spec(),
            forall|i: int| 0 <= i < policies@.len() ==> (#[trigger] policies@[i]).wf(),
            forall|i: int| 0 <= i < games@.len() ==> (#[trigger] games@[i]).wf(),
            0 <= final_value <= UNIT,
        decreases
            (if done {
                0int
            } else {
                1int
            }),
            current.blanks_spec(),
    {
        let mut mcts = MCTS::<G, N>::from_root_game_state(current);
        mcts.run_search(agent, search_steps);
        let (best_id, raw_policy) = mcts.select_best_child();
        policies.push(raw_policy);
        let best_node = mcts.nodes[best_id];
        proof {
            // The chosen child is one of the root's children, so its state
            // is the successor of the current state under one legal move.
            let j = choose|j: int|
                #[trigger] mcts.first_max_visits(j) && best_id as int == mcts.children@[0]@[j] as int;
            assert(mcts.children_match(0));
            assert(best_node.game_state == current.step_spec(current.moves_spec()[j]));
            current.lemma_moves();
            assert(current.moves_spec().contains(current.moves_spec()[j]));
            current.lemma_step(current.moves_spec()[j]);
        }
        if best_node.is_terminal() {
            let status = best_node.game_state.status();
            final_value = match status {
                GameStatus::Won { .. } => UNIT,
                _ => 0,
            };
            done = true;
        } else {
            current = best_node.game_state;
            games.push(current);
        }
    }
    // Back-assign the outcome: the last recorded ply gets `final_value`,
    // and the sign alternates walking backward toward the first ply.
    let len = games.len();
    let mut values: Vec<i64> = Vec::new();
    let mut k: usize = 0;
    while k < len
        invariant
            k <= len,
            values@.len() == k,
            0 <= final_value <= UNIT,
            forall|i: int|
                0 <= i < k ==> #[trigger] values@[i] == if (len - 1 - i) % 2 == 0 {
                    final_value as int
                } else {
                    -final_value as int
                },
        decreases len - k,
    {
        if (len - 1 - k) % 2 == 0 {
            values.push(final_value);
        } else {
            values.push(-final_value);
        }
        k = k + 1;
    }
    (games, values, policies)
}

/// Self-play data generation: play `n_games` full games, each move decided
/// by a fresh tree searched for exactly `search_steps` iterations, and
/// collect every recorded ply into one replay buffer. Every game terminates
/// (each move fills a cell), and each contributes at least one example, so
/// the buffer holds at least `n_games` equal-length entries.
pub fn self_play<G: Game<N>, A: Agent<G, N>, const N: usize>(
    agent: &mut A,
    n_games: usize,
    search_steps: u32,
) -> (r: ReplayBuffer<G, N>)
    requires
        2 <= search_steps <= MAX_VISITS,
        N <= 100_000,
    ensures
        r.wf(),
        r.games@.len() >= n_games,
        forall|i: int| 0 <= i < r.games@.len() ==> (#[trigger] r.games@[i]).wf(),
{
    let mut buffer: ReplayBuffer<G, N> = ReplayBuffer::new(Vec::new(), Vec::new(), Vec::new());
    let mut gi: usize = 0;
    while gi < n_games
        invariant
            2 <= search_steps <= MAX_VISITS,
            N <= 100_000,
            gi <= n_games,
            buffer.wf(),
            buffer.games@.len() >= gi,
            forall|i: int| 0 <= i < buffer.games@.len() ==> (#[trigger] buffer.games@[i]).wf(),
        decreases n_games - gi,
    {
        let (mut games, mut values, mut policies) = play_one_game(agent, search_steps);
        buffer.append(&mut games, &mut values, &mut policies);
        gi = gi + 1;
    }
    buffer
}

/// The outcome counts of a head-to-head evaluation run.
#[derive(Debug, Clone, Copy, PartialEq, Eq, Structural)]
pub struct EvaluationResults {
    pub agent1_wins: usize,
    pub agent2_wins: usize,
    pub draws: usize,
}

impl Default for EvaluationResults {
    fn default() -> (r: Self)
        ensures
            r == (EvaluationResults { agent1_wins: 0usize, agent2_wins: 0usize, draws: 0usize }),
    {
        EvaluationResults { agent1_wins: 0, agent2_wins: 0, draws: 0 }
    }
}

/// Pit two evaluators against each other for `n_games` full games: the
/// first player's moves are decided by `agent1`, the second player's by
/// `agent2`, each through a fresh `search_steps`-iteration tree. Every game
/// ends in exactly one of the three outcomes.
pub fn evaluate_agents<G: Game<N>, const N: usize, A1: Agent<G, N>, A2: Agent<G, N>>(
    agent1: &mut A1,
    agent2: &mut A2,
    n_games: usize,
    search_steps: u32,
) -> (r: EvaluationResults)
    requires
        2 <= search_steps <= MAX_VISITS,
        N <= 100_000,
        n_games <= 1000000,
    ensures
        r.agent1_wins + r.agent2_wins + r.draws == n_games,
{
    let mut results = EvaluationResults::default();
    let mut gi: usize = 0;
    while gi < n_games
        invariant
            2 <= search_steps <= MAX_VISITS,
            N <= 100_000,
            n_games <= 1000000,
            gi <= n_games,
            results.agent1_wins + results.agent2_wins + results.draws == gi,
        decreases n_games - gi,
    {
        let mut game: G = G::new_game();
        let mut finished = false;
        while !finished
            invariant
                2 <= search_steps <= MAX_VISITS,
                N <= 100_000,
                game.wf(),
                gi < n_games <= 1000000,
                results.agent1_wins + results.agent2_wins + results.draws == gi + if finished {
                    1int
                } else {
                    0int
                },
            decreases
                (if finished {
                    0int
                } else {
                    1int
                }),
                game.blanks_spec(),
        {
            let status = game.status();
            match status {
                GameStatus::InProgress { player } => {
                    let next = if player.index() == 0 {
                        let mut mcts = MCTS::<G, N>::from_root_game_state(game);
                        mcts.run_search(agent1, search_steps);
                        let (best_id, _policy) = mcts.select_best_child();
                        let node = mcts.nodes[best_id];
                        proof {
                            let j = choose|j: int|
                                #[trigger] mcts.first_max_visits(j) && best_id as int
                                    == mcts.children@[0]@[j] as int;
                            assert(mcts.children_match(0));
                            game.lemma_moves();
                            assert(game.moves_spec().contains(game.moves_spec()[j]));
                            game.lemma_step(game.moves_spec()[j]);
                        }
                        node.game_state
                    } else {
                        let mut mcts = MCTS::<G, N>::from_root_game_state(game);
                        mcts.run_search(agent2, search_steps);
                        let (best_id, _policy) = mcts.select_best_child();
                        let node = mcts.nodes[best_id];
                        proof {
                            let j = choose|j: int|
                                #[trigger] mcts.first_max_visits(j) && best_id as int
                                    == mcts.children@[0]@[j] as int;
                            assert(mcts.children_match(0));
                            game.lemma_moves();
                            assert(game.moves_spec().contains(game.moves_spec()[j]));
                            game.lemma_step(game.moves_spec()[j]);
                        }
                        node.game_state
                    };
                    game = next;
                },
                GameStatus::Draw => {
                    results.draws = results.draws + 1;
                    finished = true;
                },
                GameStatus::Won { player } => {
                    if player.index() == 0 {
                        results.agent1_wins = results.agent1_wins + 1;
                    } else {
                        results.agent2_wins = results.agent2_wins + 1;
                    }
                    finished = true;
                },
            }
        }
        gi = gi + 1;
    }
    results
}

} // verus!
