use sigmazero::data::ReplayBuffer;
use sigmazero::game::Game;
use sigmazero::mcts::{GameNodeState, MCTS};
use sigmazero::policies::RandomAgent;
use sigmazero::policy::{Agent, RawPolicy, UNIT};
use sigmazero::selfplay::{evaluate_agents, self_play, EvaluationResults};
use sigmazero::xo_game::XOGame;

/// A deterministic baseline: uniform full prior, value always zero.
struct ZeroAgent;

impl Agent<XOGame, 81> for ZeroAgent {
    fn eval_game(&mut self, _game: &XOGame) -> (RawPolicy<81>, i64) {
        (RawPolicy::new(vec![UNIT; 81]), 0)
    }
}

#[test]
fn test_rotation() {
    // A grid where each cell holds its own index.
    let mut initial = Vec::new();
    for i in 0..81 {
        initial.push(i as i64);
    }
    let policy = RawPolicy::<81>::new(initial);

    let rotated = XOGame::rotate_raw_policy_90(&policy);

    // After the quarter turn:
    // - (0,0) -> (8,0) : 0 moves to index 8
    // - (8,0) -> (8,8) : 8 moves to index 80
    // - (0,8) -> (0,0) : 72 moves to index 0
    // - (8,8) -> (0,8) : 80 moves to index 72
    assert_eq!(rotated.get(8), 0);
    assert_eq!(rotated.get(80), 8);
    assert_eq!(rotated.get(0), 72);
    assert_eq!(rotated.get(72), 80);

    // The centre stays put.
    assert_eq!(rotated.get(40), 40);

    // A few more cells.
    assert_eq!(rotated.get(17), 1);
    assert_eq!(rotated.get(7), 9);
    assert_eq!(rotated.get(63), 79);
    assert_eq!(rotated.get(10), 64);

    assert_eq!(
        policy,
        XOGame::rotate_raw_policy_90(&XOGame::rotate_raw_policy_90(
            &XOGame::rotate_raw_policy_90(&XOGame::rotate_raw_policy_90(&policy))
        ))
    );
}

#[test]
fn policy_reflection_twice_is_identity() {
    let mut initial = Vec::new();
    for i in 0..81 {
        initial.push((i * 7 % 13) as i64);
    }
    let policy = RawPolicy::<81>::new(initial);
    let back = XOGame::reflect_raw_policy_vertical(&XOGame::reflect_raw_policy_vertical(&policy));
    assert_eq!(back, policy);
}

#[test]
fn augment_raw_policy_yields_eight_variants() {
    let policy = RawPolicy::<81>::new(vec![1; 81]);
    let variants = XOGame::augment_raw_policy(&policy);
    assert_eq!(variants.len(), 8);
    assert_eq!(variants[0], policy);
}

#[test]
fn mask_policy_renormalizes_to_one() {
    let mut entries = Vec::new();
    for i in 0..81 {
        entries.push(1 + (i as i64 % 7));
    }
    let raw = RawPolicy::<81>::new(entries);
    let game = XOGame::default();
    let masked = raw.mask_policy(&game);
    assert_eq!(masked.len(), 81);
    let mut sum = 0i64;
    for k in 0..masked.len() {
        let p = masked.probability_at(k);
        assert!(p >= 0 && p <= UNIT);
        sum += p;
    }
    assert_eq!(sum, UNIT);
}

#[test]
fn backup_alternates_signs_along_the_path() {
    // Build a three-level chain root -> mid -> leaf by expanding twice,
    // then back a full win up the path: the leaf is credited +1, the mid
    // node -1, and the root +1 again.
    let mut agent = ZeroAgent;
    let mut mcts = MCTS::<XOGame, 81>::from_root_game_state(XOGame::default());
    mcts.expand(&mut agent, 0);
    let mid = mcts.children[0][0];
    mcts.expand(&mut agent, mid);
    let leaf = mcts.children[mid][0];
    mcts.backup(vec![0, mid, leaf], UNIT);
    assert_eq!(mcts.nodes[leaf].total_value, UNIT);
    assert_eq!(mcts.nodes[mid].total_value, -UNIT);
    assert_eq!(mcts.nodes[0].total_value, UNIT);
    assert_eq!(mcts.nodes[leaf].num_visits, 1);
    assert_eq!(mcts.nodes[mid].num_visits, 1);
    assert_eq!(mcts.nodes[0].num_visits, 1);
}

#[test]
fn select_stops_at_an_unexpanded_node() {
    let mut agent = ZeroAgent;
    let mut mcts = MCTS::<XOGame, 81>::from_root_game_state(XOGame::default());
    // A fresh root is not expanded: selection stops immediately.
    let path = mcts.select();
    assert_eq!(path, vec![0]);
    let value = mcts.expand(&mut agent, 0);
    assert_eq!(value, 0);
    mcts.backup(path, value);
    // With equal priors and no visits anywhere, all scores tie and the
    // first child (creation order) is selected.
    let path = mcts.select();
    assert_eq!(path, vec![0, 1]);
    assert!(matches!(mcts.nodes[0].node_state, GameNodeState::Expanded { is_terminal: false }));
}

#[test]
fn expansion_creates_one_child_per_legal_move() {
    let mut agent = ZeroAgent;
    let mut mcts = MCTS::<XOGame, 81>::from_root_game_state(XOGame::default());
    mcts.expand(&mut agent, 0);
    assert_eq!(mcts.children[0].len(), 81);
    // Renormalized equal priors over 81 moves sum to exactly UNIT.
    let mut prior_sum = 0i64;
    for k in 0..mcts.children[0].len() {
        prior_sum += mcts.nodes[mcts.children[0][k]].prior_prob;
    }
    assert_eq!(prior_sum, UNIT);
}

#[test]
fn search_and_best_child_build_a_policy() {
    let mut agent = ZeroAgent;
    let mut mcts = MCTS::<XOGame, 81>::from_root_game_state(XOGame::default());
    mcts.run_search(&mut agent, 16);
    let (best, policy) = mcts.select_best_child();
    assert!(best >= 1 && best < mcts.nodes.len());
    assert_eq!(policy.len(), 81);
    let mut sum = 0i64;
    for i in 0..81 {
        assert!(policy.get(i) >= 0);
        sum += policy.get(i);
    }
    // Floor rounding can lose at most a little mass; it never exceeds one.
    assert!(sum <= UNIT);
    assert!(sum > 0);
}

#[test]
fn self_play_terminates_with_parallel_records() {
    let mut agent = ZeroAgent;
    let buffer = self_play(&mut agent, 1, 2);
    assert!(buffer.len() >= 1);
    assert_eq!(buffer.games.len(), buffer.values.len());
    assert_eq!(buffer.values.len(), buffer.policies.len());
}

#[test]
fn self_play_with_random_agent_is_reproducible() {
    let mut agent1 = RandomAgent::with_seed(7);
    let buffer1 = self_play(&mut agent1, 1, 2);
    let mut agent2 = RandomAgent::with_seed(7);
    let buffer2 = self_play(&mut agent2, 1, 2);
    assert_eq!(buffer1.len(), buffer2.len());
    assert_eq!(buffer1.values, buffer2.values);
}

#[test]
fn replay_buffer_keeps_parallel_lengths() {
    let mut buffer: ReplayBuffer<XOGame, 81> =
        ReplayBuffer::new(Vec::new(), Vec::new(), Vec::new());
    assert_eq!(buffer.len(), 0);
    let mut games = vec![XOGame::default(), XOGame::default()];
    let mut values = vec![UNIT, -UNIT];
    let mut policies = vec![RawPolicy::new(vec![0; 81]), RawPolicy::new(vec![1; 81])];
    buffer.append(&mut games, &mut values, &mut policies);
    assert_eq!(buffer.len(), 2);
    assert_eq!(buffer.games.len(), buffer.values.len());
    assert_eq!(buffer.values.len(), buffer.policies.len());
    let (_, v, _) = buffer.item(0);
    assert_eq!(v, UNIT);
}

#[test]
fn augmentation_grows_ninefold_with_values_kept() {
    let mut buffer: ReplayBuffer<XOGame, 81> =
        ReplayBuffer::new(Vec::new(), Vec::new(), Vec::new());
    let mut games = vec![XOGame::default()];
    let mut values = vec![UNIT];
    let mut policies = vec![RawPolicy::new(vec![2; 81])];
    buffer.append(&mut games, &mut values, &mut policies);
    buffer.augment();
    assert_eq!(buffer.len(), 9);
    assert_eq!(buffer.games.len(), buffer.values.len());
    assert_eq!(buffer.values.len(), buffer.policies.len());
    for i in 0..9 {
        let (_, v, _) = buffer.item(i);
        assert_eq!(v, UNIT);
    }
}

#[test]
fn evaluate_agents_accounts_every_game() {
    let mut agent1 = ZeroAgent;
    let mut agent2 = RandomAgent::with_seed(3);
    let results: EvaluationResults = evaluate_agents(&mut agent1, &mut agent2, 1, 2);
    assert_eq!(results.agent1_wins + results.agent2_wins + results.draws, 1);
}

#[test]
fn random_game_always_terminates() {
    let mut rng = sigmazero::policies::rng_from_seed(11);
    for _ in 0..3 {
        let _winner = sigmazero::policies::play_random_game(&mut rng);
    }
}
