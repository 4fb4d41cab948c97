//! Baseline evaluators: a seeded random agent handing back a uniform prior
//! and a small random value jitter. The randomness comes from an explicit,
//! injectable generator, so runs are reproducible given a fixed seed.

use vstd::prelude::*;
use crate::game::Game;
use crate::policy::{Agent, RawPolicy, UNIT};
use crate::xo_game::XOGame;

verus! {

#[verifier::external_type_specification]
#[verifier::external_body]
pub struct ExStdRng(rand::rngs::StdRng);

/// Relies on rand's `SeedableRng::seed_from_u64` for `StdRng`: builds a
/// generator from a 64-bit seed.
#[verifier::external_body]
pub fn rng_from_seed(seed: u64) -> rand::rngs::StdRng {
    <rand::rngs::StdRng as rand::SeedableRng>::seed_from_u64(seed)
}

/// Relies on rand's `RngCore::next_u32` for `StdRng`: draws the generator's
/// next word; nothing is promised of the value.
#[verifier::external_body]
pub fn next_random(rng: &mut rand::rngs::StdRng) -> u32 {
    rand::RngCore::next_u32(rng)
}

/// Play one game with both sides choosing uniformly random legal moves,
/// returning the winner, or nothing when the game ends in a draw. Every
/// move fills a cell, so the game always terminates.
pub fn play_random_game(rng: &mut rand::rngs::StdRng) -> (winner: Option<
    crate::small_board::XOPlayer,
>) {
    let mut game = XOGame::default();
    let mut result: Option<crate::small_board::XOPlayer> = None;
    let mut done = false;
    while !done
        invariant
            game.wf(),
            !done ==> !game.over_spec(),
        decreases
            (if done {
                0int
            } else {
                1int
            }),
            game.blanks_spec(),
    {
        let moves = game.valid_moves();
        proof {
            game.lemma_moves();
        }
        let pick = (next_random(rng) as usize) % moves.len();
        let mv = moves.get(pick);
        proof {
            assert(game.moves_spec()[pick as int] == mv);
            assert(game.moves_spec().contains(mv));
            game.lemma_step(mv);
        }
        let turn_result = game.take_turn(&mv);
        match game.status() {
            crate::game::GameStatus::Won { player } => {
                result = Some(player);
                done = true;
            },
            crate::game::GameStatus::Draw => {
                result = None;
                done = true;
            },
            crate::game::GameStatus::InProgress { player: _ } => {},
        }
        let _ = turn_result;
    }
    result
}

/// A baseline evaluator: every action gets the same full prior, and the
/// value estimate is a small random number in [-0.1, 0.1].
pub struct RandomAgent {
    pub rng: rand::rngs::StdRng,
}

impl RandomAgent {
    pub fn with_seed(seed: u64) -> RandomAgent {
        RandomAgent { rng: rng_from_seed(seed) }
    }
}

impl Agent<XOGame, 81> for RandomAgent {
    fn eval_game(&mut self, _game: &XOGame) -> (r: (RawPolicy<81>, i64)) {
        let mut entries: Vec<i64> = Vec::new();
        let mut i: usize = 0;
        while i < 81
            invariant
                i <= 81,
                entries@.len() == i,
                forall|j: int| 0 <= j < i ==> #[trigger] entries@[j] == UNIT,
            decreases 81 - i,
        {
            entries.push(UNIT);
            i = i + 1;
        }
        let policy = RawPolicy::new(entries);
        let draw = next_random(&mut self.rng);
        let jitter = ((draw % 2001) as i64) - 1000;
        (policy, jitter)
    }
}

} // verus!
