//! The capability interfaces the search engine depends on: players,
//! positions, game status, and the game contract itself.

use vstd::prelude::*;
use crate::small_board::XOPlayer;

verus! {

/// One side of a two-player game. A player is identified by an index in
/// {0, 1}; `other_player` swaps the two.
pub trait Player: Sized + Clone + Copy {
    spec fn idx_spec(&self) -> int;

    proof fn lemma_two_players(&self)
        ensures
            self.idx_spec() == 0 || self.idx_spec() == 1,
    ;

    fn other_player(&self) -> (r: Self)
        ensures
            r.idx_spec() == 1 - self.idx_spec(),
    ;

    /// The player that moves first in a fresh game.
    fn first() -> (r: Self)
        ensures
            r.idx_spec() == 0,
    ;

    /// The player's index, 0 or 1.
    fn index(&self) -> (r: u8)
        ensures
            r as int == self.idx_spec(),
    ;
}

impl Player for XOPlayer {
    open spec fn idx_spec(&self) -> int {
        self.idx()
    }

    proof fn lemma_two_players(&self) {
    }

    fn other_player(&self) -> (r: Self) {
        match self {
            XOPlayer::X => XOPlayer::O,
            XOPlayer::O => XOPlayer::X,
        }
    }

    fn first() -> (r: Self) {
        XOPlayer::X
    }

    fn index(&self) -> (r: u8) {
        match self {
            XOPlayer::X => 0,
            XOPlayer::O => 1,
        }
    }
}

/// A board cell identified by two small coordinates, convertible to a dense
/// action index in `[0, N)`; the conversion is injective over valid cells.
pub trait Position: Sized + Clone + Copy {
    spec fn valid_spec(&self) -> bool;

    /// The dense action index of a valid position.
    spec fn index_spec(&self) -> int;

    fn new(x: u8, y: u8) -> Self;

    fn is_valid(&self) -> (r: bool)
        ensures
            r == self.valid_spec(),
    ;

    fn to_index(&self) -> (r: usize)
        requires
            self.valid_spec(),
        ensures
            r as int == self.index_spec(),
    ;
}

/// A list of positions, as handed out by move enumeration.
pub struct PositionList<P: Position>(pub Vec<P>);

impl<P: Position> View for PositionList<P> {
    type V = Seq<P>;

    open spec fn view(&self) -> Seq<P> {
        self.0@
    }
}

impl<P: Position> PositionList<P> {
    pub fn new(positions: Vec<P>) -> (r: Self)
        ensures
            r@ == positions@,
    {
        PositionList(positions)
    }

    pub fn len(&self) -> (r: usize)
        ensures
            r == self@.len(),
    {
        self.0.len()
    }

    pub fn get(&self, i: usize) -> (r: P)
        requires
            i < self@.len(),
        ensures
            r == self@[i as int],
    {
        self.0[i]
    }
}

/// Exactly one of the three cases holds of any state: the game is running
/// with a player to move, one player has won, or the game is drawn.
#[derive(Debug, Clone, Copy)]
pub enum GameStatus<P: Player> {
    InProgress { player: P },
    Won { player: P },
    Draw,
}

impl<P: Player> GameStatus<P> {
    /// The game has ended, by a win or by a draw.
    pub open spec fn is_over(self) -> bool {
        !(self is InProgress)
    }
}

/// The recoverable failures of `take_turn`: the move is illegal, or the game
/// already ended.
#[derive(Debug, Clone, Copy)]
pub enum GameError<P: Position> {
    InvalidMove { position: P },
    GameOver,
}

/// A deterministic, perfect-information, two-player, zero-sum game with a
/// fixed action space of `N` dense action indices.
///
/// The spec functions form the abstract model: whether the state is over or
/// won, the legal moves in enumeration order, the successor of a legal move,
/// and the number of blank cells (which every move strictly decreases, so any
/// play terminates).
pub trait Game<const N: usize>: Sized + Clone + Copy {
    type Player: Player;

    type Position: Position;

    spec fn wf(self) -> bool;

    /// The state is terminal (won or drawn).
    spec fn over_spec(self) -> bool;

    /// The state is won (by the player who moved into it).
    spec fn won_spec(self) -> bool;

    /// The legal moves, in the order move enumeration hands them out.
    spec fn moves_spec(self) -> Seq<Self::Position>;

    /// The successor state after a legal move.
    spec fn step_spec(self, position: Self::Position) -> Self;

    /// How many cells are still blank; strictly decreases with every move.
    spec fn blanks_spec(self) -> nat;

    /// Every reachable state has exactly one status; the legal moves run out
    /// exactly when the game is over, are all valid, and carry distinct
    /// action indices below `N`.
    proof fn lemma_moves(self)
        requires
            self.wf(),
        ensures
            self.moves_spec().len() == 0 <==> self.over_spec(),
            self.moves_spec().len() <= N,
            forall|k: int|
                0 <= k < self.moves_spec().len() ==> (#[trigger] self.moves_spec()[k]).valid_spec()
                    && 0 <= self.moves_spec()[k].index_spec() < N,
            forall|k: int, l: int|
                0 <= k < l < self.moves_spec().len() ==> self.moves_spec()[k].index_spec()
                    != self.moves_spec()[l].index_spec(),
    ;

    /// A legal move leads to a well-formed state with strictly fewer blanks.
    proof fn lemma_step(self, position: Self::Position)
        requires
            self.wf(),
            self.moves_spec().contains(position),
        ensures
            self.step_spec(position).wf(),
            self.step_spec(position).blanks_spec() < self.blanks_spec(),
    ;

    /// The starting state of a fresh game.
    fn new_game() -> (g: Self)
        ensures
            g.wf(),
            !g.over_spec(),
    ;

    fn status(&self) -> (s: GameStatus<Self::Player>)
        requires
            self.wf(),
        ensures
            s is InProgress <==> !self.over_spec(),
            s is Won <==> self.won_spec(),
    ;

    fn valid_moves(&self) -> (v: PositionList<Self::Position>)
        requires
            self.wf(),
        ensures
            v@ == self.moves_spec(),
    ;

    fn take_turn(&mut self, position: &Self::Position) -> (r: Result<
        GameStatus<Self::Player>,
        GameError<Self::Position>,
    >)
        requires
            old(self).wf(),
        ensures
            final(self).wf(),
            old(self).over_spec() ==> r == Err::<GameStatus<Self::Player>, _>(
                GameError::<Self::Position>::GameOver,
            ) && *final(self) == *old(self),
            !old(self).over_spec() && !old(self).moves_spec().contains(*position) ==> r == Err::<
                GameStatus<Self::Player>,
                _,
            >(GameError::InvalidMove { position: *position }) && *final(self) == *old(self),
            !old(self).over_spec() && old(self).moves_spec().contains(*position) ==> *final(self)
                == old(self).step_spec(*position) && (r matches Ok(s) && (s is InProgress
                <==> !final(self).over_spec()) && (s is Won <==> final(self).won_spec())),
    ;

    /// The eight symmetry variants of this state paired with the matching
    /// permutations of a raw policy vector: the four rotations of the state
    /// and the four rotations of its reflection.
    fn augmented_with_raw_policy(&self, raw_policy: &crate::policy::RawPolicy<N>) -> (r: (
        Vec<Self>,
        Vec<crate::policy::RawPolicy<N>>,
    ))
        requires
            self.wf(),
            raw_policy.wf(),
        ensures
            r.0@.len() == 8,
            r.1@.len() == 8,
            r.0@[0] == *self,
            forall|k: int| 0 <= k < 8 ==> (#[trigger] r.1@[k]).wf(),
    ;
}

} // verus!
