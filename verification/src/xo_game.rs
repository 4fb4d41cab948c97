//! The concrete game the engine searches: the main board wrapped with turn
//! and status bookkeeping, the `Game` trait implementation, the evaluator
//! feature encoding, and the symmetry augmentation of board/policy pairs.

use vstd::prelude::*;
use crate::board::{
    MainBoard, XOPosition, XOPositionList, large_flat, small_flat, lemma_subpos_of_cell,
};
use crate::game::{Game, GameError, GameStatus, Position};
use crate::policy::RawPolicy;
use crate::small_board::{XOPlayer, lemma_set_get, lemma_set_cell_spec_inv, lemma_empty_board};

verus! {

pub type XOGameStatus = GameStatus<XOPlayer>;

/// A snapshot of one game: the board and whose turn it is, or how it ended.
#[derive(Clone, Copy)]
#[verifier::ext_equal]
pub struct XOGame {
    pub board: MainBoard,
    pub status: GameStatus<XOPlayer>,
}

/// The dense index of the global cell `g` as a position: `g = x + 9 * y`.
pub open spec fn pos_of(g: int) -> XOPosition {
    XOPosition { x: (g % 9) as u8, y: (g / 9) as u8 }
}

/// How many of the first `n` global cells are free.
pub open spec fn empty_up_to(m: MainBoard, n: int) -> nat
    decreases n,
{
    if n <= 0 {
        0
    } else {
        empty_up_to(m, n - 1) + if m.cell(pos_of(n - 1)) is None {
            1nat
        } else {
            0nat
        }
    }
}

/// The board after `player` takes cell `p`: the owning sub-board is
/// updated, a newly decided sub-board marks its winner on the meta board,
/// and `p` becomes the last move.
pub open spec fn next_board(m: MainBoard, p: XOPosition, player: XOPlayer) -> MainBoard {
    let s = large_flat(p);
    let sub2 = m.sub(s).set_cell_spec(small_flat(p), player);
    MainBoard {
        small_boards: vstd::array::spec_array_update(m.small_boards, s, sub2),
        board: match sub2.winner_spec() {
            Some(w) => m.board.set_cell_spec(s, w),
            None => m.board,
        },
        last_move: Some(p),
    }
}

/// After a move the board's cells change at exactly the played cell.
pub proof fn lemma_next_board_cells(m: MainBoard, p: XOPosition, player: XOPlayer, q: XOPosition)
    requires
        m.inv(),
        p.valid_spec(),
        q.valid_spec(),
    ensures
        next_board(m, p, player).cell(q) == if q == p {
            Some(player)
        } else {
            m.cell(q)
        },
{
    let nb = next_board(m, p, player);
    lemma_subpos_of_cell(p);
    lemma_subpos_of_cell(q);
    if large_flat(q) == large_flat(p) {
        assert(nb.sub(large_flat(q)) == m.sub(large_flat(p)).set_cell_spec(
            small_flat(p),
            player,
        ));
        lemma_set_get(m.sub(large_flat(p)), small_flat(p), player, small_flat(q));
        if small_flat(q) == small_flat(p) {
            assert(q == p);
        } else {
            assert(q != p);
        }
    } else {
        assert(nb.sub(large_flat(q)) == m.sub(large_flat(q)));
        assert(q != p);
    }
}

/// The board after a move is still well formed.
pub proof fn lemma_next_board_inv(m: MainBoard, p: XOPosition, player: XOPlayer)
    requires
        m.inv(),
        p.valid_spec(),
    ensures
        next_board(m, p, player).inv(),
{
    let s = large_flat(p);
    lemma_subpos_of_cell(p);
    lemma_set_cell_spec_inv(m.sub(s), small_flat(p), player);
    let sub2 = m.sub(s).set_cell_spec(small_flat(p), player);
    match sub2.winner_spec() {
        Some(w) => {
            lemma_set_cell_spec_inv(m.board, s, w);
        },
        None => {},
    }
    assert forall|t: int| 0 <= t < 9 implies (#[trigger] next_board(m, p, player).small_boards@[t]).inv() by {
        if t != s {
            assert(next_board(m, p, player).small_boards@[t] == m.small_boards@[t]);
        }
    }
}

/// Changing exactly one cell from free to owned lowers the free-cell count
/// of the first `n` cells by one when the cell lies among them.
pub proof fn lemma_empty_count_step(m1: MainBoard, m2: MainBoard, p: XOPosition, n: int)
    requires
        p.valid_spec(),
        0 <= n <= 81,
        m1.cell(p) is None,
        m2.cell(p) is Some,
        forall|q: XOPosition|
            q.valid_spec() && q != p ==> #[trigger] m2.cell(q) == m1.cell(q),
    ensures
        empty_up_to(m2, n) == if p.index_spec() < n {
            (empty_up_to(m1, n) - 1) as nat
        } else {
            empty_up_to(m1, n)
        },
    decreases n,
{
    if n > 0 {
        lemma_empty_count_step(m1, m2, p, n - 1);
        if p.index_spec() < n {
            lemma_empty_count_positive(m1, p, n);
        }
        if p.index_spec() < n - 1 {
            lemma_empty_count_positive(m1, p, n - 1);
        }
        let q = pos_of(n - 1);
        assert(q.valid_spec());
        assert(q.index_spec() == n - 1);
        if q == p {
            assert(9 * ((n - 1) / 9) + (n - 1) % 9 == n - 1) by (nonlinear_arith);
            assert(p.index_spec() == n - 1);
        } else {
            assert(m2.cell(q) == m1.cell(q));
            if p.index_spec() == n - 1 {
                assert((p.x + 9 * p.y) % 9 == p.x as int && (p.x + 9 * p.y) / 9 == p.y as int)
                    by (nonlinear_arith)
                    requires
                        0 <= p.x < 9,
                        0 <= p.y < 9,
                ;
                assert(q == p);
            }
        }
    }
}

/// Free cells are never counted negative: a board with a free valid cell
/// has a positive count.
pub proof fn lemma_empty_count_positive(m: MainBoard, p: XOPosition, n: int)
    requires
        p.valid_spec(),
        m.cell(p) is None,
        p.index_spec() < n <= 81,
    ensures
        empty_up_to(m, n) >= 1,
    decreases n,
{
    if p.index_spec() == n - 1 {
        assert(pos_of(n - 1) == p);
    } else {
        lemma_empty_count_positive(m, p, n - 1);
    }
}

impl XOGame {
    /// The player to move; meaningful only while the game runs.
    pub open spec fn turn_player(self) -> XOPlayer {
        match self.status {
            GameStatus::InProgress { player } => player,
            GameStatus::Won { player } => player,
            GameStatus::Draw => XOPlayer::X,
        }
    }

    /// The status always matches the board: a running game has no winner
    /// and at least one playable cell, a won game has that winner on the
    /// meta board, and a drawn game has no winner and no playable cell.
    pub open spec fn wf_spec(self) -> bool {
        &&& self.board.inv()
        &&& match self.status {
            GameStatus::InProgress { player: _ } => self.board.winner_spec() is None
                && self.board.available_spec().len() > 0,
            GameStatus::Won { player } => self.board.winner_spec() == Some(player),
            GameStatus::Draw => self.board.winner_spec() is None
                && self.board.available_spec().len() == 0,
        }
    }

    /// The feature encoding for the evaluator: three channels of 81 cells
    /// (the mover's stones, the opponent's stones, the last move),
    /// flattened channel-major. The shape is a stable contract with the
    /// evaluator.
    pub fn features(&self) -> (r: Vec<i64>)
        requires
            self.wf_spec(),
            !self.over_spec(),
        ensures
            r@.len() == 243,
            forall|ch: int, g: int|
                0 <= ch < 3 && 0 <= g < 81 ==> #[trigger] r@[ch * 81 + g]
                    == self.board.feature_at(self.turn_player(), ch, g),
    {
        let current_player = match self.status {
            GameStatus::InProgress { player } => player,
            _ => XOPlayer::X,
        };
        self.board.features_for_player(current_player)
    }

    /// A read-only view of the wrapped board.
    pub fn board(&self) -> (r: &MainBoard)
        ensures
            *r == self.board,
    {
        &self.board
    }
}

impl Default for XOGame {
    /// A fresh game: the empty board, X to move.
    fn default() -> (r: Self)
        ensures
            r.wf_spec(),
            !r.over_spec(),
            r.board.last_move is None,
            r.status == (GameStatus::InProgress { player: XOPlayer::X }),
            forall|q: XOPosition| q.valid_spec() ==> #[trigger] r.board.cell(q) is None,
    {
        let board = MainBoard::default();
        proof {
            assert forall|q: XOPosition| q.valid_spec() implies #[trigger] board.cell(q) is None by {
                lemma_subpos_of_cell(q);
                lemma_empty_board(small_flat(q));
            }
            lemma_empty_board(0);
            let origin = XOPosition { x: 0u8, y: 0u8 };
            assert(large_flat(origin) == 0 && small_flat(origin) == 0);
            board.lemma_avail_membership(9, origin);
            assert(board.available_spec().contains(origin));
        }
        XOGame { board, status: GameStatus::InProgress { player: XOPlayer::X } }
    }
}

impl Game<81> for XOGame {
    type Player = XOPlayer;

    type Position = XOPosition;

    open spec fn wf(self) -> bool {
        self.wf_spec()
    }

    open spec fn over_spec(self) -> bool {
        !(self.status is InProgress)
    }

    open spec fn won_spec(self) -> bool {
        self.status is Won
    }

    open spec fn moves_spec(self) -> Seq<XOPosition> {
        self.board.valid_moves_spec()
    }

    open spec fn step_spec(self, position: XOPosition) -> XOGame {
        let nb = next_board(self.board, position, self.turn_player());
        XOGame {
            board: nb,
            status: match nb.winner_spec() {
                Some(w) => GameStatus::Won { player: w },
                None => if nb.available_spec().len() == 0 {
                    GameStatus::Draw
                } else {
                    GameStatus::InProgress { player: self.turn_player().other_spec() }
                },
            },
        }
    }

    open spec fn blanks_spec(self) -> nat {
        empty_up_to(self.board, 81)
    }

    proof fn lemma_moves(self) {
        let moves = self.board.valid_moves_spec();
        match self.status {
            GameStatus::InProgress { player: _ } => {
                match self.board.last_move {
                    None => {},
                    Some(lm) => {
                        lemma_subpos_of_cell(lm);
                    },
                }
            },
            GameStatus::Won { player: _ } => {},
            GameStatus::Draw => {
                self.board.lemma_avail_empty(9);
                match self.board.last_move {
                    None => {},
                    Some(lm) => {
                        lemma_subpos_of_cell(lm);
                    },
                }
            },
        }
        // Length bound.
        if self.board.winner_spec() is None {
            match self.board.last_move {
                None => {
                    self.board.lemma_avail_len(9);
                },
                Some(lm) => {
                    lemma_subpos_of_cell(lm);
                    crate::small_board::lemma_free_cells_len(
                        self.board.sub(small_flat(lm)),
                        9,
                    );
                    self.board.lemma_avail_len(9);
                },
            }
        }
        // Validity and bounded, distinct indices.
        assert forall|k: int| 0 <= k < moves.len() implies (#[trigger] moves[k]).valid_spec() && 0
            <= moves[k].index_spec() < 81 by {
            assert(moves.contains(moves[k]));
            self.board.lemma_valid_moves_membership(moves[k]);
        }
        self.board.lemma_valid_moves_distinct();
        assert forall|k: int, l: int|
            0 <= k < l < moves.len() implies moves[k].index_spec() != moves[l].index_spec() by {
            assert(moves[k] != moves[l]);
        }
    }

    proof fn lemma_step(self, position: XOPosition) {
        assert(self.board.valid_moves_spec().contains(position));
        self.board.lemma_valid_moves_membership(position);
        assert(self.board.legal_spec(position));
        let nb = next_board(self.board, position, self.turn_player());
        lemma_next_board_inv(self.board, position, self.turn_player());
        assert forall|q: XOPosition| q.valid_spec() && q != position implies #[trigger] nb.cell(q)
            == self.board.cell(q) by {
            lemma_next_board_cells(self.board, position, self.turn_player(), q);
        }
        lemma_next_board_cells(self.board, position, self.turn_player(), position);
        lemma_empty_count_step(self.board, nb, position, 81);
        lemma_empty_count_positive(self.board, position, 81);
        // The successor's status matches its board by construction; for the
        // in-progress case the playable-cell count is positive by the
        // branch condition.
        assert(self.step_spec(position).wf());
    }

    fn new_game() -> (g: Self) {
        XOGame::default()
    }

    fn status(&self) -> (s: GameStatus<XOPlayer>) {
        self.status
    }

    fn valid_moves(&self) -> (v: XOPositionList) {
        self.board.valid_moves()
    }

    fn take_turn(&mut self, position: &XOPosition) -> (r: Result<
        GameStatus<XOPlayer>,
        GameError<XOPosition>,
    >) {
        let current_player = match self.status {
            GameStatus::InProgress { player } => player,
            _ => {
                return Err(GameError::GameOver);
            },
        };
        proof {
            self.board.lemma_valid_moves_membership(*position);
        }
        if !self.board.is_valid_move(position) {
            return Err(GameError::InvalidMove { position: *position });
        }
        let ghost pre = *self;
        proof {
            pre.lemma_step(*position);
        }
        self.board.set_cell(position, current_player);
        proof {
            let nb = next_board(pre.board, *position, pre.turn_player());
            assert(self.board.small_boards@ == nb.small_boards@);
            assert(self.board.small_boards =~= nb.small_boards);
            assert(self.board =~= nb);
        }
        self.status = if let Some(winner) = self.board.winner() {
            GameStatus::Won { player: winner }
        } else if self.board.is_draw() {
            GameStatus::Draw
        } else {
            GameStatus::InProgress { player: current_player.other_player() }
        };
        proof {
            assert(*self =~= pre.step_spec(*position));
        }
        Ok(self.status)
    }

    fn augmented_with_raw_policy(&self, raw_policy: &RawPolicy<81>) -> (r: (
        Vec<XOGame>,
        Vec<RawPolicy<81>>,
    )) {
        let aug_boards = self.board.augmented();
        let aug_policies = Self::augment_raw_policy(raw_policy);
        let mut aug_games: Vec<XOGame> = Vec::new();
        let mut k: usize = 0;
        while k < 8
            invariant
                k <= 8,
                aug_boards@.len() == 8,
                aug_boards@[0] == self.board,
                aug_games@.len() == k,
                forall|j: int|
                    0 <= j < k ==> (#[trigger] aug_games@[j]) == (XOGame {
                        board: aug_boards@[j],
                        status: self.status,
                    }),
            decreases 8 - k,
        {
            aug_games.push(XOGame { board: aug_boards[k], status: self.status });
            k = k + 1;
        }
        proof {
            assert(aug_games@[0] =~= *self);
        }
        (aug_games, aug_policies)
    }
}

/// The send rule: after a move at local coordinates `(lx, ly)` within a
/// sub-board, the opponent's legal moves are confined to the sub-board at
/// meta-coordinates `(lx, ly)` — unless that sub-board is already decided
/// or full, in which case every free cell of every undecided sub-board
/// anywhere becomes legal.
pub proof fn lemma_send_rule(g: XOGame, p: XOPosition, q: XOPosition)
    requires
        g.wf(),
        !g.over_spec(),
        g.moves_spec().contains(p),
    ensures
        ({
            let g2 = g.step_spec(p);
            let target = g2.board.sub(small_flat(p));
            &&& (target.valid_moves_spec().len() > 0 ==> (g2.moves_spec().contains(q) <==> (
            g2.board.winner_spec() is None && q.valid_spec() && large_flat(q) == small_flat(p)
                && g2.board.cell(q) is None)))
            &&& (target.valid_moves_spec().len() == 0 ==> (g2.moves_spec().contains(q) <==> (
            g2.board.winner_spec() is None && q.valid_spec() && g2.board.sub(
                large_flat(q),
            ).winner_spec() is None && g2.board.cell(q) is None)))
        }),
{
    g.lemma_step(p);
    let g2 = g.step_spec(p);
    assert(g2.board.inv());
    assert(g2.board.last_move == Some(p));
    g2.board.lemma_valid_moves_membership(q);
    let target = g2.board.sub(small_flat(p));
    if target.valid_moves_spec().len() > 0 {
        crate::small_board::lemma_valid_moves_len(target);
        if g2.moves_spec().contains(q) {
            assert(g2.board.legal_spec(q));
        }
        if g2.board.winner_spec() is None && q.valid_spec() && large_flat(q) == small_flat(p)
            && g2.board.cell(q) is None {
            assert(g2.board.sub(large_flat(q)).winner_spec() is None);
            assert(g2.board.legal_spec(q));
        }
    }
}

/// `b` is `a` turned a quarter turn as a policy vector: the entry of each
/// cell moves where the cell moves.
pub open spec fn rot_policy_rel(a: Seq<i64>, b: Seq<i64>) -> bool {
    &&& a.len() == 81
    &&& b.len() == 81
    &&& forall|x: int, y: int|
        0 <= x < 9 && 0 <= y < 9 ==> #[trigger] b[x + 9 * y] == a[y + 9 * (8 - x)]
}

/// `b` is `a` mirrored as a policy vector.
pub open spec fn refl_policy_rel(a: Seq<i64>, b: Seq<i64>) -> bool {
    &&& a.len() == 81
    &&& b.len() == 81
    &&& forall|x: int, y: int|
        0 <= x < 9 && 0 <= y < 9 ==> #[trigger] b[x + 9 * y] == a[(8 - x) + 9 * y]
}

/// Four successive quarter turns of a policy vector reproduce it exactly.
pub proof fn lemma_policy_rotation_round_trip(
    a: Seq<i64>,
    b: Seq<i64>,
    c: Seq<i64>,
    d: Seq<i64>,
    e: Seq<i64>,
)
    requires
        rot_policy_rel(a, b),
        rot_policy_rel(b, c),
        rot_policy_rel(c, d),
        rot_policy_rel(d, e),
    ensures
        e == a,
{
    assert forall|g: int| 0 <= g < 81 implies e[g] == a[g] by {
        let x = g % 9;
        let y = g / 9;
        assert(g == x + 9 * y);
        assert(e[x + 9 * y] == d[y + 9 * (8 - x)]);
        assert(d[y + 9 * (8 - x)] == c[(8 - x) + 9 * (8 - y)]);
        assert(c[(8 - x) + 9 * (8 - y)] == b[(8 - y) + 9 * x]);
        assert(b[(8 - y) + 9 * x] == a[x + 9 * y]);
    }
    assert(e =~= a);
}

/// A reflection of a policy vector composed with itself reproduces it.
pub proof fn lemma_policy_reflection_round_trip(a: Seq<i64>, b: Seq<i64>, c: Seq<i64>)
    requires
        refl_policy_rel(a, b),
        refl_policy_rel(b, c),
    ensures
        c == a,
{
    assert forall|g: int| 0 <= g < 81 implies c[g] == a[g] by {
        let x = g % 9;
        let y = g / 9;
        assert(g == x + 9 * y);
        assert(c[x + 9 * y] == b[(8 - x) + 9 * y]);
        assert(b[(8 - x) + 9 * y] == a[x + 9 * y]);
    }
    assert(c =~= a);
}

impl XOGame {
    /// The policy vector turned a quarter turn, with the same coordinate
    /// mapping as the board rotation.
    pub fn rotate_raw_policy_90(raw_policy: &RawPolicy<81>) -> (r: RawPolicy<81>)
        requires
            raw_policy.wf(),
        ensures
            r.wf(),
            rot_policy_rel(raw_policy.view_spec(), r.view_spec()),
    {
        let mut rotated: Vec<i64> = Vec::new();
        let mut g: usize = 0;
        while g < 81
            invariant
                raw_policy.wf(),
                g <= 81,
                rotated@.len() == g,
                forall|h: int|
                    0 <= h < g ==> #[trigger] rotated@[h] == raw_policy.view_spec()[(h / 9) + 9 * (
                    8 - (h % 9))],
                forall|h: int| 0 <= h < g ==> 0 <= #[trigger] rotated@[h],
            decreases 81 - g,
        {
            let x = g % 9;
            let y = g / 9;
            let v = raw_policy.get(y + 9 * (8 - x));
            rotated.push(v);
            g = g + 1;
        }
        let r = RawPolicy::new(rotated);
        proof {
            assert forall|x: int, y: int| 0 <= x < 9 && 0 <= y < 9 implies #[trigger] r.view_spec()[x
                + 9 * y] == raw_policy.view_spec()[y + 9 * (8 - x)] by {
                let h = x + 9 * y;
                assert(h % 9 == x && h / 9 == y);
            }
        }
        r
    }

    /// The policy vector mirrored, with the same coordinate mapping as the
    /// board reflection.
    pub fn reflect_raw_policy_vertical(raw_policy: &RawPolicy<81>) -> (r: RawPolicy<81>)
        requires
            raw_policy.wf(),
        ensures
            r.wf(),
            refl_policy_rel(raw_policy.view_spec(), r.view_spec()),
    {
        let mut reflected: Vec<i64> = Vec::new();
        let mut g: usize = 0;
        while g < 81
            invariant
                raw_policy.wf(),
                g <= 81,
                reflected@.len() == g,
                forall|h: int|
                    0 <= h < g ==> #[trigger] reflected@[h] == raw_policy.view_spec()[(8 - (h % 9))
                        + 9 * (h / 9)],
                forall|h: int| 0 <= h < g ==> 0 <= #[trigger] reflected@[h],
            decreases 81 - g,
        {
            let x = g % 9;
            let y = g / 9;
            let v = raw_policy.get((8 - x) + 9 * y);
            reflected.push(v);
            g = g + 1;
        }
        let r = RawPolicy::new(reflected);
        proof {
            assert forall|x: int, y: int| 0 <= x < 9 && 0 <= y < 9 implies #[trigger] r.view_spec()[x
                + 9 * y] == raw_policy.view_spec()[(8 - x) + 9 * y] by {
                let h = x + 9 * y;
                assert(h % 9 == x && h / 9 == y);
            }
        }
        r
    }

    /// The eight symmetry variants of a policy vector, in the same order as
    /// the board variants: the identity and its three quarter turns, then
    /// the reflection and its three quarter turns.
    pub fn augment_raw_policy(raw_policy: &RawPolicy<81>) -> (r: Vec<RawPolicy<81>>)
        requires
            raw_policy.wf(),
        ensures
            r@.len() == 8,
            forall|k: int| 0 <= k < 8 ==> (#[trigger] r@[k]).wf(),
            r@[0].view_spec() == raw_policy.view_spec(),
            forall|k: int|
                1 <= k < 4 ==> rot_policy_rel(r@[k - 1].view_spec(), #[trigger] r@[k].view_spec()),
            refl_policy_rel(r@[0].view_spec(), r@[4].view_spec()),
            forall|k: int|
                5 <= k < 8 ==> rot_policy_rel(r@[k - 1].view_spec(), #[trigger] r@[k].view_spec()),
    {
        let mut out: Vec<RawPolicy<81>> = Vec::new();
        out.push(raw_policy.clone());
        let r1 = Self::rotate_raw_policy_90(raw_policy);
        let r2 = Self::rotate_raw_policy_90(&r1);
        let r3 = Self::rotate_raw_policy_90(&r2);
        out.push(r1);
        out.push(r2);
        out.push(r3);
        let m0 = Self::reflect_raw_policy_vertical(raw_policy);
        let m1 = Self::rotate_raw_policy_90(&m0);
        let m2 = Self::rotate_raw_policy_90(&m1);
        let m3 = Self::rotate_raw_policy_90(&m2);
        out.push(m0);
        out.push(m1);
        out.push(m2);
        out.push(m3);
        out
    }
}

} // verus!
