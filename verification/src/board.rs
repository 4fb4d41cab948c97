//! The 9x9 main board: nine sub-boards, a meta board recording which player
//! has won each sub-board, the last move played, and the rules that confine
//! each move to the sub-board the previous move points at.

use vstd::prelude::*;
use crate::game::{Position, PositionList};
use crate::small_board::{
    Board as SmallBoard, Position3, XOPlayer, lemma_free_cells_membership, lemma_valid_moves_len,
};

verus! {

broadcast use vstd::array::group_array_axioms;

/// A cell of the 9x9 board; valid when both coordinates are below 9. The
/// dense action index is `x + 9 * y`.
#[derive(Debug, Clone, Copy, PartialEq, Eq, Structural)]
pub struct XOPosition {
    pub x: u8,
    pub y: u8,
}

pub type XOPositionList = PositionList<XOPosition>;

impl Position for XOPosition {
    open spec fn valid_spec(&self) -> bool {
        self.x <= 8 && self.y <= 8
    }

    open spec fn index_spec(&self) -> int {
        self.x + 9 * self.y
    }

    fn new(x: u8, y: u8) -> Self {
        XOPosition { x, y }
    }

    fn is_valid(&self) -> (r: bool) {
        !(self.x > 8 || self.y > 8)
    }

    fn to_index(&self) -> (r: usize) {
        self.x as usize + 9 * (self.y as usize)
    }
}

/// The sub-board that holds this cell, as a 3x3 coordinate.
pub open spec fn large_pos_spec(p: XOPosition) -> Position3 {
    Position3 { x: (p.x / 3) as u8, y: (p.y / 3) as u8 }
}

/// The cell's coordinates within its sub-board.
pub open spec fn small_pos_spec(p: XOPosition) -> Position3 {
    Position3 { x: (p.x % 3) as u8, y: (p.y % 3) as u8 }
}

/// The global cell at local coordinates `small` of sub-board `large`.
pub open spec fn from_subpos_spec(large: Position3, small: Position3) -> XOPosition {
    XOPosition { x: (small.x + 3 * large.x) as u8, y: (small.y + 3 * large.y) as u8 }
}

impl XOPosition {
    pub fn large_pos(&self) -> (r: Position3)
        requires
            self.valid_spec(),
        ensures
            r == large_pos_spec(*self),
            r.valid_spec(),
    {
        Position3 { x: self.x / 3, y: self.y / 3 }
    }

    pub fn small_pos(&self) -> (r: Position3)
        requires
            self.valid_spec(),
        ensures
            r == small_pos_spec(*self),
            r.valid_spec(),
    {
        Position3 { x: self.x % 3, y: self.y % 3 }
    }

    pub fn from_subpos(large_pos: Position3, small_pos: Position3) -> (r: Self)
        requires
            large_pos.valid_spec(),
            small_pos.valid_spec(),
        ensures
            r == from_subpos_spec(large_pos, small_pos),
            r.valid_spec(),
    {
        XOPosition { x: small_pos.x + 3 * large_pos.x, y: small_pos.y + 3 * large_pos.y }
    }

    pub fn from_index(index: usize) -> (r: Self)
        requires
            index < 81,
        ensures
            r.valid_spec(),
            r.index_spec() == index,
    {
        XOPosition { x: (index % 9) as u8, y: (index / 9) as u8 }
    }

    /// The cell a quarter turn (90 degrees) later: `(x, y) -> (8 - y, x)`.
    pub fn rot_90(&self) -> (r: Self)
        requires
            self.valid_spec(),
        ensures
            r == rot_pos_spec(*self),
            r.valid_spec(),
    {
        XOPosition { x: 8 - self.y, y: self.x }
    }

    /// The cell mirrored across the vertical axis: `(x, y) -> (8 - x, y)`.
    pub fn reflect_vertical(&self) -> (r: Self)
        requires
            self.valid_spec(),
        ensures
            r == refl_pos_spec(*self),
            r.valid_spec(),
    {
        XOPosition { x: 8 - self.x, y: self.y }
    }
}

pub open spec fn rot_pos_spec(p: XOPosition) -> XOPosition {
    XOPosition { x: (8 - p.y) as u8, y: p.x }
}

pub open spec fn refl_pos_spec(p: XOPosition) -> XOPosition {
    XOPosition { x: (8 - p.x) as u8, y: p.y }
}

/// The flat index of the sub-board that holds `p`.
pub open spec fn large_flat(p: XOPosition) -> int {
    p.x / 3 + 3 * (p.y / 3)
}

/// The flat index of `p` within its sub-board.
pub open spec fn small_flat(p: XOPosition) -> int {
    p.x % 3 + 3 * (p.y % 3)
}

/// The whole 9x9 board: nine sub-boards in flat order, the meta board whose
/// cell `s` records the winner (if any) of sub-board `s`, and the last move.
#[derive(Debug, Clone, Copy, PartialEq, Eq)]
#[verifier::ext_equal]
pub struct MainBoard {
    pub small_boards: [SmallBoard; 9],
    pub board: SmallBoard,
    pub last_move: Option<XOPosition>,
}

impl MainBoard {
    pub open spec fn inv(self) -> bool {
        &&& forall|s: int| 0 <= s < 9 ==> (#[trigger] self.small_boards@[s]).inv()
        &&& self.board.inv()
        &&& match self.last_move {
            Some(p) => p.valid_spec(),
            None => true,
        }
    }

    /// The sub-board at flat index `s`.
    pub open spec fn sub(self, s: int) -> SmallBoard {
        self.small_boards@[s]
    }

    /// The owner of the global cell `p`.
    pub open spec fn cell(self, p: XOPosition) -> Option<XOPlayer> {
        self.sub(large_flat(p)).cell_spec(small_flat(p))
    }

    /// A player has won the whole game by winning a line of the meta board.
    pub open spec fn winner_spec(self) -> Option<XOPlayer> {
        self.board.winner_spec()
    }

    /// All playable cells anywhere: every free cell of every sub-board that
    /// has no winner, in sub-board-major order.
    pub open spec fn available_spec(self) -> Seq<XOPosition> {
        self.avail_up_to(9)
    }

    pub open spec fn avail_up_to(self, n: int) -> Seq<XOPosition>
        decreases n,
    {
        if n <= 0 {
            Seq::empty()
        } else {
            self.avail_up_to(n - 1) + self.sub(n - 1).valid_moves_spec().map_values(
                |q: Position3| from_subpos_spec(
                    Position3 { x: ((n - 1) % 3) as u8, y: ((n - 1) / 3) as u8 },
                    q,
                ),
            )
        }
    }

    /// The move `p` is legal: the game has no winner yet, `p` is in range,
    /// its sub-board is undecided, the cell is free, and — when a last move
    /// exists whose target sub-board is still playable — `p` lies in that
    /// target sub-board.
    pub open spec fn legal_spec(self, p: XOPosition) -> bool {
        &&& self.winner_spec() is None
        &&& p.valid_spec()
        &&& self.sub(large_flat(p)).winner_spec() is None
        &&& self.cell(p) is None
        &&& match self.last_move {
            None => true,
            Some(lm) => self.sub(small_flat(lm)).valid_moves_spec().len() > 0 ==> large_flat(p)
                == small_flat(lm),
        }
    }

    /// The legal moves: none once the game is won; otherwise the free cells
    /// of the target sub-board when it is playable, and every playable cell
    /// anywhere when it is not (or when there is no last move).
    pub open spec fn valid_moves_spec(self) -> Seq<XOPosition> {
        if self.winner_spec() is Some {
            Seq::empty()
        } else {
            match self.last_move {
                None => self.available_spec(),
                Some(lm) => if self.sub(small_flat(lm)).valid_moves_spec().len() > 0 {
                    self.sub(small_flat(lm)).valid_moves_spec().map_values(
                        |q: Position3| from_subpos_spec(
                            Position3 {
                                x: (small_flat(lm) % 3) as u8,
                                y: (small_flat(lm) / 3) as u8,
                            },
                            q,
                        ),
                    )
                } else {
                    self.available_spec()
                },
            }
        }
    }

    pub fn get_cell(&self, position: &XOPosition) -> (r: Option<XOPlayer>)
        requires
            self.inv(),
            position.valid_spec(),
        ensures
            r == self.cell(*position),
    {
        let large = position.large_pos();
        let small = position.small_pos();
        let idx = large.flat() as usize;
        self.small_boards[idx].get_cell(&small)
    }

    /// Claim the cell for `player`: the owning sub-board is updated, a newly
    /// decided sub-board marks its winner on the meta board, and the cell
    /// becomes the last move.
    pub fn set_cell(&mut self, position: &XOPosition, player: XOPlayer)
        requires
            old(self).inv(),
            position.valid_spec(),
        ensures
            final(self).inv(),
            final(self).small_boards@ == old(self).small_boards@.update(
                large_flat(*position),
                old(self).sub(large_flat(*position)).set_cell_spec(small_flat(*position), player),
            ),
            final(self).board == ({
                let sub2 = old(self).sub(large_flat(*position)).set_cell_spec(
                    small_flat(*position),
                    player,
                );
                match sub2.winner_spec() {
                    Some(w) => old(self).board.set_cell_spec(large_flat(*position), w),
                    None => old(self).board,
                }
            }),
            final(self).last_move == Some(*position),
    {
        let large = position.large_pos();
        let small = position.small_pos();
        let idx = large.flat() as usize;
        let mut sb = self.small_boards[idx];
        sb.set_cell(&small, player);
        self.small_boards[idx] = sb;
        match sb.winner() {
            Some(winner) => self.board.set_cell(&large, winner),
            None => (),
        }
        self.last_move = Some(*position);
    }

    pub fn winner(&self) -> (r: Option<XOPlayer>)
        ensures
            r == self.winner_spec(),
    {
        self.board.winner()
    }

    pub fn is_valid_move(&self, position: &XOPosition) -> (r: bool)
        requires
            self.inv(),
        ensures
            r == self.legal_spec(*position),
    {
        if self.board.winner().is_some() {
            return false;
        }
        if !position.is_valid() {
            return false;
        }
        let large = position.large_pos();
        let small = position.small_pos();
        let sb = self.small_boards[large.flat() as usize];
        if sb.winner().is_some() {
            return false;
        }
        if sb.get_cell(&small).is_some() {
            return false;
        }
        match &self.last_move {
            None => true,
            Some(lm) => {
                let target_idx = lm.small_pos().flat() as usize;
                let target = self.small_boards[target_idx];
                if target.valid_moves().len() > 0 {
                    large.flat() == target_idx as u8
                } else {
                    true
                }
            },
        }
    }

    /// Every playable cell anywhere on the board.
    fn available_cells(&self) -> (r: XOPositionList)
        requires
            self.inv(),
        ensures
            r@ == self.available_spec(),
    {
        let mut cells: Vec<XOPosition> = Vec::new();
        let mut s: usize = 0;
        while s < 9
            invariant
                self.inv(),
                s <= 9,
                cells@ == self.avail_up_to(s as int),
            decreases 9 - s,
        {
            let large = Position3::from_flat(s as u8);
            let sub_moves = self.small_boards[s].valid_moves();
            proof {
                self.lemma_sub_moves_valid(s as int);
                assert forall|i: int| 0 <= i < sub_moves@.len() implies (
                #[trigger] sub_moves@[i]).valid_spec() by {
                    assert(sub_moves@[i] == self.sub(s as int).valid_moves_spec()[i]);
                }
            }
            let ghost before = cells@;
            let mut j: usize = 0;
            while j < sub_moves.len()
                invariant
                    self.inv(),
                    s < 9,
                    large == (Position3 { x: (s as u8) % 3, y: (s as u8) / 3 }),
                    sub_moves@ == self.sub(s as int).valid_moves_spec(),
                    forall|i: int|
                        0 <= i < sub_moves@.len() ==> (#[trigger] sub_moves@[i]).valid_spec(),
                    j <= sub_moves@.len(),
                    cells@ == before + sub_moves@.take(j as int).map_values(
                        |q: Position3| from_subpos_spec(
                            Position3 { x: (s as u8) % 3, y: (s as u8) / 3 },
                            q,
                        ),
                    ),
                decreases sub_moves@.len() - j,
            {
                let q = sub_moves[j];
                proof {
                    let f = |q2: Position3| from_subpos_spec(
                        Position3 { x: (s as u8) % 3, y: (s as u8) / 3 },
                        q2,
                    );
                    assert(sub_moves@.take(j as int + 1).map_values(f) =~= sub_moves@.take(
                        j as int,
                    ).map_values(f).push(f(q)));
                    assert(cells@.push(f(q)) =~= before + sub_moves@.take(j as int + 1).map_values(
                        f,
                    ));
                }
                cells.push(XOPosition::from_subpos(large, q));
                j = j + 1;
            }
            proof {
                assert(sub_moves@.take(sub_moves@.len() as int) =~= sub_moves@);
            }
            s = s + 1;
        }
        PositionList::new(cells)
    }

    /// The free cells of every sub-board's legal set are in range.
    proof fn lemma_sub_moves_valid(self, s: int)
        requires
            self.inv(),
            0 <= s < 9,
        ensures
            forall|i: int|
                0 <= i < self.sub(s).valid_moves_spec().len() ==> (#[trigger] self.sub(
                    s,
                ).valid_moves_spec()[i]).valid_spec(),
    {
        assert forall|i: int|
            0 <= i < self.sub(s).valid_moves_spec().len() implies (#[trigger] self.sub(
            s,
        ).valid_moves_spec()[i]).valid_spec() by {
            let q = self.sub(s).valid_moves_spec()[i];
            assert(self.sub(s).valid_moves_spec().contains(q));
            lemma_free_cells_membership(self.sub(s), 9, q);
        }
    }

    pub fn valid_moves(&self) -> (r: XOPositionList)
        requires
            self.inv(),
        ensures
            r@ == self.valid_moves_spec(),
    {
        if self.board.winner().is_some() {
            let r = PositionList::new(Vec::new());
            proof {
                assert(r@ =~= self.valid_moves_spec());
            }
            return r;
        }
        match &self.last_move {
            None => self.available_cells(),
            Some(lm) => {
                let target_small = lm.small_pos();
                let tf = target_small.flat() as usize;
                let target = self.small_boards[tf];
                let target_moves = target.valid_moves();
                proof {
                    self.lemma_sub_moves_valid(tf as int);
                    assert forall|i: int| 0 <= i < target_moves@.len() implies (
                    #[trigger] target_moves@[i]).valid_spec() by {
                        assert(target_moves@[i] == self.sub(tf as int).valid_moves_spec()[i]);
                    }
                }
                if target_moves.len() == 0 {
                    self.available_cells()
                } else {
                    let mut cells: Vec<XOPosition> = Vec::new();
                    let ghost f = |q2: Position3| from_subpos_spec(
                        Position3 { x: (tf as u8) % 3, y: (tf as u8) / 3 },
                        q2,
                    );
                    let mut j: usize = 0;
                    while j < target_moves.len()
                        invariant
                            self.inv(),
                            tf < 9,
                            target_moves@ == self.sub(tf as int).valid_moves_spec(),
                            forall|i: int|
                                0 <= i < target_moves@.len() ==> (
                                #[trigger] target_moves@[i]).valid_spec(),
                            j <= target_moves@.len(),
                            f == (|q2: Position3| from_subpos_spec(
                                Position3 { x: (tf as u8) % 3, y: (tf as u8) / 3 },
                                q2,
                            )),
                            cells@ == target_moves@.take(j as int).map_values(f),
                        decreases target_moves@.len() - j,
                    {
                        let q = target_moves[j];
                        proof {
                            assert(target_moves@.take(j as int + 1).map_values(f)
                                =~= target_moves@.take(j as int).map_values(f).push(f(q)));
                        }
                        cells.push(XOPosition::from_subpos(Position3::from_flat(tf as u8), q));
                        j = j + 1;
                    }
                    proof {
                        assert(target_moves@.take(target_moves@.len() as int) =~= target_moves@);
                        assert(small_flat(*lm) == tf as int);
                    }
                    PositionList::new(cells)
                }
            },
        }
    }

    /// No playable cell is left anywhere: with no winner this is a draw.
    pub fn is_draw(&self) -> (r: bool)
        requires
            self.inv(),
        ensures
            r == (self.available_spec().len() == 0),
    {
        self.available_cells().len() == 0
    }
}

/// A 3x3 bitmask turned a quarter turn: the cell `(x, y)` moves to
/// `(2 - y, x)`.
pub open spec fn rot3_bits(b: u16) -> u16 {
    ((b & 1) << 2) | ((b & 2) << 4) | ((b & 4) << 6) | ((b & 8) >> 2) | (b & 16) | ((b & 32) << 2)
        | ((b & 64) >> 6) | ((b & 128) >> 4) | ((b & 256) >> 2)
}

/// A 3x3 bitmask mirrored: the cell `(x, y)` moves to `(2 - x, y)`.
pub open spec fn refl3_bits(b: u16) -> u16 {
    ((b & 1) << 2) | (b & 2) | ((b & 4) >> 2) | ((b & 8) << 2) | (b & 16) | ((b & 32) >> 2) | ((b
        & 64) << 2) | (b & 128) | ((b & 256) >> 2)
}

/// A sub-board with both players' masks turned a quarter turn.
pub open spec fn rot3_board(b: SmallBoard) -> SmallBoard {
    SmallBoard { x_bits: rot3_bits(b.x_bits), o_bits: rot3_bits(b.o_bits) }
}

/// A sub-board with both players' masks mirrored.
pub open spec fn refl3_board(b: SmallBoard) -> SmallBoard {
    SmallBoard { x_bits: refl3_bits(b.x_bits), o_bits: refl3_bits(b.o_bits) }
}

/// The flat index of the sub-board that lands on `t` under a quarter turn.
pub open spec fn rot_sub_inv(t: int) -> int {
    3 * (2 - t % 3) + t / 3
}

/// The flat index of the sub-board that lands on `t` under the mirror.
pub open spec fn refl_sub_inv(t: int) -> int {
    3 * (t / 3) + 2 - t % 3
}

/// Rotating a well-formed pair of masks keeps them in range and disjoint.
pub proof fn lemma_rot3_wf(x: u16, o: u16)
    requires
        x < 512,
        o < 512,
        x & o == 0,
    ensures
        rot3_bits(x) < 512,
        rot3_bits(o) < 512,
        rot3_bits(x) & rot3_bits(o) == 0,
{
    let rx = rot3_bits(x);
    let ro = rot3_bits(o);
    assert(rx < 512) by (bit_vector)
        requires
            rx == ((x & 1) << 2) | ((x & 2) << 4) | ((x & 4) << 6) | ((x & 8) >> 2) | (x & 16) | ((x & 32) << 2) | ((x & 64) >> 6) | ((x & 128) >> 4) | ((x & 256) >> 2),
            x < 512,
    ;
    assert(ro < 512) by (bit_vector)
        requires
            ro == ((o & 1) << 2) | ((o & 2) << 4) | ((o & 4) << 6) | ((o & 8) >> 2) | (o & 16) | ((o & 32) << 2) | ((o & 64) >> 6) | ((o & 128) >> 4) | ((o & 256) >> 2),
            o < 512,
    ;
    assert(rx & ro == 0) by (bit_vector)
        requires
            rx == ((x & 1) << 2) | ((x & 2) << 4) | ((x & 4) << 6) | ((x & 8) >> 2) | (x & 16) | ((x & 32) << 2) | ((x & 64) >> 6) | ((x & 128) >> 4) | ((x & 256) >> 2),
            ro == ((o & 1) << 2) | ((o & 2) << 4) | ((o & 4) << 6) | ((o & 8) >> 2) | (o & 16) | ((o & 32) << 2) | ((o & 64) >> 6) | ((o & 128) >> 4) | ((o & 256) >> 2),
            x < 512,
            o < 512,
            x & o == 0,
    ;
}

/// Mirroring a well-formed pair of masks keeps them in range and disjoint.
pub proof fn lemma_refl3_wf(x: u16, o: u16)
    requires
        x < 512,
        o < 512,
        x & o == 0,
    ensures
        refl3_bits(x) < 512,
        refl3_bits(o) < 512,
        refl3_bits(x) & refl3_bits(o) == 0,
{
    let rx = refl3_bits(x);
    let ro = refl3_bits(o);
    assert(rx < 512) by (bit_vector)
        requires
            rx == ((x & 1) << 2) | (x & 2) | ((x & 4) >> 2) | ((x & 8) << 2) | (x & 16) | ((x & 32) >> 2) | ((x & 64) << 2) | (x & 128) | ((x & 256) >> 2),
            x < 512,
    ;
    assert(ro < 512) by (bit_vector)
        requires
            ro == ((o & 1) << 2) | (o & 2) | ((o & 4) >> 2) | ((o & 8) << 2) | (o & 16) | ((o & 32) >> 2) | ((o & 64) << 2) | (o & 128) | ((o & 256) >> 2),
            o < 512,
    ;
    assert(rx & ro == 0) by (bit_vector)
        requires
            rx == ((x & 1) << 2) | (x & 2) | ((x & 4) >> 2) | ((x & 8) << 2) | (x & 16) | ((x & 32) >> 2) | ((x & 64) << 2) | (x & 128) | ((x & 256) >> 2),
            ro == ((o & 1) << 2) | (o & 2) | ((o & 4) >> 2) | ((o & 8) << 2) | (o & 16) | ((o & 32) >> 2) | ((o & 64) << 2) | (o & 128) | ((o & 256) >> 2),
            x < 512,
            o < 512,
            x & o == 0,
    ;
}

/// Four quarter turns of a 9-bit mask reproduce it exactly.
pub proof fn lemma_rot3_four(b: u16)
    requires
        b < 512,
    ensures
        rot3_bits(rot3_bits(rot3_bits(rot3_bits(b)))) == b,
{
    let r1 = rot3_bits(b);
    let r2 = rot3_bits(r1);
    let r3 = rot3_bits(r2);
    let r4 = rot3_bits(r3);
    assert(r4 == b) by (bit_vector)
        requires
            r1 == ((b & 1) << 2) | ((b & 2) << 4) | ((b & 4) << 6) | ((b & 8) >> 2) | (b & 16) | ((b & 32) << 2) | ((b & 64) >> 6) | ((b & 128) >> 4) | ((b & 256) >> 2),
            r2 == ((r1 & 1) << 2) | ((r1 & 2) << 4) | ((r1 & 4) << 6) | ((r1 & 8) >> 2) | (r1 & 16) | ((r1 & 32) << 2) | ((r1 & 64) >> 6) | ((r1 & 128) >> 4) | ((r1 & 256) >> 2),
            r3 == ((r2 & 1) << 2) | ((r2 & 2) << 4) | ((r2 & 4) << 6) | ((r2 & 8) >> 2) | (r2 & 16) | ((r2 & 32) << 2) | ((r2 & 64) >> 6) | ((r2 & 128) >> 4) | ((r2 & 256) >> 2),
            r4 == ((r3 & 1) << 2) | ((r3 & 2) << 4) | ((r3 & 4) << 6) | ((r3 & 8) >> 2) | (r3 & 16) | ((r3 & 32) << 2) | ((r3 & 64) >> 6) | ((r3 & 128) >> 4) | ((r3 & 256) >> 2),
            b < 512,
    ;
}

/// Two mirrorings of a 9-bit mask reproduce it exactly.
pub proof fn lemma_refl3_twice(b: u16)
    requires
        b < 512,
    ensures
        refl3_bits(refl3_bits(b)) == b,
{
    let r1 = refl3_bits(b);
    let r2 = refl3_bits(r1);
    assert(r2 == b) by (bit_vector)
        requires
            r1 == ((b & 1) << 2) | (b & 2) | ((b & 4) >> 2) | ((b & 8) << 2) | (b & 16) | ((b & 32) >> 2) | ((b & 64) << 2) | (b & 128) | ((b & 256) >> 2),
            r2 == ((r1 & 1) << 2) | (r1 & 2) | ((r1 & 4) >> 2) | ((r1 & 8) << 2) | (r1 & 16) | ((r1 & 32) >> 2) | ((r1 & 64) << 2) | (r1 & 128) | ((r1 & 256) >> 2),
            b < 512,
    ;
}

impl MainBoard {
    /// `b` is `a` turned a quarter turn: every sub-board moves to its
    /// rotated place and is itself rotated, the meta board rotates with
    /// them, and the last move maps along.
    pub open spec fn is_rotation(a: MainBoard, b: MainBoard) -> bool {
        &&& forall|t: int|
            0 <= t < 9 ==> (#[trigger] b.small_boards@[t]) == rot3_board(
                a.small_boards@[rot_sub_inv(t)],
            )
        &&& b.board == rot3_board(a.board)
        &&& b.last_move == match a.last_move {
            None => None::<XOPosition>,
            Some(p) => Some(rot_pos_spec(p)),
        }
    }

    /// `b` is `a` mirrored across the vertical axis, in the same manner.
    pub open spec fn is_reflection(a: MainBoard, b: MainBoard) -> bool {
        &&& forall|t: int|
            0 <= t < 9 ==> (#[trigger] b.small_boards@[t]) == refl3_board(
                a.small_boards@[refl_sub_inv(t)],
            )
        &&& b.board == refl3_board(a.board)
        &&& b.last_move == match a.last_move {
            None => None::<XOPosition>,
            Some(p) => Some(refl_pos_spec(p)),
        }
    }

    /// A sub-board turned a quarter turn.
    fn rot3_exec(b: &SmallBoard) -> (r: SmallBoard)
        ensures
            r == rot3_board(*b),
    {
        let x = b.x_bits;
        let o = b.o_bits;
        SmallBoard {
            x_bits: ((x & 1) << 2) | ((x & 2) << 4) | ((x & 4) << 6) | ((x & 8) >> 2) | (x & 16)
                | ((x & 32) << 2) | ((x & 64) >> 6) | ((x & 128) >> 4) | ((x & 256) >> 2),
            o_bits: ((o & 1) << 2) | ((o & 2) << 4) | ((o & 4) << 6) | ((o & 8) >> 2) | (o & 16)
                | ((o & 32) << 2) | ((o & 64) >> 6) | ((o & 128) >> 4) | ((o & 256) >> 2),
        }
    }

    /// A sub-board mirrored.
    fn refl3_exec(b: &SmallBoard) -> (r: SmallBoard)
        ensures
            r == refl3_board(*b),
    {
        let x = b.x_bits;
        let o = b.o_bits;
        SmallBoard {
            x_bits: ((x & 1) << 2) | (x & 2) | ((x & 4) >> 2) | ((x & 8) << 2) | (x & 16) | ((x
                & 32) >> 2) | ((x & 64) << 2) | (x & 128) | ((x & 256) >> 2),
            o_bits: ((o & 1) << 2) | (o & 2) | ((o & 4) >> 2) | ((o & 8) << 2) | (o & 16) | ((o
                & 32) >> 2) | ((o & 64) << 2) | (o & 128) | ((o & 256) >> 2),
        }
    }

    /// The board a quarter turn later: every occupied cell and the last
    /// move move to their rotated places; the result is structurally valid.
    pub fn rotated_90(&self) -> (r: Self)
        requires
            self.inv(),
        ensures
            r.inv(),
            MainBoard::is_rotation(*self, r),
    {
        let mut boards: [SmallBoard; 9] = [SmallBoard::default();9];
        proof {
            vstd::array::axiom_spec_array_fill_for_copy_type::<SmallBoard, 9>(
                SmallBoard::default_spec(),
            );
        }
        let mut t: usize = 0;
        while t < 9
            invariant
                self.inv(),
                t <= 9,
                boards@.len() == 9,
                forall|u: int|
                    0 <= u < t ==> (#[trigger] boards@[u]) == rot3_board(
                        self.small_boards@[rot_sub_inv(u)],
                    ),
                forall|u: int| 0 <= u < t ==> (#[trigger] boards@[u]).inv(),
            decreases 9 - t,
        {
            let src = 3 * (2 - t % 3) + t / 3;
            let rotated = Self::rot3_exec(&self.small_boards[src]);
            proof {
                let sb = self.small_boards@[src as int];
                lemma_rot3_wf(sb.x_bits, sb.o_bits);
            }
            boards[t] = rotated;
            t = t + 1;
        }
        let meta = Self::rot3_exec(&self.board);
        proof {
            lemma_rot3_wf(self.board.x_bits, self.board.o_bits);
        }
        let last = match &self.last_move {
            Some(p) => Some(p.rot_90()),
            None => None,
        };
        MainBoard { small_boards: boards, board: meta, last_move: last }
    }

    /// The board mirrored across the vertical axis.
    pub fn reflected_vertical(&self) -> (r: Self)
        requires
            self.inv(),
        ensures
            r.inv(),
            MainBoard::is_reflection(*self, r),
    {
        let mut boards: [SmallBoard; 9] = [SmallBoard::default();9];
        proof {
            vstd::array::axiom_spec_array_fill_for_copy_type::<SmallBoard, 9>(
                SmallBoard::default_spec(),
            );
        }
        let mut t: usize = 0;
        while t < 9
            invariant
                self.inv(),
                t <= 9,
                boards@.len() == 9,
                forall|u: int|
                    0 <= u < t ==> (#[trigger] boards@[u]) == refl3_board(
                        self.small_boards@[refl_sub_inv(u)],
                    ),
                forall|u: int| 0 <= u < t ==> (#[trigger] boards@[u]).inv(),
            decreases 9 - t,
        {
            let src = 3 * (t / 3) + 2 - t % 3;
            let reflected = Self::refl3_exec(&self.small_boards[src]);
            proof {
                let sb = self.small_boards@[src as int];
                lemma_refl3_wf(sb.x_bits, sb.o_bits);
            }
            boards[t] = reflected;
            t = t + 1;
        }
        let meta = Self::refl3_exec(&self.board);
        proof {
            lemma_refl3_wf(self.board.x_bits, self.board.o_bits);
        }
        let last = match &self.last_move {
            Some(p) => Some(p.reflect_vertical()),
            None => None,
        };
        MainBoard { small_boards: boards, board: meta, last_move: last }
    }

    /// The value of one cell of the feature encoding: channel 0 marks the
    /// given player's stones, channel 1 the opponent's, channel 2 the last
    /// move; `g` is the dense cell index `x + 9 * y`.
    pub open spec fn feature_at(self, player: XOPlayer, ch: int, g: int) -> int {
        let p = XOPosition { x: (g % 9) as u8, y: (g / 9) as u8 };
        if ch == 0 {
            if self.cell(p) == Some(player) {
                1
            } else {
                0
            }
        } else if ch == 1 {
            if self.cell(p) == Some(player.other_spec()) {
                1
            } else {
                0
            }
        } else {
            if self.last_move == Some(p) {
                1
            } else {
                0
            }
        }
    }

    /// The fixed-shape feature encoding for the evaluator: three channels of
    /// 81 cells each (`player`'s stones, the opponent's stones, the last
    /// move), flattened channel-major so that channel `ch`, cell `(x, y)`
    /// lies at `ch * 81 + y * 9 + x`. The shape is a stable contract with
    /// the evaluator and must not change.
    pub fn features_for_player(&self, player: XOPlayer) -> (r: Vec<i64>)
        requires
            self.inv(),
        ensures
            r@.len() == 243,
            forall|ch: int, g: int|
                0 <= ch < 3 && 0 <= g < 81 ==> #[trigger] r@[ch * 81 + g] == self.feature_at(
                    player,
                    ch,
                    g,
                ),
    {
        let mut feats: Vec<i64> = Vec::new();
        let mut ch: usize = 0;
        while ch < 3
            invariant
                self.inv(),
                ch <= 3,
                feats@.len() == ch * 81,
                forall|c: int, g: int|
                    0 <= c < ch && 0 <= g < 81 ==> #[trigger] feats@[c * 81 + g]
                        == self.feature_at(player, c, g),
            decreases 3 - ch,
        {
            let mut g: usize = 0;
            while g < 81
                invariant
                    self.inv(),
                    ch < 3,
                    g <= 81,
                    feats@.len() == ch * 81 + g,
                    forall|c: int, g2: int|
                        0 <= c < ch && 0 <= g2 < 81 ==> #[trigger] feats@[c * 81 + g2]
                            == self.feature_at(player, c, g2),
                    forall|g2: int|
                        0 <= g2 < g ==> #[trigger] feats@[ch * 81 + g2] == self.feature_at(
                            player,
                            ch as int,
                            g2,
                        ),
                decreases 81 - g,
            {
                let pos = XOPosition::from_index(g);
                proof {
                    assert(pos == (XOPosition { x: (g % 9) as u8, y: (g / 9) as u8 }));
                }
                let v: i64 = if ch == 0 {
                    match self.get_cell(&pos) {
                        Some(p) => if p == player {
                            1
                        } else {
                            0
                        },
                        None => 0,
                    }
                } else if ch == 1 {
                    let other = player.other_player();
                    match self.get_cell(&pos) {
                        Some(p) => if p == other {
                            1
                        } else {
                            0
                        },
                        None => 0,
                    }
                } else {
                    match &self.last_move {
                        Some(lm) => if lm.x == pos.x && lm.y == pos.y {
                            1
                        } else {
                            0
                        },
                        None => 0,
                    }
                };
                feats.push(v);
                g = g + 1;
            }
            ch = ch + 1;
        }
        feats
    }

    /// The full 8-element symmetry group of the square, derived
    /// generatively: the identity and its three successive quarter turns,
    /// then the vertical reflection and its three successive quarter turns.
    pub fn augmented(&self) -> (r: Vec<MainBoard>)
        requires
            self.inv(),
        ensures
            r@.len() == 8,
            r@[0] == *self,
            forall|k: int| 0 <= k < 8 ==> (#[trigger] r@[k]).inv(),
            forall|k: int| 1 <= k < 4 ==> MainBoard::is_rotation(r@[k - 1], #[trigger] r@[k]),
            MainBoard::is_reflection(r@[0], r@[4]),
            forall|k: int| 5 <= k < 8 ==> MainBoard::is_rotation(r@[k - 1], #[trigger] r@[k]),
    {
        let mut augmented: Vec<MainBoard> = Vec::new();
        augmented.push(*self);
        let r1 = self.rotated_90();
        augmented.push(r1);
        let r2 = r1.rotated_90();
        augmented.push(r2);
        let r3 = r2.rotated_90();
        augmented.push(r3);
        let m0 = self.reflected_vertical();
        augmented.push(m0);
        let m1 = m0.rotated_90();
        augmented.push(m1);
        let m2 = m1.rotated_90();
        augmented.push(m2);
        let m3 = m2.rotated_90();
        augmented.push(m3);
        augmented
    }
}

/// The free cells of a 3x3 board are pairwise distinct.
pub proof fn lemma_free_cells_distinct(b: SmallBoard, n: int)
    requires
        0 <= n <= 9,
    ensures
        forall|k: int, l: int|
            0 <= k < l < b.free_cells_spec(n).len() ==> b.free_cells_spec(n)[k]
                != b.free_cells_spec(n)[l],
    decreases n,
{
    if n > 0 {
        lemma_free_cells_distinct(b, n - 1);
        assert forall|k: int, l: int|
            0 <= k < l < b.free_cells_spec(n).len() implies b.free_cells_spec(n)[k]
            != b.free_cells_spec(n)[l] by {
            if b.cell_spec(n - 1) is None {
                if l < b.free_cells_spec(n).len() - 1 {
                    assert(b.free_cells_spec(n)[k] == b.free_cells_spec(n - 1)[k]);
                    assert(b.free_cells_spec(n)[l] == b.free_cells_spec(n - 1)[l]);
                } else {
                    assert(b.free_cells_spec(n)[k] == b.free_cells_spec(n - 1)[k]);
                    assert(b.free_cells_spec(n - 1).contains(b.free_cells_spec(n - 1)[k]));
                    lemma_free_cells_membership(b, n - 1, b.free_cells_spec(n - 1)[k]);
                }
            }
        }
    }
}

/// Mapping a sub-board's local move onto the whole board and reading its
/// coordinates back are mutually inverse.
pub proof fn lemma_from_subpos_coords(s: int, q: Position3)
    requires
        0 <= s < 9,
        q.valid_spec(),
    ensures
        from_subpos_spec(Position3 { x: (s % 3) as u8, y: (s / 3) as u8 }, q).valid_spec(),
        large_flat(from_subpos_spec(Position3 { x: (s % 3) as u8, y: (s / 3) as u8 }, q)) == s,
        small_flat(from_subpos_spec(Position3 { x: (s % 3) as u8, y: (s / 3) as u8 }, q))
            == q.flat_spec(),
{
    let p = from_subpos_spec(Position3 { x: (s % 3) as u8, y: (s / 3) as u8 }, q);
    assert(p.x == q.x + 3 * (s % 3) && p.y == q.y + 3 * (s / 3));
    assert(p.x / 3 == s % 3 && p.x % 3 == q.x) by (nonlinear_arith)
        requires
            p.x == q.x + 3 * (s % 3),
            0 <= q.x < 3,
            0 <= s % 3 < 3,
    ;
    assert(p.y / 3 == s / 3 && p.y % 3 == q.y) by (nonlinear_arith)
        requires
            p.y == q.y + 3 * (s / 3),
            0 <= q.y < 3,
            0 <= s / 3 < 3,
    ;
}

/// A valid cell is the image of its own sub-board coordinates.
pub proof fn lemma_subpos_of_cell(p: XOPosition)
    requires
        p.valid_spec(),
    ensures
        0 <= large_flat(p) < 9,
        0 <= small_flat(p) < 9,
        (Position3 { x: (p.x % 3) as u8, y: (p.y % 3) as u8 }).valid_spec(),
        (Position3 { x: (p.x % 3) as u8, y: (p.y % 3) as u8 }).flat_spec() == small_flat(p),
        from_subpos_spec(
            Position3 { x: (large_flat(p) % 3) as u8, y: (large_flat(p) / 3) as u8 },
            Position3 { x: (p.x % 3) as u8, y: (p.y % 3) as u8 },
        ) == p,
{
    let s = large_flat(p);
    assert(s % 3 == p.x / 3 && s / 3 == p.y / 3) by (nonlinear_arith)
        requires
            s == p.x / 3 + 3 * (p.y / 3),
            0 <= p.x / 3 < 3,
            0 <= p.y / 3 < 3,
    ;
    assert(p.x % 3 + 3 * (p.x / 3) == p.x && p.y % 3 + 3 * (p.y / 3) == p.y);
}

impl MainBoard {
    /// A cell lies among the playable cells of the first `n` sub-boards
    /// exactly when it is valid, lies in one of them, its sub-board is
    /// undecided, and it is free.
    pub proof fn lemma_avail_membership(self, n: int, p: XOPosition)
        requires
            self.inv(),
            0 <= n <= 9,
        ensures
            self.avail_up_to(n).contains(p) <==> (p.valid_spec() && large_flat(p) < n
                && self.sub(large_flat(p)).winner_spec() is None && self.cell(p) is None),
        decreases n,
    {
        if n > 0 {
            self.lemma_avail_membership(n - 1, p);
            let s = n - 1;
            let large = Position3 { x: (s % 3) as u8, y: (s / 3) as u8 };
            let f = |q: Position3| from_subpos_spec(large, q);
            let block = self.sub(s).valid_moves_spec().map_values(f);
            assert(self.avail_up_to(n) == self.avail_up_to(s) + block);

            if self.avail_up_to(n).contains(p) {
                let k = choose|k: int|
                    0 <= k < self.avail_up_to(n).len() && #[trigger] self.avail_up_to(n)[k] == p;
                if k < self.avail_up_to(s).len() {
                    assert(self.avail_up_to(s)[k] == p);
                    assert(self.avail_up_to(s).contains(p));
                } else {
                    let j = k - self.avail_up_to(s).len();
                    assert(block[j] == p);
                    let q = self.sub(s).valid_moves_spec()[j];
                    assert(p == f(q));
                    assert(self.sub(s).valid_moves_spec().contains(q));
                    lemma_free_cells_membership(self.sub(s), 9, q);
                    lemma_from_subpos_coords(s, q);
                    assert(self.sub(s).valid_moves_spec().len() > 0);
                    lemma_valid_moves_len(self.sub(s));
                }
            }
            if p.valid_spec() && large_flat(p) < n && self.sub(
                large_flat(p),
            ).winner_spec() is None && self.cell(p) is None {
                if large_flat(p) < s {
                    let k = choose|k: int|
                        0 <= k < self.avail_up_to(s).len() && #[trigger] self.avail_up_to(s)[k]
                            == p;
                    assert(self.avail_up_to(n)[k] == p);
                } else {
                    lemma_subpos_of_cell(p);
                    let q = Position3 { x: (p.x % 3) as u8, y: (p.y % 3) as u8 };
                    lemma_free_cells_membership(self.sub(s), 9, q);
                    assert(self.sub(s).valid_moves_spec().contains(q));
                    let j = choose|j: int|
                        0 <= j < self.sub(s).valid_moves_spec().len()
                            && #[trigger] self.sub(s).valid_moves_spec()[j] == q;
                    assert(block[j] == f(q));
                    assert(f(q) == p);
                    assert(self.avail_up_to(n)[self.avail_up_to(s).len() + j] == p);
                }
            }
        }
    }

    /// When no playable cell is left anywhere, every sub-board's legal set
    /// is empty.
    pub proof fn lemma_avail_empty(self, n: int)
        requires
            self.inv(),
            0 <= n <= 9,
            self.avail_up_to(n).len() == 0,
        ensures
            forall|s: int| 0 <= s < n ==> (#[trigger] self.sub(s)).valid_moves_spec().len() == 0,
        decreases n,
    {
        if n > 0 {
            let s = n - 1;
            let large = Position3 { x: (s % 3) as u8, y: (s / 3) as u8 };
            let f = |q: Position3| from_subpos_spec(large, q);
            assert(self.avail_up_to(n) == self.avail_up_to(s) + self.sub(
                s,
            ).valid_moves_spec().map_values(f));
            self.lemma_avail_empty(s);
        }
    }

    /// At most nine playable cells per sub-board.
    pub proof fn lemma_avail_len(self, n: int)
        requires
            self.inv(),
            0 <= n <= 9,
        ensures
            self.avail_up_to(n).len() <= 9 * n,
        decreases n,
    {
        if n > 0 {
            self.lemma_avail_len(n - 1);
            crate::small_board::lemma_free_cells_len(self.sub(n - 1), 9);
        }
    }

    /// A move lies in the enumerated legal set exactly when the send rule
    /// admits it.
    pub proof fn lemma_valid_moves_membership(self, p: XOPosition)
        requires
            self.inv(),
        ensures
            self.valid_moves_spec().contains(p) <==> self.legal_spec(p),
    {
        if self.winner_spec() is None {
            match self.last_move {
                None => {
                    self.lemma_avail_membership(9, p);
                },
                Some(lm) => {
                    let tf = small_flat(lm);
                    lemma_subpos_of_cell(lm);
                    if self.sub(tf).valid_moves_spec().len() > 0 {
                        let large = Position3 { x: (tf % 3) as u8, y: (tf / 3) as u8 };
                        let f = |q: Position3| from_subpos_spec(large, q);
                        let block = self.sub(tf).valid_moves_spec().map_values(f);
                        if block.contains(p) {
                            let k = choose|k: int|
                                0 <= k < block.len() && #[trigger] block[k] == p;
                            let q = self.sub(tf).valid_moves_spec()[k];
                            assert(self.sub(tf).valid_moves_spec().contains(q));
                            lemma_free_cells_membership(self.sub(tf), 9, q);
                            lemma_from_subpos_coords(tf, q);
                            lemma_valid_moves_len(self.sub(tf));
                        }
                        if self.legal_spec(p) {
                            lemma_subpos_of_cell(p);
                            let q = Position3 { x: (p.x % 3) as u8, y: (p.y % 3) as u8 };
                            lemma_free_cells_membership(self.sub(tf), 9, q);
                            assert(self.sub(tf).valid_moves_spec().contains(q));
                            let j = choose|j: int|
                                0 <= j < self.sub(tf).valid_moves_spec().len()
                                    && #[trigger] self.sub(tf).valid_moves_spec()[j] == q;
                            assert(block[j] == f(q));
                            assert(f(q) == p);
                            assert(block.contains(p));
                        }
                    } else {
                        self.lemma_avail_membership(9, p);
                    }
                },
            }
        }
    }

    /// The playable cells of the first `n` sub-boards are pairwise distinct.
    pub proof fn lemma_avail_distinct(self, n: int)
        requires
            self.inv(),
            0 <= n <= 9,
        ensures
            forall|k: int, l: int|
                0 <= k < l < self.avail_up_to(n).len() ==> self.avail_up_to(n)[k]
                    != self.avail_up_to(n)[l],
        decreases n,
    {
        if n > 0 {
            let s = n - 1;
            self.lemma_avail_distinct(s);
            let large = Position3 { x: (s % 3) as u8, y: (s / 3) as u8 };
            let f = |q: Position3| from_subpos_spec(large, q);
            let block = self.sub(s).valid_moves_spec().map_values(f);
            assert(self.avail_up_to(n) == self.avail_up_to(s) + block);
            lemma_free_cells_distinct(self.sub(s), 9);
            assert forall|k: int, l: int|
                0 <= k < l < self.avail_up_to(n).len() implies self.avail_up_to(n)[k]
                != self.avail_up_to(n)[l] by {
                let a = self.avail_up_to(n)[k];
                let b = self.avail_up_to(n)[l];
                let pre_len = self.avail_up_to(s).len();
                if l < pre_len {
                    assert(a == self.avail_up_to(s)[k] && b == self.avail_up_to(s)[l]);
                } else if k >= pre_len {
                    let qk = self.sub(s).valid_moves_spec()[k - pre_len];
                    let ql = self.sub(s).valid_moves_spec()[l - pre_len];
                    assert(a == f(qk) && b == f(ql));
                    assert(self.sub(s).valid_moves_spec().contains(qk));
                    assert(self.sub(s).valid_moves_spec().contains(ql));
                    lemma_free_cells_membership(self.sub(s), 9, qk);
                    lemma_free_cells_membership(self.sub(s), 9, ql);
                    lemma_from_subpos_coords(s, qk);
                    lemma_from_subpos_coords(s, ql);
                    if qk != ql {
                        assert(qk.flat_spec() != ql.flat_spec());
                        assert(small_flat(a) != small_flat(b));
                    }
                    lemma_valid_moves_len(self.sub(s));
                } else {
                    assert(a == self.avail_up_to(s)[k]);
                    assert(self.avail_up_to(s).contains(a));
                    self.lemma_avail_membership(s, a);
                    let ql = self.sub(s).valid_moves_spec()[l - pre_len];
                    assert(b == f(ql));
                    assert(self.sub(s).valid_moves_spec().contains(ql));
                    lemma_free_cells_membership(self.sub(s), 9, ql);
                    lemma_from_subpos_coords(s, ql);
                    assert(large_flat(a) < s && large_flat(b) == s);
                }
            }
        }
    }

    /// The enumerated legal moves are pairwise distinct.
    pub proof fn lemma_valid_moves_distinct(self)
        requires
            self.inv(),
        ensures
            forall|k: int, l: int|
                0 <= k < l < self.valid_moves_spec().len() ==> self.valid_moves_spec()[k]
                    != self.valid_moves_spec()[l],
    {
        if self.winner_spec() is None {
            match self.last_move {
                None => {
                    self.lemma_avail_distinct(9);
                },
                Some(lm) => {
                    let tf = small_flat(lm);
                    lemma_subpos_of_cell(lm);
                    if self.sub(tf).valid_moves_spec().len() > 0 {
                        let large = Position3 { x: (tf % 3) as u8, y: (tf / 3) as u8 };
                        let f = |q: Position3| from_subpos_spec(large, q);
                        lemma_free_cells_distinct(self.sub(tf), 9);
                        lemma_valid_moves_len(self.sub(tf));
                        assert forall|k: int, l: int|
                            0 <= k < l < self.valid_moves_spec().len() implies self.valid_moves_spec()[k]
                            != self.valid_moves_spec()[l] by {
                            let qk = self.sub(tf).valid_moves_spec()[k];
                            let ql = self.sub(tf).valid_moves_spec()[l];
                            assert(self.valid_moves_spec()[k] == f(qk));
                            assert(self.valid_moves_spec()[l] == f(ql));
                            assert(self.sub(tf).valid_moves_spec().contains(qk));
                            assert(self.sub(tf).valid_moves_spec().contains(ql));
                            lemma_free_cells_membership(self.sub(tf), 9, qk);
                            lemma_free_cells_membership(self.sub(tf), 9, ql);
                            lemma_from_subpos_coords(tf, qk);
                            lemma_from_subpos_coords(tf, ql);
                            assert(qk != ql);
                            assert(qk.flat_spec() != ql.flat_spec());
                        }
                    } else {
                        self.lemma_avail_distinct(9);
                    }
                },
            }
        }
    }
}

/// Four successive quarter turns reproduce a board exactly.
pub proof fn lemma_rotation_round_trip(a: MainBoard, b: MainBoard, c: MainBoard, d: MainBoard, e: MainBoard)
    requires
        a.inv(),
        MainBoard::is_rotation(a, b),
        MainBoard::is_rotation(b, c),
        MainBoard::is_rotation(c, d),
        MainBoard::is_rotation(d, e),
    ensures
        e == a,
{
    assert forall|t: int| 0 <= t < 9 implies (#[trigger] e.small_boards@[t])
        == a.small_boards@[t] by {
        let t1 = rot_sub_inv(t);
        let t2 = rot_sub_inv(t1);
        let t3 = rot_sub_inv(t2);
        let t4 = rot_sub_inv(t3);
        assert(0 <= t1 < 9 && 0 <= t2 < 9 && 0 <= t3 < 9 && t4 == t);
        assert(e.small_boards@[t] == rot3_board(d.small_boards@[t1]));
        assert(d.small_boards@[t1] == rot3_board(c.small_boards@[t2]));
        assert(c.small_boards@[t2] == rot3_board(b.small_boards@[t3]));
        assert(b.small_boards@[t3] == rot3_board(a.small_boards@[t4]));
        lemma_rot3_four(a.small_boards@[t].x_bits);
        lemma_rot3_four(a.small_boards@[t].o_bits);
    }
    assert(e.small_boards =~= a.small_boards);
    lemma_rot3_four(a.board.x_bits);
    lemma_rot3_four(a.board.o_bits);
    assert(e.board == a.board);
    assert(e.last_move == a.last_move);
    assert(e =~= a);
}

/// A reflection composed with itself reproduces a board exactly.
pub proof fn lemma_reflection_round_trip(a: MainBoard, b: MainBoard, c: MainBoard)
    requires
        a.inv(),
        MainBoard::is_reflection(a, b),
        MainBoard::is_reflection(b, c),
    ensures
        c == a,
{
    assert forall|t: int| 0 <= t < 9 implies (#[trigger] c.small_boards@[t])
        == a.small_boards@[t] by {
        let t1 = refl_sub_inv(t);
        let t2 = refl_sub_inv(t1);
        assert(0 <= t1 < 9 && t2 == t);
        assert(c.small_boards@[t] == refl3_board(b.small_boards@[t1]));
        assert(b.small_boards@[t1] == refl3_board(a.small_boards@[t2]));
        lemma_refl3_twice(a.small_boards@[t].x_bits);
        lemma_refl3_twice(a.small_boards@[t].o_bits);
    }
    assert(c.small_boards =~= a.small_boards);
    lemma_refl3_twice(a.board.x_bits);
    lemma_refl3_twice(a.board.o_bits);
    assert(c.board == a.board);
    assert(c.last_move == a.last_move);
    assert(c =~= a);
}

impl Default for MainBoard {
    /// The empty board: no stone anywhere and no last move.
    fn default() -> (r: Self)
        ensures
            r.inv(),
            forall|s: int| 0 <= s < 9 ==> (#[trigger] r.small_boards@[s]) == SmallBoard::default_spec(),
            r.board == SmallBoard::default_spec(),
            r.last_move is None,
    {
        let empty = SmallBoard::default();
        let boards: [SmallBoard; 9] = [empty;9];
        proof {
            vstd::array::axiom_spec_array_fill_for_copy_type::<SmallBoard, 9>(empty);
        }
        MainBoard { small_boards: boards, board: empty, last_move: None }
    }
}

/// The 81 rendered cell strings of a board, in row-major order, ready for a
/// display layer to lay out as a grid.
pub struct BoardDisplayer {
    pub items: Vec<String>,
}

impl BoardDisplayer {
    /// One string per cell of the 9x9 board.
    pub fn new(items: Vec<String>) -> (r: Self)
        requires
            items@.len() == 81,
        ensures
            r.items@ == items@,
    {
        BoardDisplayer { items }
    }
}

} // verus!
