//! A 3x3 board kept as one bitmask per player, with win detection over the
//! eight fixed line masks, and the local position type.

use vstd::prelude::*;

verus! {

/// The two players. X moves first in a fresh game.
#[derive(Debug, Clone, Copy, PartialEq, Eq, Structural)]
pub enum XOPlayer {
    X,
    O,
}

impl XOPlayer {
    /// 0 for X, 1 for O; the two players have distinct indices.
    pub open spec fn idx(self) -> int {
        match self {
            XOPlayer::X => 0,
            XOPlayer::O => 1,
        }
    }

    pub open spec fn other_spec(self) -> XOPlayer {
        match self {
            XOPlayer::X => XOPlayer::O,
            XOPlayer::O => XOPlayer::X,
        }
    }

    pub fn other_player(&self) -> (r: XOPlayer)
        ensures
            r == self.other_spec(),
    {
        match self {
            XOPlayer::X => XOPlayer::O,
            XOPlayer::O => XOPlayer::X,
        }
    }
}

impl Default for XOPlayer {
    fn default() -> (r: Self)
        ensures
            r == XOPlayer::X,
    {
        XOPlayer::X
    }
}

/// A cell of the 3x3 board: coordinates in 0..3 when valid.
#[derive(Debug, Clone, Copy, PartialEq, Eq, Structural)]
pub struct Position3 {
    pub x: u8,
    pub y: u8,
}

impl Position3 {
    pub open spec fn valid_spec(self) -> bool {
        self.x <= 2 && self.y <= 2
    }

    /// Dense index of the cell: 0..9 row-major.
    pub open spec fn flat_spec(self) -> int {
        self.x + 3 * self.y
    }

    pub fn new(x: u8, y: u8) -> (r: Self)
        ensures
            r == (Position3 { x, y }),
    {
        Position3 { x, y }
    }

    pub fn from_vec(v: Vec<u32>) -> (r: Result<Self, String>)
        ensures
            v@.len() == 2 ==> (r matches Ok(p) && p == (Position3 {
                x: v@[0] as u8,
                y: v@[1] as u8,
            })),
            v@.len() != 2 ==> r is Err,
    {
        if v.len() != 2 {
            return Err("Incorrect number of coordinates".to_owned());
        }
        Ok(Position3 { x: #[verifier::truncate] (v[0] as u8), y: #[verifier::truncate] (v[1] as u8) })
    }

    pub fn is_valid(&self) -> (r: bool)
        ensures
            r == self.valid_spec(),
    {
        !(self.x > 2 || self.y > 2)
    }

    pub fn flat(&self) -> (r: u8)
        requires
            self.valid_spec(),
        ensures
            r as int == self.flat_spec(),
            r < 9,
    {
        self.x + 3 * self.y
    }

    pub fn from_flat(flat_repr: u8) -> (r: Self)
        ensures
            r == (Position3 { x: (flat_repr % 3) as u8, y: (flat_repr / 3) as u8 }),
            flat_repr < 9 ==> r.valid_spec() && r.flat_spec() == flat_repr,
    {
        Position3 { x: flat_repr % 3, y: flat_repr / 3 }
    }
}

/// The single-bit mask of cell `i` of a 3x3 board.
pub open spec fn cell_mask(i: int) -> u16 {
    if i == 0 {
        1u16
    } else if i == 1 {
        2u16
    } else if i == 2 {
        4u16
    } else if i == 3 {
        8u16
    } else if i == 4 {
        16u16
    } else if i == 5 {
        32u16
    } else if i == 6 {
        64u16
    } else if i == 7 {
        128u16
    } else {
        256u16
    }
}

/// Cell `i` is set in `bits`.
pub open spec fn occ(bits: u16, i: int) -> bool {
    bits & cell_mask(i) != 0
}

/// One of the eight 3-cell lines (three rows, three columns, two diagonals)
/// is fully contained in `bits`.
pub open spec fn has_line_spec(bits: u16) -> bool {
    ||| bits & 73 == 73
    ||| bits & 146 == 146
    ||| bits & 292 == 292
    ||| bits & 7 == 7
    ||| bits & 56 == 56
    ||| bits & 448 == 448
    ||| bits & 273 == 273
    ||| bits & 84 == 84
}

/// `m` is the mask of one valid cell.
pub open spec fn is_cell_mask(m: u16) -> bool {
    m == 1 || m == 2 || m == 4 || m == 8 || m == 16 || m == 32 || m == 64 || m == 128 || m == 256
}

/// The mask of any valid cell is a single bit below 2^9.
pub proof fn lemma_cell_mask_single(i: int)
    requires
        0 <= i < 9,
    ensures
        is_cell_mask(cell_mask(i)),
        cell_mask(i) != 0,
        cell_mask(i) < 512,
{
}

/// Distinct valid cells have disjoint masks.
pub proof fn lemma_cell_mask_disjoint(i: int, j: int)
    requires
        0 <= i < 9,
        0 <= j < 9,
        i != j,
    ensures
        cell_mask(i) & cell_mask(j) == 0,
        cell_mask(i) != cell_mask(j),
{
    let m = cell_mask(i);
    let m2 = cell_mask(j);
    assert(((m == 1 || m == 2 || m == 4 || m == 8 || m == 16 || m == 32 || m == 64 || m == 128
        || m == 256) && (m2 == 1 || m2 == 2 || m2 == 4 || m2 == 8 || m2 == 16 || m2 == 32 || m2
        == 64 || m2 == 128 || m2 == 256) && m != m2) ==> m & m2 == 0) by (bit_vector);
}

/// Setting the single bit `m` leaves every other single bit `m2` unchanged.
pub proof fn lemma_or_single_bit(b: u16, m: u16, m2: u16)
    requires
        is_cell_mask(m),
        is_cell_mask(m2),
    ensures
        m == m2 ==> (b | m) & m2 == m2,
        m != m2 ==> (b | m) & m2 == b & m2,
{
    assert(((m == 1 || m == 2 || m == 4 || m == 8 || m == 16 || m == 32 || m == 64 || m == 128
        || m == 256) && (m2 == 1 || m2 == 2 || m2 == 4 || m2 == 8 || m2 == 16 || m2 == 32 || m2
        == 64 || m2 == 128 || m2 == 256)) ==> ((m == m2 ==> (b | m) & m2 == m2) && (m != m2 ==> (
    b | m) & m2 == b & m2))) by (bit_vector);
}

/// Clearing the single bit `m` leaves every other single bit `m2` unchanged.
pub proof fn lemma_andnot_single_bit(b: u16, m: u16, m2: u16)
    requires
        is_cell_mask(m),
        is_cell_mask(m2),
    ensures
        m == m2 ==> (b & !m) & m2 == 0,
        m != m2 ==> (b & !m) & m2 == b & m2,
{
    assert(((m == 1 || m == 2 || m == 4 || m == 8 || m == 16 || m == 32 || m == 64 || m == 128
        || m == 256) && (m2 == 1 || m2 == 2 || m2 == 4 || m2 == 8 || m2 == 16 || m2 == 32 || m2
        == 64 || m2 == 128 || m2 == 256)) ==> ((m == m2 ==> (b & !m) & m2 == 0) && (m != m2 ==> (
    b & !m) & m2 == b & m2))) by (bit_vector);
}

/// Setting a bit for one player and clearing it for the other keeps the two
/// masks disjoint and in range.
pub proof fn lemma_set_clear_disjoint(a: u16, b: u16, m: u16)
    requires
        a & b == 0,
        a < 512,
        b < 512,
        m < 512,
    ensures
        (a | m) & (b & !m) == 0,
        (b | m) & (a & !m) == 0,
        (a & !m) & (b | m) == 0,
        (b & !m) & (a | m) == 0,
        a | m < 512,
        b | m < 512,
        a & !m < 512,
        b & !m < 512,
{
    assert((a & b == 0 && a < 512 && b < 512 && m < 512) ==> ((a | m) & (b & !m) == 0 && (b | m)
        & (a & !m) == 0 && (a & !m) & (b | m) == 0 && (b & !m) & (a | m) == 0 && a | m < 512 && b
        | m < 512 && a & !m < 512 && b & !m < 512)) by (bit_vector);
}

/// A sub-board: one 9-bit mask per player. The two masks never overlap.
#[derive(Debug, Clone, Copy, PartialEq, Eq)]
pub struct Board {
    pub x_bits: u16,
    pub o_bits: u16,
}

impl Board {
    /// Well-formedness: nine bits per mask, and no cell owned by both players.
    pub open spec fn inv(self) -> bool {
        &&& self.x_bits < 512
        &&& self.o_bits < 512
        &&& self.x_bits & self.o_bits == 0
    }

    pub open spec fn bits_of(self, player: XOPlayer) -> u16 {
        match player {
            XOPlayer::X => self.x_bits,
            XOPlayer::O => self.o_bits,
        }
    }

    /// The owner, if any, of cell `i` (dense index).
    pub open spec fn cell_spec(self, i: int) -> Option<XOPlayer> {
        if occ(self.o_bits, i) {
            Some(XOPlayer::O)
        } else if occ(self.x_bits, i) {
            Some(XOPlayer::X)
        } else {
            None
        }
    }

    /// The board after `player` takes cell `i`: their bit is set and any
    /// conflicting bit of the other player is cleared.
    pub open spec fn set_cell_spec(self, i: int, player: XOPlayer) -> Board {
        match player {
            XOPlayer::X => Board {
                x_bits: self.x_bits | cell_mask(i),
                o_bits: self.o_bits & !cell_mask(i),
            },
            XOPlayer::O => Board {
                x_bits: self.x_bits & !cell_mask(i),
                o_bits: self.o_bits | cell_mask(i),
            },
        }
    }

    /// A player wins the board by fully containing one of the eight lines;
    /// X is reported first when both masks contain a line.
    pub open spec fn winner_spec(self) -> Option<XOPlayer> {
        if has_line_spec(self.x_bits) {
            Some(XOPlayer::X)
        } else if has_line_spec(self.o_bits) {
            Some(XOPlayer::O)
        } else {
            None
        }
    }

    /// How many of the nine cells `player` owns, over cells `0 .. n`.
    pub open spec fn count_spec(self, player: XOPlayer, n: int) -> int
        decreases n,
    {
        if n <= 0 {
            0
        } else {
            self.count_spec(player, n - 1) + if occ(self.bits_of(player), n - 1) {
                1int
            } else {
                0int
            }
        }
    }

    /// The legal local moves: every free cell in dense order, or nothing at
    /// all once the board is won.
    pub open spec fn valid_moves_spec(self) -> Seq<Position3> {
        if self.winner_spec() is Some {
            Seq::empty()
        } else {
            self.free_cells_spec(9)
        }
    }

    /// The free cells with dense index below `n`, in dense order.
    pub open spec fn free_cells_spec(self, n: int) -> Seq<Position3>
        decreases n,
    {
        if n <= 0 {
            Seq::empty()
        } else if self.cell_spec(n - 1) is None {
            self.free_cells_spec(n - 1).push(
                Position3 { x: ((n - 1) % 3) as u8, y: ((n - 1) / 3) as u8 },
            )
        } else {
            self.free_cells_spec(n - 1)
        }
    }

    /// The single-bit mask of a valid position.
    fn mask(position: &Position3) -> (r: u16)
        requires
            position.valid_spec(),
        ensures
            r == cell_mask(position.flat_spec()),
    {
        match position.y * 3 + position.x {
            0 => 1,
            1 => 2,
            2 => 4,
            3 => 8,
            4 => 16,
            5 => 32,
            6 => 64,
            7 => 128,
            _ => 256,
        }
    }

    pub fn set_cell(&mut self, position: &Position3, player: XOPlayer)
        requires
            old(self).inv(),
            position.valid_spec(),
        ensures
            final(self).inv(),
            *final(self) == old(self).set_cell_spec(position.flat_spec(), player),
    {
        let mask = Self::mask(position);
        proof {
            lemma_cell_mask_single(position.flat_spec());
            lemma_set_clear_disjoint(self.x_bits, self.o_bits, mask);
        }
        match player {
            XOPlayer::X => {
                self.x_bits = self.x_bits | mask;
                self.o_bits = self.o_bits & !mask;
            },
            XOPlayer::O => {
                self.o_bits = self.o_bits | mask;
                self.x_bits = self.x_bits & !mask;
            },
        }
    }

    pub fn get_cell(&self, position: &Position3) -> (r: Option<XOPlayer>)
        requires
            self.inv(),
            position.valid_spec(),
        ensures
            r == self.cell_spec(position.flat_spec()),
    {
        let mask = Self::mask(position);
        let is_player_x = mask & self.x_bits != 0;
        let is_player_o = mask & self.o_bits != 0;
        proof {
            lemma_cell_mask_single(position.flat_spec());
            let m = cell_mask(position.flat_spec());
            let x = self.x_bits;
            let o = self.o_bits;
            assert(x & m == m & x && o & m == m & o) by (bit_vector);
            assert((x & o == 0 && (m == 1 || m == 2 || m == 4 || m == 8 || m == 16 || m == 32
                || m == 64 || m == 128 || m == 256)) ==> (x & m == 0 || o & m == 0))
                by (bit_vector);
        }
        if is_player_o {
            Some(XOPlayer::O)
        } else if is_player_x {
            Some(XOPlayer::X)
        } else {
            None
        }
    }

    /// Whether `bits` fully contains one of the eight winning line masks.
    fn has_line(bits: u16) -> (r: bool)
        ensures
            r == has_line_spec(bits),
    {
        bits & 73 == 73 || bits & 146 == 146 || bits & 292 == 292 || bits & 7 == 7 || bits & 56
            == 56 || bits & 448 == 448 || bits & 273 == 273 || bits & 84 == 84
    }

    pub fn winner(&self) -> (r: Option<XOPlayer>)
        ensures
            r == self.winner_spec(),
    {
        if Self::has_line(self.x_bits) {
            Some(XOPlayer::X)
        } else if Self::has_line(self.o_bits) {
            Some(XOPlayer::O)
        } else {
            None
        }
    }

    pub fn count_player(&self, player: XOPlayer) -> (r: u32)
        requires
            self.inv(),
        ensures
            r as int == self.count_spec(player, 9),
            r <= 9,
    {
        let bits = match player {
            XOPlayer::X => self.x_bits,
            XOPlayer::O => self.o_bits,
        };
        let mut count: u32 = 0;
        let mut i: u8 = 0;
        while i < 9
            invariant
                i <= 9,
                bits == self.bits_of(player),
                count as int == self.count_spec(player, i as int),
                count <= i,
            decreases 9 - i,
        {
            let pos = Position3::from_flat(i);
            let mask = Self::mask(&pos);
            if bits & mask != 0 {
                count = count + 1;
            }
            i = i + 1;
        }
        count
    }

    /// The board is full when the two players' counts add up to nine.
    pub fn is_full(&self) -> (r: bool)
        requires
            self.inv(),
        ensures
            r == (self.count_spec(XOPlayer::X, 9) + self.count_spec(XOPlayer::O, 9) == 9),
    {
        self.count_player(XOPlayer::X) + self.count_player(XOPlayer::O) == 9
    }

    pub fn valid_moves(&self) -> (r: Vec<Position3>)
        requires
            self.inv(),
        ensures
            r@ == self.valid_moves_spec(),
    {
        let mut valid_moves: Vec<Position3> = Vec::new();
        if self.winner().is_some() {
            assert(valid_moves@ =~= self.valid_moves_spec());
            return valid_moves;
        }
        let mut i: u8 = 0;
        while i < 9
            invariant
                i <= 9,
                self.inv(),
                self.winner_spec() is None,
                valid_moves@ == self.free_cells_spec(i as int),
            decreases 9 - i,
        {
            let pos = Position3::from_flat(i);
            if self.get_cell(&pos).is_none() {
                valid_moves.push(pos);
            }
            i = i + 1;
        }
        valid_moves
    }
}

/// Taking a cell changes that cell to the taking player and no other.
pub proof fn lemma_set_get(b: Board, i: int, p: XOPlayer, j: int)
    requires
        0 <= i < 9,
        0 <= j < 9,
    ensures
        b.set_cell_spec(i, p).cell_spec(j) == if i == j {
            Some(p)
        } else {
            b.cell_spec(j)
        },
{
    lemma_cell_mask_single(i);
    lemma_cell_mask_single(j);
    lemma_or_single_bit(b.x_bits, cell_mask(i), cell_mask(j));
    lemma_or_single_bit(b.o_bits, cell_mask(i), cell_mask(j));
    lemma_andnot_single_bit(b.x_bits, cell_mask(i), cell_mask(j));
    lemma_andnot_single_bit(b.o_bits, cell_mask(i), cell_mask(j));
    if i != j {
        lemma_cell_mask_disjoint(i, j);
    }
}

/// Taking a cell preserves the board's well-formedness.
pub proof fn lemma_set_cell_spec_inv(b: Board, i: int, p: XOPlayer)
    requires
        b.inv(),
        0 <= i < 9,
    ensures
        b.set_cell_spec(i, p).inv(),
{
    lemma_cell_mask_single(i);
    lemma_set_clear_disjoint(b.x_bits, b.o_bits, cell_mask(i));
}

/// A position lies among the free cells below `n` exactly when it is valid,
/// has a small enough index, and is unowned.
pub proof fn lemma_free_cells_membership(b: Board, n: int, q: Position3)
    requires
        0 <= n <= 9,
    ensures
        b.free_cells_spec(n).contains(q) <==> (q.valid_spec() && q.flat_spec() < n
            && b.cell_spec(q.flat_spec()) is None),
    decreases n,
{
    if n > 0 {
        lemma_free_cells_membership(b, n - 1, q);
        let grown = b.cell_spec(n - 1) is None;
        let pos = Position3 { x: ((n - 1) % 3) as u8, y: ((n - 1) / 3) as u8 };
        assert(pos.valid_spec() && pos.flat_spec() == n - 1);
        if grown {
            assert(b.free_cells_spec(n) == b.free_cells_spec(n - 1).push(pos));
            if q.valid_spec() && q.flat_spec() == n - 1 {
                assert(q == pos);
                assert(b.free_cells_spec(n)[b.free_cells_spec(n).len() - 1] == pos);
            }
            if b.free_cells_spec(n).contains(q) {
                let k = choose|k: int|
                    0 <= k < b.free_cells_spec(n).len() && b.free_cells_spec(n)[k] == q;
                if k < b.free_cells_spec(n).len() - 1 {
                    assert(b.free_cells_spec(n - 1)[k] == q);
                }
            }
            if b.free_cells_spec(n - 1).contains(q) {
                let k = choose|k: int|
                    0 <= k < b.free_cells_spec(n - 1).len() && #[trigger] b.free_cells_spec(
                        n - 1,
                    )[k] == q;
                assert(b.free_cells_spec(n)[k] == q);
            }
        } else {
            if q.valid_spec() && q.flat_spec() == n - 1 {
                assert(q == pos);
            }
        }
    }
}

/// There are never more free cells than cells.
pub proof fn lemma_free_cells_len(b: Board, n: int)
    requires
        0 <= n <= 9,
    ensures
        b.free_cells_spec(n).len() <= n,
    decreases n,
{
    if n > 0 {
        lemma_free_cells_len(b, n - 1);
    }
}

/// On the empty board nothing is owned and nobody has won.
pub proof fn lemma_empty_board(i: int)
    requires
        0 <= i < 9,
    ensures
        Board::default_spec().winner_spec() is None,
        Board::default_spec().cell_spec(i) is None,
{
    let m = cell_mask(i);
    assert(0u16 & m == 0) by (bit_vector);
    assert(0u16 & 73u16 == 0 && 0u16 & 146u16 == 0 && 0u16 & 292u16 == 0 && 0u16 & 7u16 == 0
        && 0u16 & 56u16 == 0 && 0u16 & 448u16 == 0 && 0u16 & 273u16 == 0 && 0u16 & 84u16 == 0)
        by (bit_vector);
}

/// The legal local moves run out exactly when the board is won or has no
/// free cell.
pub proof fn lemma_valid_moves_len(b: Board)
    ensures
        b.valid_moves_spec().len() > 0 <==> (b.winner_spec() is None && exists|i: int|
            0 <= i < 9 && b.cell_spec(i) is None),
{
    if b.winner_spec() is None {
        if exists|i: int| 0 <= i < 9 && b.cell_spec(i) is None {
            let i = choose|i: int| 0 <= i < 9 && b.cell_spec(i) is None;
            let q = Position3 { x: (i % 3) as u8, y: (i / 3) as u8 };
            assert(q.valid_spec() && q.flat_spec() == i);
            lemma_free_cells_membership(b, 9, q);
            assert(b.free_cells_spec(9).contains(q));
        }
        if b.valid_moves_spec().len() > 0 {
            let q = b.valid_moves_spec()[0];
            assert(b.free_cells_spec(9).contains(q));
            lemma_free_cells_membership(b, 9, q);
            assert(b.cell_spec(q.flat_spec()) is None);
        }
    }
}

/// One coordinate taken from `bytes[start .. end]`: surrounding spaces are
/// ignored, and the digits must form a number that fits a byte.
fn parse_coordinate(bytes: &[u8], start: usize, end: usize) -> (r: Option<u8>)
    requires
        start <= end <= bytes@.len(),
{
    let mut a = start;
    while a < end && bytes[a] == 32
        invariant
            start <= a <= end <= bytes@.len(),
        decreases end - a,
    {
        a = a + 1;
    }
    let mut b = end;
    while b > a && bytes[b - 1] == 32
        invariant
            a <= b <= end <= bytes@.len(),
        decreases b - a,
    {
        b = b - 1;
    }
    if a >= b {
        return None;
    }
    let mut value: u32 = 0;
    let mut i = a;
    while i < b
        invariant
            a <= i <= b <= bytes@.len(),
            value <= 255,
        decreases b - i,
    {
        let c = bytes[i];
        if c < 48 || c > 57 {
            return None;
        }
        let digit = (c - 48) as u32;
        let next = value * 10 + digit;
        if next > 255 {
            return None;
        }
        value = next;
        i = i + 1;
    }
    Some(value as u8)
}

impl core::str::FromStr for Position3 {
    type Err = String;

    /// Parse "x,y" with optional spaces around either coordinate.
    fn from_str(s: &str) -> Result<Position3, String> {
        let bytes = s.as_bytes();
        let n = bytes.len();
        let mut comma: usize = 0;
        let mut commas: usize = 0;
        let mut i: usize = 0;
        while i < n
            invariant
                i <= n == bytes@.len(),
                commas <= i,
                commas > 0 ==> comma < n,
            decreases n - i,
        {
            if bytes[i] == 44 {
                if commas == 0 {
                    comma = i;
                }
                commas = commas + 1;
            }
            i = i + 1;
        }
        if commas != 1 {
            return Err("Move requires 2 arguments".to_owned());
        }
        let x = match parse_coordinate(bytes, 0, comma) {
            Some(v) => v,
            None => {
                return Err("Invalid x coordinate".to_owned());
            },
        };
        let y = match parse_coordinate(bytes, comma + 1, n) {
            Some(v) => v,
            None => {
                return Err("Invalid y coordinate".to_owned());
            },
        };
        Ok(Position3 { x, y })
    }
}

/// The empty board value.
pub open spec fn board_default_spec() -> Board {
    Board { x_bits: 0u16, o_bits: 0u16 }
}

impl Board {
    pub open spec fn default_spec() -> Board {
        board_default_spec()
    }
}

impl Default for Board {
    /// The empty board: no cell owned by either player.
    fn default() -> (r: Self)
        ensures
            r == Board::default_spec(),
            r.inv(),
    {
        proof {
            assert(0u16 & 0u16 == 0) by (bit_vector);
        }
        Board { x_bits: 0, o_bits: 0 }
    }
}

} // verus!
