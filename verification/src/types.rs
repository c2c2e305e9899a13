//! Board geometry and the plain value types of the engine.
//!
//! Squares are numbered 0 to 63, file by file within a rank and rank by rank
//! from White's side: A1 is 0, H1 is 7, A8 is 56 and H8 is 63.

use crate::bitboard::{Bitboard, Bitrank, Pieces};
use vstd::prelude::*;

verus! {

/// The two sides.
#[derive(Clone, Copy, Debug, PartialEq, Eq, Structural)]
pub enum Color {
    White,
    Black,
}

impl Color {
    /// The side that is not `self`.
    pub open spec fn other(self) -> Color {
        match self {
            Color::White => Color::Black,
            Color::Black => Color::White,
        }
    }

    /// Executable form of [`Color::other`].
    pub fn opposite(self) -> (r: Color)
        ensures
            r == self.other(),
    {
        match self {
            Color::White => Color::Black,
            Color::Black => Color::White,
        }
    }
}

/// The kind of a piece. `Null` stands for "no piece" and, in a move, for
/// "no promotion".
#[derive(Clone, Copy, Debug, PartialEq, Eq, Structural)]
pub enum PieceType {
    King,
    Queen,
    Rook,
    Bishop,
    Knight,
    Pawn,
    Null,
}

impl PieceType {
    /// Whether a pawn may turn into this kind on the last rank.
    pub open spec fn is_promotion_target(self) -> bool {
        self == PieceType::Queen || self == PieceType::Rook || self == PieceType::Bishop || self
            == PieceType::Knight
    }
}

/// Which set of piece-square tables the evaluation uses.
#[derive(Clone, Copy, Debug, PartialEq, Eq, Structural)]
pub enum GamePhase {
    Middlegame,
    Endgame,
}

/// The eight compass directions. North is towards rank 8, east towards file H.
#[derive(Clone, Copy, Debug, PartialEq, Eq, Structural)]
pub enum Direction {
    N,
    S,
    E,
    W,
    NW,
    NE,
    SW,
    SE,
}

impl Direction {
    /// Change of file for one step.
    pub open spec fn dx(self) -> int {
        match self {
            Direction::N | Direction::S => 0,
            Direction::E | Direction::NE | Direction::SE => 1,
            Direction::W | Direction::NW | Direction::SW => -1,
        }
    }

    /// Change of rank for one step.
    pub open spec fn dy(self) -> int {
        match self {
            Direction::E | Direction::W => 0,
            Direction::N | Direction::NE | Direction::NW => 1,
            Direction::S | Direction::SE | Direction::SW => -1,
        }
    }

    /// The opposite direction.
    pub open spec fn reversed(self) -> Direction {
        match self {
            Direction::N => Direction::S,
            Direction::S => Direction::N,
            Direction::E => Direction::W,
            Direction::W => Direction::E,
            Direction::NW => Direction::SE,
            Direction::NE => Direction::SW,
            Direction::SW => Direction::NE,
            Direction::SE => Direction::NW,
        }
    }

    /// The direction as it looks after the board is mirrored top to bottom.
    pub open spec fn mirrored(self) -> Direction {
        match self {
            Direction::N => Direction::S,
            Direction::S => Direction::N,
            Direction::E => Direction::E,
            Direction::W => Direction::W,
            Direction::NW => Direction::SW,
            Direction::NE => Direction::SE,
            Direction::SW => Direction::NW,
            Direction::SE => Direction::NE,
        }
    }

    /// Executable form of [`Direction::reversed`].
    pub fn reverse(self) -> (r: Direction)
        ensures
            r == self.reversed(),
            r.dx() == -self.dx(),
            r.dy() == -self.dy(),
    {
        match self {
            Direction::N => Direction::S,
            Direction::S => Direction::N,
            Direction::E => Direction::W,
            Direction::W => Direction::E,
            Direction::NW => Direction::SE,
            Direction::NE => Direction::SW,
            Direction::SW => Direction::NE,
            Direction::SE => Direction::NW,
        }
    }

    /// Change of file for one step, as a machine integer.
    pub fn file_step(self) -> (r: i32)
        ensures
            r == self.dx(),
    {
        match self {
            Direction::N | Direction::S => 0,
            Direction::E | Direction::NE | Direction::SE => 1,
            Direction::W | Direction::NW | Direction::SW => -1,
        }
    }

    /// Change of rank for one step, as a machine integer.
    pub fn rank_step(self) -> (r: i32)
        ensures
            r == self.dy(),
    {
        match self {
            Direction::E | Direction::W => 0,
            Direction::N | Direction::NE | Direction::NW => 1,
            Direction::S | Direction::SE | Direction::SW => -1,
        }
    }
}

/// The eight knight jumps: two steps along the first letter's axis and one
/// along the second's (`NNW`), or one and two (`NWW`).
#[derive(Clone, Copy, Debug, PartialEq, Eq, Structural)]
pub enum KnightHop {
    NNW,
    NNE,
    NWW,
    NEE,
    SSW,
    SSE,
    SWW,
    SEE,
}

impl KnightHop {
    /// Change of file.
    pub open spec fn dx(self) -> int {
        match self {
            KnightHop::NNW | KnightHop::SSW => -1,
            KnightHop::NNE | KnightHop::SSE => 1,
            KnightHop::NWW | KnightHop::SWW => -2,
            KnightHop::NEE | KnightHop::SEE => 2,
        }
    }

    /// Change of rank.
    pub open spec fn dy(self) -> int {
        match self {
            KnightHop::NNW | KnightHop::NNE => 2,
            KnightHop::NWW | KnightHop::NEE => 1,
            KnightHop::SSW | KnightHop::SSE => -2,
            KnightHop::SWW | KnightHop::SEE => -1,
        }
    }

    /// The jump that leads back.
    pub open spec fn reversed(self) -> KnightHop {
        match self {
            KnightHop::NNW => KnightHop::SSE,
            KnightHop::NNE => KnightHop::SSW,
            KnightHop::NWW => KnightHop::SEE,
            KnightHop::NEE => KnightHop::SWW,
            KnightHop::SSW => KnightHop::NNE,
            KnightHop::SSE => KnightHop::NNW,
            KnightHop::SWW => KnightHop::NEE,
            KnightHop::SEE => KnightHop::NWW,
        }
    }

    /// The jump as it looks after the board is mirrored top to bottom.
    pub open spec fn mirrored(self) -> KnightHop {
        match self {
            KnightHop::NNW => KnightHop::SSW,
            KnightHop::NNE => KnightHop::SSE,
            KnightHop::NWW => KnightHop::SWW,
            KnightHop::NEE => KnightHop::SEE,
            KnightHop::SSW => KnightHop::NNW,
            KnightHop::SSE => KnightHop::NNE,
            KnightHop::SWW => KnightHop::NWW,
            KnightHop::SEE => KnightHop::NEE,
        }
    }

    /// Executable form of [`KnightHop::reversed`].
    pub fn reverse(self) -> (r: KnightHop)
        ensures
            r == self.reversed(),
            r.dx() == -self.dx(),
            r.dy() == -self.dy(),
    {
        match self {
            KnightHop::NNW => KnightHop::SSE,
            KnightHop::NNE => KnightHop::SSW,
            KnightHop::NWW => KnightHop::SEE,
            KnightHop::NEE => KnightHop::SWW,
            KnightHop::SSW => KnightHop::NNE,
            KnightHop::SSE => KnightHop::NNW,
            KnightHop::SWW => KnightHop::NEE,
            KnightHop::SEE => KnightHop::NWW,
        }
    }

    /// Change of file, as a machine integer.
    pub fn file_step(self) -> (r: i32)
        ensures
            r == self.dx(),
    {
        match self {
            KnightHop::NNW | KnightHop::SSW => -1,
            KnightHop::NNE | KnightHop::SSE => 1,
            KnightHop::NWW | KnightHop::SWW => -2,
            KnightHop::NEE | KnightHop::SEE => 2,
        }
    }

    /// Change of rank, as a machine integer.
    pub fn rank_step(self) -> (r: i32)
        ensures
            r == self.dy(),
    {
        match self {
            KnightHop::NNW | KnightHop::NNE => 2,
            KnightHop::NWW | KnightHop::NEE => 1,
            KnightHop::SSW | KnightHop::SSE => -2,
            KnightHop::SWW | KnightHop::SEE => -1,
        }
    }
}

/// All knight jumps, in the order in which the move generator tries them.
pub const KNIGHT_HOPS: [KnightHop; 8] = [
    KnightHop::NNW,
    KnightHop::NNE,
    KnightHop::NWW,
    KnightHop::NEE,
    KnightHop::SSW,
    KnightHop::SSE,
    KnightHop::SWW,
    KnightHop::SEE,
];

/// The diagonal directions.
pub const BISHOP_DIRECTIONS: [Direction; 4] = [
    Direction::NW,
    Direction::NE,
    Direction::SW,
    Direction::SE,
];

/// The directions along ranks and files.
pub const ROOK_DIRECTIONS: [Direction; 4] = [Direction::N, Direction::S, Direction::E, Direction::W];

/// All eight directions.
pub const KING_DIRECTIONS: [Direction; 8] = [
    Direction::N,
    Direction::S,
    Direction::E,
    Direction::W,
    Direction::NW,
    Direction::NE,
    Direction::SW,
    Direction::SE,
];

/// A square of the board.
#[derive(Clone, Copy, Debug, PartialEq, Eq, Structural)]
pub enum Square {
    A1, B1, C1, D1, E1, F1, G1, H1,
    A2, B2, C2, D2, E2, F2, G2, H2,
    A3, B3, C3, D3, E3, F3, G3, H3,
    A4, B4, C4, D4, E4, F4, G4, H4,
    A5, B5, C5, D5, E5, F5, G5, H5,
    A6, B6, C6, D6, E6, F6, G6, H6,
    A7, B7, C7, D7, E7, F7, G7, H7,
    A8, B8, C8, D8, E8, F8, G8, H8,
}

impl Square {
    /// The number of the square, from 0 (A1) to 63 (H8).
    pub open spec fn idx(self) -> int {
        match self {
            Square::A1 => 0,
            Square::B1 => 1,
            Square::C1 => 2,
            Square::D1 => 3,
            Square::E1 => 4,
            Square::F1 => 5,
            Square::G1 => 6,
            Square::H1 => 7,
            Square::A2 => 8,
            Square::B2 => 9,
            Square::C2 => 10,
            Square::D2 => 11,
            Square::E2 => 12,
            Square::F2 => 13,
            Square::G2 => 14,
            Square::H2 => 15,
            Square::A3 => 16,
            Square::B3 => 17,
            Square::C3 => 18,
            Square::D3 => 19,
            Square::E3 => 20,
            Square::F3 => 21,
            Square::G3 => 22,
            Square::H3 => 23,
            Square::A4 => 24,
            Square::B4 => 25,
            Square::C4 => 26,
            Square::D4 => 27,
            Square::E4 => 28,
            Square::F4 => 29,
            Square::G4 => 30,
            Square::H4 => 31,
            Square::A5 => 32,
            Square::B5 => 33,
            Square::C5 => 34,
            Square::D5 => 35,
            Square::E5 => 36,
            Square::F5 => 37,
            Square::G5 => 38,
            Square::H5 => 39,
            Square::A6 => 40,
            Square::B6 => 41,
            Square::C6 => 42,
            Square::D6 => 43,
            Square::E6 => 44,
            Square::F6 => 45,
            Square::G6 => 46,
            Square::H6 => 47,
            Square::A7 => 48,
            Square::B7 => 49,
            Square::C7 => 50,
            Square::D7 => 51,
            Square::E7 => 52,
            Square::F7 => 53,
            Square::G7 => 54,
            Square::H7 => 55,
            Square::A8 => 56,
            Square::B8 => 57,
            Square::C8 => 58,
            Square::D8 => 59,
            Square::E8 => 60,
            Square::F8 => 61,
            Square::G8 => 62,
            Square::H8 => 63,
        }
    }

    /// The square with number `i`; H8 for every `i` that numbers no square.
    #[verifier::opaque]
    pub open spec fn at(i: int) -> Square {
        if i == 0 {
            Square::A1
        } else if i == 1 {
            Square::B1
        } else if i == 2 {
            Square::C1
        } else if i == 3 {
            Square::D1
        } else if i == 4 {
            Square::E1
        } else if i == 5 {
            Square::F1
        } else if i == 6 {
            Square::G1
        } else if i == 7 {
            Square::H1
        } else if i == 8 {
            Square::A2
        } else if i == 9 {
            Square::B2
        } else if i == 10 {
            Square::C2
        } else if i == 11 {
            Square::D2
        } else if i == 12 {
            Square::E2
        } else if i == 13 {
            Square::F2
        } else if i == 14 {
            Square::G2
        } else if i == 15 {
            Square::H2
        } else if i == 16 {
            Square::A3
        } else if i == 17 {
            Square::B3
        } else if i == 18 {
            Square::C3
        } else if i == 19 {
            Square::D3
        } else if i == 20 {
            Square::E3
        } else if i == 21 {
            Square::F3
        } else if i == 22 {
            Square::G3
        } else if i == 23 {
            Square::H3
        } else if i == 24 {
            Square::A4
        } else if i == 25 {
            Square::B4
        } else if i == 26 {
            Square::C4
        } else if i == 27 {
            Square::D4
        } else if i == 28 {
            Square::E4
        } else if i == 29 {
            Square::F4
        } else if i == 30 {
            Square::G4
        } else if i == 31 {
            Square::H4
        } else if i == 32 {
            Square::A5
        } else if i == 33 {
            Square::B5
        } else if i == 34 {
            Square::C5
        } else if i == 35 {
            Square::D5
        } else if i == 36 {
            Square::E5
        } else if i == 37 {
            Square::F5
        } else if i == 38 {
            Square::G5
        } else if i == 39 {
            Square::H5
        } else if i == 40 {
            Square::A6
        } else if i == 41 {
            Square::B6
        } else if i == 42 {
            Square::C6
        } else if i == 43 {
            Square::D6
        } else if i == 44 {
            Square::E6
        } else if i == 45 {
            Square::F6
        } else if i == 46 {
            Square::G6
        } else if i == 47 {
            Square::H6
        } else if i == 48 {
            Square::A7
        } else if i == 49 {
            Square::B7
        } else if i == 50 {
            Square::C7
        } else if i == 51 {
            Square::D7
        } else if i == 52 {
            Square::E7
        } else if i == 53 {
            Square::F7
        } else if i == 54 {
            Square::G7
        } else if i == 55 {
            Square::H7
        } else if i == 56 {
            Square::A8
        } else if i == 57 {
            Square::B8
        } else if i == 58 {
            Square::C8
        } else if i == 59 {
            Square::D8
        } else if i == 60 {
            Square::E8
        } else if i == 61 {
            Square::F8
        } else if i == 62 {
            Square::G8
        } else {
            Square::H8
        }
    }

    /// File of the square, 0 (A) to 7 (H).
    pub open spec fn file(self) -> int {
        self.idx() % 8
    }

    /// Rank of the square, 0 (rank 1) to 7 (rank 8).
    pub open spec fn rank(self) -> int {
        self.idx() / 8
    }

    /// The square `dx` files to the east and `dy` ranks to the north, if that is
    /// on the board.
    pub open spec fn shifted(self, dx: int, dy: int) -> Option<Square> {
        let f = self.file() + dx;
        let r = self.rank() + dy;
        if 0 <= f < 8 && 0 <= r < 8 {
            Some(Square::at(r * 8 + f))
        } else {
            None
        }
    }

    /// The square on the same file whose rank is counted from the other side.
    pub open spec fn mirrored(self) -> Square {
        Square::at((7 - self.rank()) * 8 + self.file())
    }

    /// The square as the given side sees it: unchanged for White, mirrored for
    /// Black.
    pub open spec fn relative(self, c: Color) -> Square {
        match c {
            Color::White => self,
            Color::Black => self.mirrored(),
        }
    }

    /// Every square has a number below 64, and `at` undoes `idx`.
    pub broadcast proof fn lemma_idx_at(self)
        ensures
            0 <= #[trigger] self.idx() < 64,
            Square::at(self.idx()) == self,
    {
        reveal(Square::at);
    }

    /// `idx` undoes `at` on the numbers of squares.
    pub broadcast proof fn lemma_at_idx(i: int)
        requires
            0 <= i < 64,
        ensures
            (#[trigger] Square::at(i)).idx() == i,
    {
        reveal(Square::at);
    }

    /// The number of the square.
    pub fn index(self) -> (i: u32)
        ensures
            i == self.idx(),
            i < 64,
    {
        match self {
            Square::A1 => 0,
            Square::B1 => 1,
            Square::C1 => 2,
            Square::D1 => 3,
            Square::E1 => 4,
            Square::F1 => 5,
            Square::G1 => 6,
            Square::H1 => 7,
            Square::A2 => 8,
            Square::B2 => 9,
            Square::C2 => 10,
            Square::D2 => 11,
            Square::E2 => 12,
            Square::F2 => 13,
            Square::G2 => 14,
            Square::H2 => 15,
            Square::A3 => 16,
            Square::B3 => 17,
            Square::C3 => 18,
            Square::D3 => 19,
            Square::E3 => 20,
            Square::F3 => 21,
            Square::G3 => 22,
            Square::H3 => 23,
            Square::A4 => 24,
            Square::B4 => 25,
            Square::C4 => 26,
            Square::D4 => 27,
            Square::E4 => 28,
            Square::F4 => 29,
            Square::G4 => 30,
            Square::H4 => 31,
            Square::A5 => 32,
            Square::B5 => 33,
            Square::C5 => 34,
            Square::D5 => 35,
            Square::E5 => 36,
            Square::F5 => 37,
            Square::G5 => 38,
            Square::H5 => 39,
            Square::A6 => 40,
            Square::B6 => 41,
            Square::C6 => 42,
            Square::D6 => 43,
            Square::E6 => 44,
            Square::F6 => 45,
            Square::G6 => 46,
            Square::H6 => 47,
            Square::A7 => 48,
            Square::B7 => 49,
            Square::C7 => 50,
            Square::D7 => 51,
            Square::E7 => 52,
            Square::F7 => 53,
            Square::G7 => 54,
            Square::H7 => 55,
            Square::A8 => 56,
            Square::B8 => 57,
            Square::C8 => 58,
            Square::D8 => 59,
            Square::E8 => 60,
            Square::F8 => 61,
            Square::G8 => 62,
            Square::H8 => 63,
        }
    }

    /// The square with the given number, if there is one.
    pub fn from_index(i: u32) -> (r: Option<Square>)
        ensures
            i < 64 ==> r == Some(Square::at(i as int)),
            i >= 64 ==> r.is_none(),
    {
        proof {
            reveal(Square::at);
        }
        match i {
            0 => Some(Square::A1),
            1 => Some(Square::B1),
            2 => Some(Square::C1),
            3 => Some(Square::D1),
            4 => Some(Square::E1),
            5 => Some(Square::F1),
            6 => Some(Square::G1),
            7 => Some(Square::H1),
            8 => Some(Square::A2),
            9 => Some(Square::B2),
            10 => Some(Square::C2),
            11 => Some(Square::D2),
            12 => Some(Square::E2),
            13 => Some(Square::F2),
            14 => Some(Square::G2),
            15 => Some(Square::H2),
            16 => Some(Square::A3),
            17 => Some(Square::B3),
            18 => Some(Square::C3),
            19 => Some(Square::D3),
            20 => Some(Square::E3),
            21 => Some(Square::F3),
            22 => Some(Square::G3),
            23 => Some(Square::H3),
            24 => Some(Square::A4),
            25 => Some(Square::B4),
            26 => Some(Square::C4),
            27 => Some(Square::D4),
            28 => Some(Square::E4),
            29 => Some(Square::F4),
            30 => Some(Square::G4),
            31 => Some(Square::H4),
            32 => Some(Square::A5),
            33 => Some(Square::B5),
            34 => Some(Square::C5),
            35 => Some(Square::D5),
            36 => Some(Square::E5),
            37 => Some(Square::F5),
            38 => Some(Square::G5),
            39 => Some(Square::H5),
            40 => Some(Square::A6),
            41 => Some(Square::B6),
            42 => Some(Square::C6),
            43 => Some(Square::D6),
            44 => Some(Square::E6),
            45 => Some(Square::F6),
            46 => Some(Square::G6),
            47 => Some(Square::H6),
            48 => Some(Square::A7),
            49 => Some(Square::B7),
            50 => Some(Square::C7),
            51 => Some(Square::D7),
            52 => Some(Square::E7),
            53 => Some(Square::F7),
            54 => Some(Square::G7),
            55 => Some(Square::H7),
            56 => Some(Square::A8),
            57 => Some(Square::B8),
            58 => Some(Square::C8),
            59 => Some(Square::D8),
            60 => Some(Square::E8),
            61 => Some(Square::F8),
            62 => Some(Square::G8),
            63 => Some(Square::H8),
            _ => None,
        }
    }

    /// The square reached by `dx` files and `dy` ranks, if it is on the board.
    pub fn offset(self, dx: i32, dy: i32) -> (r: Option<Square>)
        ensures
            r == self.shifted(dx as int, dy as int),
    {
        if dx < -7 || dx > 7 || dy < -7 || dy > 7 {
            return None;
        }
        let i: u32 = self.index();
        let f: i32 = (i % 8) as i32 + dx;
        let r: i32 = (i / 8) as i32 + dy;
        if 0 <= f && f < 8 && 0 <= r && r < 8 {
            Square::from_index((r * 8 + f) as u32)
        } else {
            None
        }
    }

    /// The square `dist` steps away in direction `dir`, if it is on the board.
    pub fn slide(self, dir: Direction, dist: i32) -> (r: Option<Square>)
        ensures
            r == self.shifted(dir.dx() * dist, dir.dy() * dist),
    {
        if dist < -7 || dist > 7 {
            let ghost sx = dir.dx();
            let ghost sy = dir.dy();
            assert(sx == 0 || sx * dist > 7 || sx * dist < -7) by (nonlinear_arith)
                requires
                    -1 <= sx <= 1,
                    dist < -7 || dist > 7,
            ;
            assert(sy == 0 || sy * dist > 7 || sy * dist < -7) by (nonlinear_arith)
                requires
                    -1 <= sy <= 1,
                    dist < -7 || dist > 7,
            ;
            return None;
        }
        let sx: i32 = dir.file_step();
        let sy: i32 = dir.rank_step();
        assert(-7 <= sx * dist <= 7 && -7 <= sy * dist <= 7) by (nonlinear_arith)
            requires
                -1 <= sx <= 1,
                -1 <= sy <= 1,
                -7 <= dist <= 7,
        ;
        self.offset(sx * dist, sy * dist)
    }

    /// The square reached by the knight jump `kh`, if it is on the board.
    pub fn knight_hop(self, kh: KnightHop) -> (r: Option<Square>)
        ensures
            r == self.shifted(kh.dx(), kh.dy()),
    {
        self.offset(kh.file_step(), kh.rank_step())
    }

    /// The square as side `c` sees it.
    pub fn rel(self, c: Color) -> (r: Square)
        ensures
            r == self.relative(c),
    {
        match c {
            Color::White => self,
            Color::Black => {
                let i: u32 = self.index();
                let m: u32 = (7 - i / 8) * 8 + i % 8;
                match Square::from_index(m) {
                    Some(s) => s,
                    None => self,
                }
            },
        }
    }
}

/// Which castling moves each side may still make.
#[derive(Clone, Copy, Debug, PartialEq, Eq, Structural)]
pub struct CastlingRights {
    pub white_long: bool,
    pub white_short: bool,
    pub black_long: bool,
    pub black_short: bool,
}

impl CastlingRights {
    /// Every right held in `self` was held in `before`.
    pub open spec fn no_stronger_than(self, before: CastlingRights) -> bool {
        &&& self.white_long ==> before.white_long
        &&& self.white_short ==> before.white_short
        &&& self.black_long ==> before.black_long
        &&& self.black_short ==> before.black_short
    }

    /// The right of side `c` to castle long.
    pub open spec fn long(self, c: Color) -> bool {
        match c {
            Color::White => self.white_long,
            Color::Black => self.black_long,
        }
    }

    /// The right of side `c` to castle short.
    pub open spec fn short(self, c: Color) -> bool {
        match c {
            Color::White => self.white_short,
            Color::Black => self.black_short,
        }
    }
}

/// A move: the square left, the square entered, and the kind of piece a pawn
/// turns into (`Null` when it does not promote). Castling is the king's move
/// of two files.
#[derive(Clone, Copy, Debug, PartialEq, Eq, Structural)]
pub struct Move {
    pub from_square: Square,
    pub to_square: Square,
    pub promote_type: PieceType,
}

/// What the rules of movement depend on: the pieces, the side to move, the
/// castling rights and the files open to en-passant capture.
pub struct Position {
    pub white: Pieces,
    pub black: Pieces,
    pub turn: Color,
    pub castling: CastlingRights,
    pub en_passant: Bitrank,
}

impl Position {
    /// The pieces of side `c`.
    pub open spec fn pieces(self, c: Color) -> Pieces {
        match c {
            Color::White => self.white,
            Color::Black => self.black,
        }
    }

    /// The pieces of the side to move.
    pub open spec fn own(self) -> Pieces {
        self.pieces(self.turn)
    }

    /// The pieces of the side that is not to move.
    pub open spec fn opposing(self) -> Pieces {
        self.pieces(self.turn.other())
    }

    /// How many of the twelve sets hold the square with number `i`.
    pub open spec fn pieces_at(self, i: int) -> int {
        self.white.count_at(i) + self.black.count_at(i)
    }

    /// No square holds two pieces.
    pub open spec fn consistent(self) -> bool {
        forall|i: int| 0 <= i < 64 ==> #[trigger] self.pieces_at(i) <= 1
    }

    /// Each side has exactly one king.
    pub open spec fn one_king_each(self) -> bool {
        self.white.one_king() && self.black.one_king()
    }

    /// The same position with the other side to move.
    pub open spec fn passed(self) -> Position {
        Position { turn: self.turn.other(), ..self }
    }
}

/// A position together with a ring of the last sixteen sets of occupied
/// squares. `all_ptr` is the slot that the next move writes.
#[derive(Clone, Copy, Debug, PartialEq, Eq)]
pub struct Board {
    pub white_bitboard_pieces: Pieces,
    pub black_bitboard_pieces: Pieces,
    pub turn: Color,
    pub castling_rights: CastlingRights,
    pub enpassant_files: Bitrank,
    pub all_piece_history: [Bitboard; 16],
    pub all_ptr: usize,
}

impl View for Board {
    type V = Position;

    open spec fn view(&self) -> Position {
        Position {
            white: self.white_bitboard_pieces,
            black: self.black_bitboard_pieces,
            turn: self.turn,
            castling: self.castling_rights,
            en_passant: self.enpassant_files,
        }
    }
}

impl Board {
    /// The ring's next slot exists.
    pub open spec fn wf(&self) -> bool {
        self.all_ptr < 16
    }
}

} // verus!
