//! Static evaluation of a position and the fixed-depth search built on it.
//!
//! Scores are in hundredths of a pawn, from White's side: a positive score
//! favours White.

use crate::bitboard::{
    bit_at, flip_bitboard_pieces, get_pieces_material_value, lemma_empty_bits, lowest_square,
    slid, slide, without_square, Bitboard, Pieces, CASTLED_KING_BITBOARD, FILES,
};
use crate::move_search::{calc_moves, legal_moves, position_legal, test_pmove_valid};
use crate::types::{Board, CastlingRights, Color, Direction, GamePhase, Move, Position};
use crate::utils::{apply_move, apply_null_move, moved};
use vstd::prelude::*;

verus! {

/// The score of a position in which the side to move is mated, before the
/// remaining depth is added.
pub const EVAL_MATE: i32 = 1_000_000;

/// Value of the king on each square while many pieces remain; it favours the
/// corners of the back rank.
pub const KING_EVAL: [i32; 64] = [
    50050, 50050, 50050, 50000, 50000, 50000, 50050, 50050,
    50000, 50000, 50000, 50000, 50000, 50000, 50000, 50000,
    50000, 50000, 50000, 50000, 50000, 50000, 50000, 50000,
    50000, 50000, 50000, 50000, 50000, 50000, 50000, 50000,
    50000, 50000, 50000, 50000, 50000, 50000, 50000, 50000,
    50000, 50000, 50000, 50000, 50000, 50000, 50000, 50000,
    50000, 50000, 50000, 50000, 50000, 50000, 50000, 50000,
    50000, 50000, 50000, 50000, 50000, 50000, 50000, 50000,
];

/// Value of the king on each square in the endgame; it favours the centre.
pub const KING_ENDGAME_EVAL: [i32; 64] = [
    49940, 49950, 49960, 49970, 49970, 49960, 49950, 49940,
    49950, 49960, 49970, 49980, 49980, 49970, 49960, 49950,
    49960, 49970, 49980, 49990, 49990, 49980, 49970, 49960,
    49970, 49980, 49990, 50000, 50000, 49990, 49980, 49970,
    49970, 49980, 49990, 50000, 50000, 49990, 49980, 49970,
    49960, 49970, 49980, 49990, 49990, 49980, 49970, 49960,
    49950, 49960, 49970, 49980, 49980, 49970, 49960, 49950,
    49940, 49950, 49960, 49970, 49970, 49960, 49950, 49940,
];

/// Value of a queen on each square.
pub const QUEEN_EVAL: [i32; 64] = [
    940, 940, 940, 940, 940, 940, 940, 940,
    940, 940, 940, 940, 940, 940, 940, 940,
    940, 940, 940, 940, 940, 940, 940, 940,
    940, 940, 940, 940, 940, 940, 940, 940,
    940, 940, 940, 940, 940, 940, 940, 940,
    940, 940, 940, 940, 940, 940, 940, 940,
    940, 940, 940, 940, 940, 940, 940, 940,
    940, 940, 940, 940, 940, 940, 940, 940,
];

/// Value of a rook on each square.
pub const ROOK_EVAL: [i32; 64] = [
    510, 510, 510, 510, 510, 510, 510, 510,
    510, 510, 510, 510, 510, 510, 510, 510,
    510, 510, 510, 510, 510, 510, 510, 510,
    510, 510, 510, 510, 510, 510, 510, 510,
    510, 510, 510, 510, 510, 510, 510, 510,
    510, 510, 510, 510, 510, 510, 510, 510,
    510, 510, 510, 510, 510, 510, 510, 510,
    510, 510, 510, 510, 510, 510, 510, 510,
];

/// Value of a bishop on each square.
pub const BISHOP_EVAL: [i32; 64] = [
    315, 325, 325, 325, 325, 325, 325, 315,
    325, 335, 336, 340, 340, 336, 335, 325,
    325, 336, 337, 341, 341, 337, 336, 325,
    325, 340, 341, 345, 345, 341, 340, 325,
    325, 340, 341, 345, 345, 341, 340, 325,
    325, 336, 337, 341, 341, 337, 336, 325,
    325, 335, 336, 340, 340, 336, 335, 325,
    315, 325, 325, 325, 325, 325, 325, 315,
];

/// Value of a knight on each square.
pub const KNIGHT_EVAL: [i32; 64] = [
    250, 265, 280, 280, 280, 280, 265, 250,
    280, 295, 315, 325, 325, 315, 295, 280,
    280, 295, 315, 325, 325, 315, 295, 280,
    280, 305, 335, 345, 345, 335, 305, 280,
    280, 305, 335, 345, 345, 335, 305, 280,
    280, 305, 335, 345, 345, 335, 305, 280,
    280, 295, 315, 325, 325, 315, 295, 280,
    280, 295, 310, 310, 310, 310, 295, 280,
];

/// Value of a pawn on each square.
pub const PAWN_EVAL: [i32; 64] = [
    90, 90, 100, 110, 110, 100, 90, 90,
    90, 90, 100, 45, 45, 100, 90, 90,
    90, 90, 100, 110, 110, 100, 90, 90,
    95, 95, 105, 115, 115, 105, 95, 95,
    100, 100, 110, 120, 120, 110, 100, 100,
    105, 105, 115, 125, 125, 115, 105, 105,
    150, 150, 160, 170, 170, 160, 150, 150,
    90, 90, 100, 110, 110, 100, 90, 90,
];

/// Whether every entry of `table` lies between 0 and `limit`.
pub open spec fn table_bounded(table: [i32; 64], limit: int) -> bool {
    forall|i: int| 0 <= i < 64 ==> 0 <= #[trigger] table[i] <= limit
}

/// The number of squares of `x` with a number of `lo` or more.
pub open spec fn ones_from(x: u64, lo: int) -> nat
    decreases 64 - lo,
{
    if lo < 0 || lo >= 64 {
        0
    } else {
        (if bit_at(x, lo) {
            1nat
        } else {
            0nat
        }) + ones_from(x, lo + 1)
    }
}

/// The number of squares in the set `x`.
pub open spec fn ones(x: u64) -> nat {
    ones_from(x, 0)
}

/// `u64::count_ones` of the standard library. The contract claims what its
/// documentation says, that it returns the number of bits of `x` that are
/// set, which is the number of squares in the set; this is taken on trust.
pub assume_specification[ u64::count_ones ](x: u64) -> (r: u32)
    ensures
        r == ones(x),
;

/// A set has at most 64 squares.
pub proof fn lemma_ones_bound(x: u64, lo: int)
    requires
        0 <= lo <= 64,
    ensures
        ones_from(x, lo) <= 64 - lo,
    decreases 64 - lo,
{
    if lo < 64 {
        lemma_ones_bound(x, lo + 1);
    }
}

/// The sum of the entries of `table` for the squares of `b` with a number of
/// `lo` or more.
pub open spec fn table_sum(b: u64, table: [i32; 64], lo: int) -> int
    decreases 64 - lo,
{
    if lo < 0 || lo >= 64 {
        0
    } else {
        (if bit_at(b, lo) {
            table[lo] as int
        } else {
            0
        }) + table_sum(b, table, lo + 1)
    }
}

/// A sum over a bounded table is bounded.
pub proof fn lemma_table_sum_bound(b: u64, table: [i32; 64], limit: int, lo: int)
    requires
        0 <= lo <= 64,
        table_bounded(table, limit),
    ensures
        0 <= table_sum(b, table, lo) <= (64 - lo) * limit,
    decreases 64 - lo,
{
    if lo < 64 {
        lemma_table_sum_bound(b, table, limit, lo + 1);
        let rest = (64 - (lo + 1)) * limit;
        assert((64 - lo) * limit == rest + limit) by (nonlinear_arith)
            requires
                rest == (64 - (lo + 1)) * limit,
        ;
        assert(0 <= table[lo] <= limit);
    } else {
        assert((64 - lo) * limit == 0) by (nonlinear_arith)
            requires
                lo == 64,
        ;
    }
}

/// Squares that are not in the set add nothing to a sum.
pub proof fn lemma_table_sum_skip(b: u64, table: [i32; 64], lo: int, hi: int)
    requires
        0 <= lo <= hi <= 64,
        forall|j: int| lo <= j < hi ==> !bit_at(b, j),
    ensures
        table_sum(b, table, lo) == table_sum(b, table, hi),
    decreases hi - lo,
{
    if lo < hi {
        lemma_table_sum_skip(b, table, lo + 1, hi);
    }
}

/// The number of the lowest square of `b` from `lo` on; 64 if there is none.
pub open spec fn lowest_from(b: u64, lo: int) -> int
    decreases 64 - lo,
{
    if lo < 0 || lo >= 64 {
        64
    } else if bit_at(b, lo) {
        lo
    } else {
        lowest_from(b, lo + 1)
    }
}

/// The lowest square is the one below which the set has no square.
pub proof fn lemma_lowest(b: u64, lo: int, i: int)
    requires
        0 <= lo <= i < 64,
        bit_at(b, i),
        forall|j: int| lo <= j < i ==> !bit_at(b, j),
    ensures
        lowest_from(b, lo) == i,
    decreases i - lo,
{
    if lo < i {
        lemma_lowest(b, lo + 1, i);
    }
}

/// Sums the entries of `table` over the squares of `b`.
pub fn sum_over_squares(b: Bitboard, table: &[i32; 64]) -> (r: i32)
    requires
        table_bounded(*table, TABLE_LIMIT as int),
    ensures
        r == table_sum(b, *table, 0),
        0 <= r <= 64 * TABLE_LIMIT,
{
    let mut total: i32 = 0;
    let mut bb: Bitboard = b;
    let ghost lo: int = 0;
    proof {
        lemma_table_sum_bound(b, *table, TABLE_LIMIT as int, 0);
    }
    while bb != 0
        invariant
            0 <= lo <= 64,
            table_bounded(*table, TABLE_LIMIT as int),
            forall|j: int| 0 <= j < 64 ==> bit_at(bb, j) == (bit_at(b, j) && j >= lo),
            total + table_sum(b, *table, lo) == table_sum(b, *table, 0),
            0 <= table_sum(b, *table, 0) <= 64 * TABLE_LIMIT,
            0 <= total,
        decreases 64 - lo,
    {
        let idx: u32 = lowest_square(bb);
        proof {
            lemma_table_sum_skip(b, *table, lo, idx as int);
            lemma_table_sum_bound(b, *table, TABLE_LIMIT as int, idx + 1);
            lo = idx + 1;
        }
        total = total + table[idx as usize];
        bb = without_square(bb, idx);
    }
    proof {
        lemma_empty_bits(bb);
        lemma_table_sum_skip(b, *table, lo, 64);
    }
    total
}

/// No entry of a piece-square table is negative or above this.
pub const TABLE_LIMIT: i32 = 50_050;

/// The greatest entry of each piece-square table.
pub proof fn lemma_tables_bounded()
    ensures
        table_bounded(KING_EVAL, 50_050),
        table_bounded(KING_ENDGAME_EVAL, 50_050),
        table_bounded(QUEEN_EVAL, 940),
        table_bounded(ROOK_EVAL, 510),
        table_bounded(BISHOP_EVAL, 345),
        table_bounded(KNIGHT_EVAL, 345),
        table_bounded(PAWN_EVAL, 170),
        table_bounded(QUEEN_EVAL, TABLE_LIMIT as int),
        table_bounded(ROOK_EVAL, TABLE_LIMIT as int),
        table_bounded(BISHOP_EVAL, TABLE_LIMIT as int),
        table_bounded(KNIGHT_EVAL, TABLE_LIMIT as int),
        table_bounded(PAWN_EVAL, TABLE_LIMIT as int),
{
}

/// The value of the king: the entry for the lowest square of `king`, from the
/// table of the game phase; nothing if there is no king.
pub open spec fn king_value(king: u64, g: GamePhase) -> int {
    if king == 0 {
        0
    } else {
        match g {
            GamePhase::Endgame => KING_ENDGAME_EVAL[lowest_from(king, 0)] as int,
            GamePhase::Middlegame => KING_EVAL[lowest_from(king, 0)] as int,
        }
    }
}

/// The value of the pieces of one side by kind and square, the squares
/// counted as that side sees them.
pub open spec fn material(p: Pieces, g: GamePhase) -> int {
    king_value(p.king, g) + table_sum(p.queens, QUEEN_EVAL, 0) + table_sum(p.rooks, ROOK_EVAL, 0)
        + table_sum(p.bishops, BISHOP_EVAL, 0) + table_sum(p.knights, KNIGHT_EVAL, 0) + table_sum(
        p.pawns,
        PAWN_EVAL,
        0,
    )
}

/// The value of the pieces of one side never exceeds this: a king, and 64
/// pieces of each other kind on their best squares.
pub const MATERIAL_LIMIT: i32 = 197_890;

/// The value of the pieces lies within fixed bounds.
pub proof fn lemma_material_bound(p: Pieces, g: GamePhase)
    ensures
        0 <= material(p, g) <= MATERIAL_LIMIT,
{
    lemma_tables_bounded();
    lemma_table_sum_bound(p.queens, QUEEN_EVAL, 940, 0);
    lemma_table_sum_bound(p.rooks, ROOK_EVAL, 510, 0);
    lemma_table_sum_bound(p.bishops, BISHOP_EVAL, 345, 0);
    lemma_table_sum_bound(p.knights, KNIGHT_EVAL, 345, 0);
    lemma_table_sum_bound(p.pawns, PAWN_EVAL, 170, 0);
    if p.king != 0 {
        lemma_lowest_range(p.king, 0);
    }
}

/// The lowest square has a number from `lo` to 64.
pub proof fn lemma_lowest_range(b: u64, lo: int)
    requires
        0 <= lo <= 64,
    ensures
        lo <= lowest_from(b, lo) <= 64,
        b != 0 && lo == 0 ==> lowest_from(b, lo) < 64,
    decreases 64 - lo,
{
    if lo < 64 {
        lemma_lowest_range(b, lo + 1);
    }
    if b != 0 && lo == 0 {
        lemma_empty_bits(b);
        let i = choose|i: int| 0 <= i < 64 && bit_at(b, i);
        lemma_lowest_at_most(b, 0, i);
    }
}

/// The lowest square is not above any square of the set.
pub proof fn lemma_lowest_at_most(b: u64, lo: int, i: int)
    requires
        0 <= lo <= i < 64,
        bit_at(b, i),
    ensures
        lowest_from(b, lo) <= i,
    decreases i - lo,
{
    if lo < i && !bit_at(b, lo) {
        lemma_lowest_at_most(b, lo + 1, i);
    }
}

/// The number of pawns of `pawns` on file `f`.
pub open spec fn file_count(pawns: u64, f: int) -> nat {
    ones(FILES[f] & pawns)
}

/// The penalty for pawns that share a file, over the first `n` files: 40 for
/// each pawn beyond the first on a file.
pub open spec fn doubled_penalty(pawns: u64, n: int) -> int
    decreases n,
{
    if n <= 0 {
        0
    } else {
        doubled_penalty(pawns, n - 1) + (if file_count(pawns, n - 1) > 0 {
            40 * (file_count(pawns, n - 1) - 1)
        } else {
            0
        })
    }
}

/// The number of pawn islands within the first `n` files: the runs of
/// neighbouring files that hold pawns.
pub open spec fn pawn_islands(pawns: u64, n: int) -> int
    decreases n,
{
    if n <= 0 {
        0
    } else {
        pawn_islands(pawns, n - 1) + (if file_count(pawns, n - 1) > 0 && (n == 1 || file_count(
            pawns,
            n - 2,
        ) == 0) {
            1int
        } else {
            0int
        })
    }
}

/// Whether a side has so few pieces left that the endgame may have begun:
/// its queens and rooks, and half its bishops and knights, count two or
/// less.
pub open spec fn few_pieces(p: Pieces) -> bool {
    ones(p.queens) + ones(p.rooks) + (ones(p.bishops) + ones(p.knights)) / 2 <= 2
}

/// The phase of the game: the endgame once both sides have few pieces.
pub open spec fn game_phase(own: Pieces, enemy: Pieces) -> GamePhase {
    if few_pieces(own) && few_pieces(enemy) {
        GamePhase::Endgame
    } else {
        GamePhase::Middlegame
    }
}

/// The bonus for pawns in front of a castled king, the board seen from the
/// king's side: 35 for each pawn diagonally ahead of it, 20 for each pawn two
/// squares diagonally ahead, 50 for a pawn directly ahead and 30 for one two
/// squares ahead. It is given before the endgame to a king on A1, B1, C1, G1
/// or H1.
pub open spec fn king_shield(own: Pieces, g: GamePhase) -> int {
    if g != GamePhase::Endgame && own.king & CASTLED_KING_BITBOARD != 0 {
        35 * ones(
            (slid(own.king, Direction::NW, 1) | slid(own.king, Direction::NE, 1)) & own.pawns,
        ) + 20 * ones(
            (slid(own.king, Direction::NW, 2) | slid(own.king, Direction::NE, 2)) & own.pawns,
        ) + (if slid(own.king, Direction::N, 1) & own.pawns != 0 {
            50int
        } else {
            0int
        }) + (if slid(own.king, Direction::N, 2) & own.pawns != 0 {
            30int
        } else {
            0int
        })
    } else {
        0
    }
}

/// The bonus for the castling rights that side `c` still holds: 50 for the
/// long side, 75 for the short side.
pub open spec fn castling_bonus(r: CastlingRights, c: Color) -> int {
    (if r.long(c) {
        50int
    } else {
        0int
    }) + (if r.short(c) {
        75int
    } else {
        0int
    })
}

/// The pieces of side `c` as that side sees the board.
pub open spec fn seen_by(p: Position, c: Color) -> Pieces {
    match c {
        Color::White => p.white,
        Color::Black => p.black.flipped(),
    }
}

/// The pieces of the side that is not `c`, as side `c` sees the board.
pub open spec fn seen_against(p: Position, c: Color) -> Pieces {
    match c {
        Color::White => p.black,
        Color::Black => p.white.flipped(),
    }
}

/// The score of side `c` alone: castling rights, pawn structure, pieces by
/// kind and square, and the king's pawn shield.
#[verifier::opaque]
pub open spec fn side_score(p: Position, c: Color) -> int {
    let own = seen_by(p, c);
    let phase = game_phase(own, seen_against(p, c));
    castling_bonus(p.castling, c) - doubled_penalty(own.pawns, 8) - 30 * pawn_islands(own.pawns, 8)
        + material(own, phase) + king_shield(own, phase)
}

/// The score of the position from White's side: White's score less Black's.
pub open spec fn evaluate(p: Position) -> int {
    side_score(p, Color::White) - side_score(p, Color::Black)
}

/// The penalty and the number of islands lie within fixed bounds.
pub proof fn lemma_pawn_structure_bound(pawns: u64, n: int)
    requires
        0 <= n <= 8,
    ensures
        0 <= doubled_penalty(pawns, n) <= 2520 * n,
        0 <= pawn_islands(pawns, n) <= n,
    decreases n,
{
    if n > 0 {
        lemma_pawn_structure_bound(pawns, n - 1);
        lemma_ones_bound(FILES[n - 1] & pawns, 0);
    }
}

/// The score of one side lies within fixed bounds.
pub proof fn lemma_side_score_bound(p: Position, c: Color)
    ensures
        -SCORE_LIMIT <= side_score(p, c) <= SCORE_LIMIT,
{
    reveal(side_score);
    let own = seen_by(p, c);
    let phase = game_phase(own, seen_against(p, c));
    lemma_material_bound(own, phase);
    lemma_pawn_structure_bound(own.pawns, 8);
    lemma_ones_bound(
        (slid(own.king, Direction::NW, 1) | slid(own.king, Direction::NE, 1)) & own.pawns,
        0,
    );
    lemma_ones_bound(
        (slid(own.king, Direction::NW, 2) | slid(own.king, Direction::NE, 2)) & own.pawns,
        0,
    );
}

/// No side's score exceeds this in size, so that the score of a position,
/// which is the difference of two of them, stays below [`EVAL_MATE`] in size.
pub const SCORE_LIMIT: i32 = 250_000;

/// The penalty for the pawn structure: 40 for each pawn beyond the first on
/// a file, 30 for each pawn island.
fn pawn_structure_penalty(pawns: Bitboard) -> (r: i32)
    ensures
        r == doubled_penalty(pawns, 8) + 30 * pawn_islands(pawns, 8),
        0 <= r <= 20_400,
{
    let mut last_had_pawns = false;
    let mut num_pawn_islands: i32 = 0;
    let mut doubled: i32 = 0;
    let mut f: usize = 0;
    while f < 8
        invariant
            0 <= f <= 8,
            doubled == doubled_penalty(pawns, f as int),
            num_pawn_islands == pawn_islands(pawns, f as int),
            last_had_pawns == (f > 0 && file_count(pawns, f - 1) > 0),
        decreases 8 - f,
    {
        proof {
            lemma_pawn_structure_bound(pawns, f as int);
            lemma_ones_bound(FILES[f as int] & pawns, 0);
        }
        let count: i32 = (FILES[f] & pawns).count_ones() as i32;
        if count > 0 {
            if !last_had_pawns {
                num_pawn_islands = num_pawn_islands + 1;
            }
            doubled = doubled + 40 * (count - 1);
            last_had_pawns = true;
        } else {
            last_had_pawns = false;
        }
        f = f + 1;
    }
    proof {
        lemma_pawn_structure_bound(pawns, 8);
    }
    doubled + 30 * num_pawn_islands
}

/// Tells whether a side has few pieces left.
fn has_few_pieces(p: &Pieces) -> (r: bool)
    ensures
        r == few_pieces(*p),
{
    proof {
        lemma_ones_bound(p.bishops, 0);
        lemma_ones_bound(p.knights, 0);
        lemma_ones_bound(p.queens, 0);
        lemma_ones_bound(p.rooks, 0);
    }
    let num_minor_pieces: u32 = p.bishops.count_ones() + p.knights.count_ones();
    let num_major_pieces: u32 = p.queens.count_ones() + p.rooks.count_ones();
    num_major_pieces + num_minor_pieces / 2 <= 2
}

/// The bonus for pawns in front of a castled king.
fn pawn_shield(own: &Pieces, g: GamePhase) -> (r: i32)
    ensures
        r == king_shield(*own, g),
        0 <= r <= 3_600,
{
    let endgame = match g {
        GamePhase::Endgame => true,
        GamePhase::Middlegame => false,
    };
    let mut shield: i32 = 0;
    if !endgame && (own.king & CASTLED_KING_BITBOARD) != 0 {
        let king_shield_diag1 = slide(own.king, Direction::NW, 1) | slide(
            own.king,
            Direction::NE,
            1,
        );
        let king_shield_diag2 = slide(own.king, Direction::NW, 2) | slide(
            own.king,
            Direction::NE,
            2,
        );
        proof {
            lemma_ones_bound(king_shield_diag1 & own.pawns, 0);
            lemma_ones_bound(king_shield_diag2 & own.pawns, 0);
        }
        shield = shield + 35 * ((king_shield_diag1 & own.pawns).count_ones() as i32);
        shield = shield + 20 * ((king_shield_diag2 & own.pawns).count_ones() as i32);
        if (slide(own.king, Direction::N, 1) & own.pawns) != 0 {
            shield = shield + 50;
        }
        if (slide(own.king, Direction::N, 2) & own.pawns) != 0 {
            shield = shield + 30;
        }
    }
    shield
}

/// The score of side `c` alone: castling rights, pawn structure, pieces by
/// kind and square, and the king's pawn shield.
pub fn eval_pos_quick_color(b: &Board, c: Color) -> (r: i32)
    ensures
        r == side_score(b@, c),
        -SCORE_LIMIT <= r <= SCORE_LIMIT,
{
    proof {
        reveal(side_score);
    }
    let white = match c {
        Color::White => true,
        Color::Black => false,
    };
    let bitboard_pieces = if white {
        b.white_bitboard_pieces
    } else {
        flip_bitboard_pieces(b.black_bitboard_pieces)
    };
    let enemy_bitboard_pieces = if white {
        b.black_bitboard_pieces
    } else {
        flip_bitboard_pieces(b.white_bitboard_pieces)
    };
    let mut eval: i32 = 0;

    // castling rights are worth something, those for the short side more
    let can_castle_long = if white {
        b.castling_rights.white_long
    } else {
        b.castling_rights.black_long
    };
    let can_castle_short = if white {
        b.castling_rights.white_short
    } else {
        b.castling_rights.black_short
    };
    if can_castle_long {
        eval = eval + 50;
    }
    if can_castle_short {
        eval = eval + 75;
    }
    assert(eval == castling_bonus(b@.castling, c));

    // pawn islands and doubled pawns
    eval = eval - pawn_structure_penalty(bitboard_pieces.pawns);

    // with few pieces left on both sides the endgame tables apply
    let gamephase = if has_few_pieces(&bitboard_pieces) && has_few_pieces(&enemy_bitboard_pieces) {
        GamePhase::Endgame
    } else {
        GamePhase::Middlegame
    };
    assert(gamephase == game_phase(seen_by(b@, c), seen_against(b@, c)));

    // pieces by kind and square
    proof {
        lemma_material_bound(bitboard_pieces, gamephase);
    }
    eval = eval + get_pieces_material_value(bitboard_pieces, gamephase);

    // before the endgame a castled king gains from pawns in front of it
    eval = eval + pawn_shield(&bitboard_pieces, gamephase);
    eval
}

/// The score of the position from White's side: positive where White stands
/// better.
pub fn eval_pos_quick(b: &Board) -> (r: i32)
    ensures
        r == evaluate(b@),
        -EVAL_MATE < r < EVAL_MATE,
{
    proof {
        lemma_evaluate_bound(b@);
    }
    let white_eval = eval_pos_quick_color(b, Color::White);
    let black_eval = eval_pos_quick_color(b, Color::Black);
    white_eval - black_eval
}

/// The value `v` as a search with the window from `alpha` to `beta` reports
/// it: `beta` for every value of `beta` or more, `alpha` for every value of
/// `alpha` or less.
pub open spec fn clamp(v: int, alpha: int, beta: int) -> int {
    if v >= beta {
        beta
    } else if v <= alpha {
        alpha
    } else {
        v
    }
}

/// The value of the position for a search of `depth` plies, from White's
/// side, when the side to move seeks the highest score (`maximizing`) or the
/// lowest, and the sides take turns in that.
///
/// At depth 0 it is the static score. A side without a legal move is
/// stalemated, which scores 0, or mated, which scores [`EVAL_MATE`] plus the
/// remaining depth against it. Otherwise it is the best of the values of the
/// positions after each legal move.
pub open spec fn node_value(p: Position, depth: nat, maximizing: bool) -> int
    decreases depth, 1int, 0int,
{
    if depth == 0 {
        evaluate(p)
    } else if legal_moves(p).len() == 0 {
        if position_legal(p.passed()) {
            0
        } else if maximizing {
            -(EVAL_MATE + depth)
        } else {
            EVAL_MATE + depth
        }
    } else {
        best_reply(p, depth, maximizing, legal_moves(p).len() as int)
    }
}

/// The value, for a search of `depth - 1` plies, of the position after the
/// legal move with number `j`.
pub open spec fn reply_value(p: Position, depth: nat, maximizing: bool, j: int) -> int
    decreases depth, 0int, 0int,
{
    if depth == 0 || j < 0 || j >= legal_moves(p).len() {
        0
    } else {
        node_value(moved(p, legal_moves(p)[j]), (depth - 1) as nat, !maximizing)
    }
}

/// The best of the values of the positions after the first `n` legal moves,
/// for `n >= 1`: the highest if `maximizing`, else the lowest.
pub open spec fn best_reply(p: Position, depth: nat, maximizing: bool, n: int) -> int
    decreases depth, 0int, n,
{
    if depth == 0 || n <= 0 {
        0
    } else if n == 1 {
        reply_value(p, depth, maximizing, 0)
    } else {
        let rest = best_reply(p, depth, maximizing, n - 1);
        let last = reply_value(p, depth, maximizing, n - 1);
        if maximizing {
            if last > rest {
                last
            } else {
                rest
            }
        } else {
            if last < rest {
                last
            } else {
                rest
            }
        }
    }
}

/// Whether the search of a position ends at once: at depth 0, or where the
/// side to move has no legal move.
pub open spec fn is_leaf(p: Position, depth: nat) -> bool {
    depth == 0 || legal_moves(p).len() == 0
}

/// Whether the reply with number `j` ends the search of a position at once
/// when the window is empty: the position after it is no leaf, or its value
/// reaches `bound`.
pub open spec fn cuts(p: Position, depth: nat, maximizing: bool, bound: int, j: int) -> bool {
    ||| !is_leaf(moved(p, legal_moves(p)[j]), (depth - 1) as nat)
    ||| if maximizing {
        reply_value(p, depth, maximizing, j) >= bound
    } else {
        reply_value(p, depth, maximizing, j) <= bound
    }
}

/// Whether some reply ends the search at once when the window is empty.
pub open spec fn is_cut(p: Position, depth: nat, maximizing: bool, bound: int) -> bool {
    exists|j: int| 0 <= j < legal_moves(p).len() && #[trigger] cuts(p, depth, maximizing, bound, j)
}

/// What an alpha-beta search with the window from `alpha` to `beta` returns
/// for a position: at a leaf its value, elsewhere its value clamped to the
/// window. Where the window is empty (`alpha >= beta`), the search of a
/// position that is no leaf returns the bound that its side is held to, if a
/// reply cuts the search off, and the other bound else.
pub open spec fn window_value(
    p: Position,
    depth: nat,
    maximizing: bool,
    alpha: int,
    beta: int,
) -> int {
    if is_leaf(p, depth) {
        node_value(p, depth, maximizing)
    } else if alpha < beta {
        clamp(node_value(p, depth, maximizing), alpha, beta)
    } else if maximizing {
        if is_cut(p, depth, true, beta) {
            beta
        } else {
            alpha
        }
    } else {
        if is_cut(p, depth, false, alpha) {
            alpha
        } else {
            beta
        }
    }
}

/// The greatest depth that the search accepts.
pub const MAX_DEPTH: i32 = 1_000_000;

/// The best reply is at least as good as each of the replies it is taken
/// from.
pub proof fn lemma_best_reply_bounds(p: Position, depth: nat, maximizing: bool, n: int, j: int)
    requires
        depth > 0,
        0 <= j < n,
    ensures
        maximizing ==> best_reply(p, depth, maximizing, n) >= reply_value(p, depth, maximizing, j),
        !maximizing ==> best_reply(p, depth, maximizing, n) <= reply_value(
            p,
            depth,
            maximizing,
            j,
        ),
    decreases n,
{
    if n > 1 && j < n - 1 {
        lemma_best_reply_bounds(p, depth, maximizing, n - 1, j);
    }
}

/// The static score of a position stays below the mate score in size.
pub proof fn lemma_evaluate_bound(p: Position)
    ensures
        -EVAL_MATE < evaluate(p) < EVAL_MATE,
{
    lemma_side_score_bound(p, Color::White);
    lemma_side_score_bound(p, Color::Black);
}

/// The value of a position never exceeds the mate score for its depth.
pub proof fn lemma_node_value_bound(p: Position, depth: nat, maximizing: bool)
    ensures
        -(EVAL_MATE + depth) <= node_value(p, depth, maximizing) <= EVAL_MATE + depth,
    decreases depth, 1int, 0int,
{
    if depth == 0 {
        lemma_side_score_bound(p, Color::White);
        lemma_side_score_bound(p, Color::Black);
    } else if legal_moves(p).len() > 0 {
        lemma_best_reply_bound(p, depth, maximizing, legal_moves(p).len() as int);
    }
}

/// The bound of [`lemma_node_value_bound`] for the best reply.
pub proof fn lemma_best_reply_bound(p: Position, depth: nat, maximizing: bool, n: int)
    requires
        depth > 0,
        1 <= n <= legal_moves(p).len(),
    ensures
        -(EVAL_MATE + depth) <= best_reply(p, depth, maximizing, n) <= EVAL_MATE + depth,
    decreases depth, 0int, n,
{
    lemma_node_value_bound(moved(p, legal_moves(p)[n - 1]), (depth - 1) as nat, !maximizing);
    assert(reply_value(p, depth, maximizing, n - 1) == node_value(
        moved(p, legal_moves(p)[n - 1]),
        (depth - 1) as nat,
        !maximizing,
    ));
    if n > 1 {
        lemma_best_reply_bound(p, depth, maximizing, n - 1);
    }
}

/// Searches the position after move `m` for the side that seeks the highest
/// score, `rem_depth` plies deep, with the window from `alpha` to `beta`.
pub fn eval_move_max(b: &Board, m: Move, rem_depth: i32, alpha: i32, beta: i32) -> (r: i32)
    requires
        b.wf(),
        0 <= rem_depth <= MAX_DEPTH,
    ensures
        r == window_value(moved(b@, m), rem_depth as nat, true, alpha as int, beta as int),
    decreases rem_depth,
{
    let board = apply_move(b, m);
    if rem_depth == 0 {
        return eval_pos_quick(&board);
    }
    let next_moves = calc_moves(&board);
    if next_moves.len() == 0 {
        let test_board = apply_null_move(&board);
        if test_pmove_valid(&test_board) {
            // no move and the king cannot be taken: stalemate
            return 0;
        } else {
            // mated; the remaining depth makes a later mate score higher
            return -EVAL_MATE - rem_depth;
        }
    }
    let ghost p = board@;
    let ghost d = rem_depth as nat;
    let mut new_alpha: i32 = alpha;
    let mut i: usize = 0;
    while i < next_moves.len()
        invariant
            0 <= i <= next_moves.len(),
            board.wf(),
            p == board@,
            p == moved(b@, m),
            d == rem_depth,
            0 < rem_depth <= MAX_DEPTH,
            next_moves@ == legal_moves(p),
            alpha <= new_alpha,
            alpha < beta ==> new_alpha < beta,
            alpha < beta && i == 0 ==> new_alpha == alpha,
            alpha < beta && i > 0 ==> best_reply(p, d, true, i as int) < beta,
            alpha < beta && i > 0 ==> new_alpha == (if best_reply(p, d, true, i as int) > alpha {
                best_reply(p, d, true, i as int)
            } else {
                alpha as int
            }),
            alpha >= beta ==> new_alpha == alpha,
            alpha >= beta ==> forall|j: int| 0 <= j < i ==> !#[trigger] cuts(p, d, true, beta as int, j),
        decreases next_moves.len() - i,
    {
        let m_eval = eval_move_min(&board, next_moves[i], rem_depth - 1, new_alpha, beta);
        proof {
            let t = reply_value(p, d, true, i as int);
            assert(m_eval == window_value(
                moved(p, next_moves@[i as int]),
                (d - 1) as nat,
                false,
                new_alpha as int,
                beta as int,
            ));
            if alpha < beta {
                assert(m_eval >= beta <==> t >= beta);
                assert(m_eval <= new_alpha <==> t <= new_alpha);
                assert(new_alpha < m_eval < beta ==> m_eval == t);
            } else {
                assert(m_eval >= beta <==> cuts(p, d, true, beta as int, i as int));
            }
        }
        if m_eval >= beta {
            proof {
                if alpha < beta {
                    lemma_best_reply_bounds(p, d, true, next_moves.len() as int, i as int);
                    assert(node_value(p, d, true) == best_reply(
                        p,
                        d,
                        true,
                        next_moves.len() as int,
                    ));
                    assert(node_value(p, d, true) >= beta);
                } else {
                    assert(cuts(p, d, true, beta as int, i as int));
                }
            }
            return beta;
        }
        if m_eval > new_alpha {
            new_alpha = m_eval;
        }
        i = i + 1;
    }
    new_alpha
}

/// Searches the position after move `m` for the side that seeks the lowest
/// score, `rem_depth` plies deep, with the window from `alpha` to `beta`.
pub fn eval_move_min(b: &Board, m: Move, rem_depth: i32, alpha: i32, beta: i32) -> (r: i32)
    requires
        b.wf(),
        0 <= rem_depth <= MAX_DEPTH,
    ensures
        r == window_value(moved(b@, m), rem_depth as nat, false, alpha as int, beta as int),
    decreases rem_depth,
{
    let board = apply_move(b, m);
    if rem_depth == 0 {
        return eval_pos_quick(&board);
    }
    let next_moves = calc_moves(&board);
    if next_moves.len() == 0 {
        let test_board = apply_null_move(&board);
        if test_pmove_valid(&test_board) {
            // no move and the king cannot be taken: stalemate
            return 0;
        } else {
            // mated; the remaining depth makes a sooner mate score higher
            return EVAL_MATE + rem_depth;
        }
    }
    let ghost p = board@;
    let ghost d = rem_depth as nat;
    let mut new_beta: i32 = beta;
    let mut i: usize = 0;
    while i < next_moves.len()
        invariant
            0 <= i <= next_moves.len(),
            board.wf(),
            p == board@,
            p == moved(b@, m),
            d == rem_depth,
            0 < rem_depth <= MAX_DEPTH,
            next_moves@ == legal_moves(p),
            new_beta <= beta,
            alpha < beta ==> alpha < new_beta,
            alpha < beta && i == 0 ==> new_beta == beta,
            alpha < beta && i > 0 ==> best_reply(p, d, false, i as int) > alpha,
            alpha < beta && i > 0 ==> new_beta == (if best_reply(p, d, false, i as int) < beta {
                best_reply(p, d, false, i as int)
            } else {
                beta as int
            }),
            alpha >= beta ==> new_beta == beta,
            alpha >= beta ==> forall|j: int|
                0 <= j < i ==> !#[trigger] cuts(p, d, false, alpha as int, j),
        decreases next_moves.len() - i,
    {
        let m_eval = eval_move_max(&board, next_moves[i], rem_depth - 1, alpha, new_beta);
        proof {
            let t = reply_value(p, d, false, i as int);
            assert(m_eval == window_value(
                moved(p, next_moves@[i as int]),
                (d - 1) as nat,
                true,
                alpha as int,
                new_beta as int,
            ));
            if alpha < beta {
                assert(m_eval <= alpha <==> t <= alpha);
                assert(m_eval >= new_beta <==> t >= new_beta);
                assert(alpha < m_eval < new_beta ==> m_eval == t);
            } else {
                assert(m_eval <= alpha <==> cuts(p, d, false, alpha as int, i as int));
            }
        }
        if m_eval <= alpha {
            proof {
                if alpha < beta {
                    lemma_best_reply_bounds(p, d, false, next_moves.len() as int, i as int);
                    assert(node_value(p, d, false) == best_reply(
                        p,
                        d,
                        false,
                        next_moves.len() as int,
                    ));
                    assert(node_value(p, d, false) <= alpha);
                } else {
                    assert(cuts(p, d, false, alpha as int, i as int));
                }
            }
            return alpha;
        }
        if m_eval < new_beta {
            new_beta = m_eval;
        }
        i = i + 1;
    }
    new_beta
}

/// The widest window that the search starts with.
pub const EVAL_WINDOW: i32 = 1_000_000_000;

/// The score of move `m` for the side to move, from a search of `depth`
/// plies that counts `m` as the first: the value of the position after `m`,
/// taken from White's side when White is to move and negated when Black is.
pub open spec fn move_score(p: Position, m: Move, depth: int) -> int {
    match p.turn {
        Color::White => node_value(moved(p, m), (depth - 1) as nat, false),
        Color::Black => -node_value(moved(p, m), (depth - 1) as nat, true),
    }
}

/// The score of a move is smaller in size than the widest window.
pub proof fn lemma_move_score_bound(p: Position, m: Move, depth: int)
    requires
        1 <= depth <= MAX_DEPTH,
    ensures
        -EVAL_WINDOW < move_score(p, m, depth) < EVAL_WINDOW,
{
    lemma_node_value_bound(moved(p, m), (depth - 1) as nat, false);
    lemma_node_value_bound(moved(p, m), (depth - 1) as nat, true);
}

/// The score of move `m` for the side to move, from a search of `depth`
/// plies that counts `m` as the first: the higher, the better for that side.
pub fn eval_move(b: &Board, m: Move, depth: i32) -> (r: i32)
    requires
        b.wf(),
        1 <= depth <= MAX_DEPTH,
    ensures
        r == move_score(b@, m, depth as int),
{
    proof {
        lemma_node_value_bound(moved(b@, m), (depth - 1) as nat, false);
        lemma_node_value_bound(moved(b@, m), (depth - 1) as nat, true);
    }
    match b.turn {
        Color::White => eval_move_min(b, m, depth - 1, -EVAL_WINDOW, EVAL_WINDOW),
        Color::Black => {
            let eval = eval_move_max(b, m, depth - 1, -EVAL_WINDOW, EVAL_WINDOW);
            -eval
        },
    }
}

} // verus!
