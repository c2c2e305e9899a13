//! Bitboards: sets of squares held in a 64-bit word, bit `i` standing for the
//! square with number `i`, and the operations that move such sets over the
//! board without wrapping round its edges.

use crate::eval::{
    lemma_lowest, lemma_material_bound, lemma_tables_bounded, material, sum_over_squares,
    BISHOP_EVAL, KING_ENDGAME_EVAL, KING_EVAL, KNIGHT_EVAL, PAWN_EVAL, QUEEN_EVAL, ROOK_EVAL,
};
use crate::types::{Color, Direction, GamePhase, KnightHop, PieceType, Square};
use vstd::prelude::*;

verus! {

/// A set of squares.
pub type Bitboard = u64;

/// The files on which en-passant capture is possible, bit `f` for file `f`.
pub type Bitrank = u8;

/// The squares of file A.
pub const FILE_A: Bitboard = 0x0101010101010101u64;

/// The squares of file B.
pub const FILE_B: Bitboard = 0x0202020202020202u64;

/// The squares of file C.
pub const FILE_C: Bitboard = 0x0404040404040404u64;

/// The squares of file D.
pub const FILE_D: Bitboard = 0x0808080808080808u64;

/// The squares of file E.
pub const FILE_E: Bitboard = 0x1010101010101010u64;

/// The squares of file F.
pub const FILE_F: Bitboard = 0x2020202020202020u64;

/// The squares of file G.
pub const FILE_G: Bitboard = 0x4040404040404040u64;

/// The squares of file H.
pub const FILE_H: Bitboard = 0x8080808080808080u64;

/// The eight files, from A to H.
pub const FILES: [Bitboard; 8] = [FILE_A, FILE_B, FILE_C, FILE_D, FILE_E, FILE_F, FILE_G, FILE_H];

/// The squares of rank 1.
pub const RANK_1: Bitboard = 0x00000000000000FFu64;

/// The squares of rank 2.
pub const RANK_2: Bitboard = 0x000000000000FF00u64;

/// The squares of rank 3.
pub const RANK_3: Bitboard = 0x0000000000FF0000u64;

/// The squares of rank 4.
pub const RANK_4: Bitboard = 0x00000000FF000000u64;

/// The squares of rank 5.
pub const RANK_5: Bitboard = 0x000000FF00000000u64;

/// The squares of rank 6.
pub const RANK_6: Bitboard = 0x0000FF0000000000u64;

/// The squares of rank 7.
pub const RANK_7: Bitboard = 0x00FF000000000000u64;

/// The squares of rank 8.
pub const RANK_8: Bitboard = 0xFF00000000000000u64;

/// The square A1.
pub const SQUARE_A1: Bitboard = 0x0000000000000001u64;

/// The square B1.
pub const SQUARE_B1: Bitboard = 0x0000000000000002u64;

/// The square C1.
pub const SQUARE_C1: Bitboard = 0x0000000000000004u64;

/// The square D1.
pub const SQUARE_D1: Bitboard = 0x0000000000000008u64;

/// The square E1.
pub const SQUARE_E1: Bitboard = 0x0000000000000010u64;

/// The square F1.
pub const SQUARE_F1: Bitboard = 0x0000000000000020u64;

/// The square G1.
pub const SQUARE_G1: Bitboard = 0x0000000000000040u64;

/// The square H1.
pub const SQUARE_H1: Bitboard = 0x0000000000000080u64;

/// The square A8.
pub const SQUARE_A8: Bitboard = 0x0100000000000000u64;

/// The square B8.
pub const SQUARE_B8: Bitboard = 0x0200000000000000u64;

/// The square C8.
pub const SQUARE_C8: Bitboard = 0x0400000000000000u64;

/// The square D8.
pub const SQUARE_D8: Bitboard = 0x0800000000000000u64;

/// The square E8.
pub const SQUARE_E8: Bitboard = 0x1000000000000000u64;

/// The square F8.
pub const SQUARE_F8: Bitboard = 0x2000000000000000u64;

/// The square G8.
pub const SQUARE_G8: Bitboard = 0x4000000000000000u64;

/// The square H8.
pub const SQUARE_H8: Bitboard = 0x8000000000000000u64;

/// Every square of the board.
pub const ALL_SQUARES: Bitboard = 0xFFFF_FFFF_FFFF_FFFFu64;

/// No file.
pub const EMPTY_BITRANK: Bitrank = 0u8;

/// The squares between king and rook that must be empty to castle short, as
/// the side to move sees them.
pub const SHORT_CASTLE_BITBOARD: Bitboard = 0x0000000000000060u64;

/// The squares between king and rook that must be empty to castle long, as
/// the side to move sees them.
pub const LONG_CASTLE_BITBOARD: Bitboard = 0x000000000000000Eu64;

/// The squares on which a king counts as castled: A1, B1, C1, G1 and H1.
pub const CASTLED_KING_BITBOARD: Bitboard = 0x00000000000000C7u64;

/// Whether bit `i` of `b` is set. Meant for `i < 64`.
pub open spec fn bit(b: u64, i: u64) -> bool {
    (b >> i) & 1 == 1
}

/// Whether the square with number `i` is in the set `b`.
pub open spec fn bit_at(b: u64, i: int) -> bool {
    0 <= i < 64 && bit(b, i as u64)
}

/// Whether file `f` is among the files `ep`.
pub open spec fn file_open(ep: Bitrank, f: int) -> bool {
    0 <= f < 8 && (ep >> (f as u8)) & 1 == 1
}

/// The set that holds the square with number `i` and nothing else.
pub open spec fn single(i: int) -> u64 {
    1u64 << (i as u64)
}

/// How the bits of `&`, `|`, `!` and of a single-square set read.
pub proof fn lemma_bit_ops(a: u64, b: u64, i: u64, j: u64)
    by (bit_vector)
    requires
        i < 64,
        j < 64,
    ensures
        bit(a & b, i) == (bit(a, i) && bit(b, i)),
        bit(a | b, i) == (bit(a, i) || bit(b, i)),
        bit(!a, i) == !bit(a, i),
        bit(1u64 << j, i) == (i == j),
        !bit(0u64, i),
        bit(0xFFFF_FFFF_FFFF_FFFFu64, i),
{
}

/// Two sets with the same squares are the same word.
pub proof fn lemma_bits_equal(a: u64, b: u64)
    requires
        forall|i: int| 0 <= i < 64 ==> bit_at(a, i) == bit_at(b, i),
    ensures
        a == b,
{
    if a != b {
        let x = a ^ b;
        vstd::std_specs::bits::axiom_u64_trailing_zeros(x);
        let t = vstd::std_specs::bits::u64_trailing_zeros(x) as u64;
        assert(a != b ==> (a ^ b) != 0) by (bit_vector);
        assert(t < 64);
        assert(((a ^ b) >> t) & 1 == 1 ==> (((a >> t) & 1 == 1) != ((b >> t) & 1 == 1)))
            by (bit_vector);
        assert(bit_at(a, t as int) == bit_at(b, t as int));
    }
}

/// A set is empty exactly if it holds no square.
pub proof fn lemma_empty_bits(a: u64)
    ensures
        a == 0 <==> (forall|i: int| 0 <= i < 64 ==> !bit_at(a, i)),
{
    if a == 0 {
        assert forall|i: int| 0 <= i < 64 implies !bit_at(a, i) by {
            lemma_bit_ops(0, 0, i as u64, 0);
        }
    }
    if forall|i: int| 0 <= i < 64 ==> !bit_at(a, i) {
        assert forall|i: int| 0 <= i < 64 implies bit_at(a, i) == bit_at(0u64, i) by {
            lemma_bit_ops(0, 0, i as u64, 0);
        }
        lemma_bits_equal(a, 0);
    }
}

/// The set that holds `square` and nothing else.
pub fn square_to_bitboard(square: Square) -> (r: Bitboard)
    ensures
        r == single(square.idx()),
        forall|i: int| 0 <= i < 64 ==> (bit_at(r, i) <==> i == square.idx()),
{
    let i: u32 = square.index();
    let r: u64 = 1u64 << i;
    proof {
        assert forall|k: int| 0 <= k < 64 implies (bit_at(r, k) <==> k == square.idx()) by {
            lemma_bit_ops(0, 0, k as u64, i as u64);
        }
    }
    r
}

/// The set that holds the square with number `i` and nothing else.
pub fn bitboard_from_index(i: u32) -> (r: Bitboard)
    requires
        i < 64,
    ensures
        r == single(i as int),
        forall|k: int| 0 <= k < 64 ==> (bit_at(r, k) <==> k == i),
{
    let r: u64 = 1u64 << i;
    proof {
        assert forall|k: int| 0 <= k < 64 implies (bit_at(r, k) <==> k == i) by {
            lemma_bit_ops(0, 0, k as u64, i as u64);
        }
    }
    r
}

/// The set mirrored top to bottom: rank 1 changes places with rank 8, rank 2
/// with rank 7 and so on; files stay.
pub open spec fn flipped(b: u64) -> u64 {
    ((b & 0x0000_0000_0000_00FF) << 56) | ((b & 0x0000_0000_0000_FF00) << 40) | ((b
        & 0x0000_0000_00FF_0000) << 24) | ((b & 0x0000_0000_FF00_0000) << 8) | ((b
        & 0x0000_00FF_0000_0000) >> 8) | ((b & 0x0000_FF00_0000_0000) >> 24) | ((b
        & 0x00FF_0000_0000_0000) >> 40) | ((b & 0xFF00_0000_0000_0000) >> 56)
}

/// The number of the square that mirrors the square with number `i`.
pub open spec fn mirror_index(i: int) -> int {
    (7 - i / 8) * 8 + i % 8
}

proof fn lemma_flipped_bit(b: u64, i: u64)
    by (bit_vector)
    requires
        i < 64,
    ensures
        bit(flipped(b), i) == bit(b, i ^ 56),
        (i ^ 56) < 64,
        (i ^ 56) == (7 - i / 8) * 8 + i % 8,
        flipped(flipped(b)) == b,
{
}

/// A square is in the mirrored set exactly if its mirror image is in the set.
pub proof fn lemma_flipped_square(b: u64, i: int)
    requires
        0 <= i < 64,
    ensures
        bit_at(flipped(b), i) == bit_at(b, mirror_index(i)),
        0 <= mirror_index(i) < 64,
{
    lemma_flipped_bit(b, i as u64);
}

/// Mirroring twice gives the set back.
pub proof fn lemma_flip_involution(x: u64)
    ensures
        flipped(flipped(x)) == x,
{
    lemma_flipped_bit(x, 0);
}

/// Mirrors the set top to bottom.
pub fn flip_bitboard(b: Bitboard) -> (r: Bitboard)
    ensures
        r == flipped(b),
        forall|i: int| 0 <= i < 64 ==> bit_at(r, i) == bit_at(b, mirror_index(i)),
        flipped(r) == b,
{
    let r: u64 = ((b & 0x0000_0000_0000_00FF) << 56) | ((b & 0x0000_0000_0000_FF00) << 40) | ((b
        & 0x0000_0000_00FF_0000) << 24) | ((b & 0x0000_0000_FF00_0000) << 8) | ((b
        & 0x0000_00FF_0000_0000) >> 8) | ((b & 0x0000_FF00_0000_0000) >> 24) | ((b
        & 0x00FF_0000_0000_0000) >> 40) | ((b & 0xFF00_0000_0000_0000) >> 56);
    proof {
        assert forall|i: int| 0 <= i < 64 implies bit_at(r, i) == bit_at(b, mirror_index(i)) by {
            lemma_flipped_square(b, i);
        }
        lemma_flip_involution(b);
    }
    r
}

/// The set as side `c` sees it.
pub open spec fn relative(b: u64, c: Color) -> u64 {
    match c {
        Color::White => b,
        Color::Black => flipped(b),
    }
}

/// The set as side `c` sees it: unchanged for White, mirrored for Black.
pub fn get_bitboard_rel(b: Bitboard, c: Color) -> (r: Bitboard)
    ensures
        r == relative(b, c),
{
    match c {
        Color::White => b,
        Color::Black => flip_bitboard(b),
    }
}

/// Eight copies of the low byte of `row`, one in each rank.
pub open spec fn every_rank(row: u64) -> u64 {
    let x = row & 0xFF;
    x | (x << 8) | (x << 16) | (x << 24) | (x << 32) | (x << 40) | (x << 48) | (x << 56)
}

/// The squares that can go `d` files east without leaving the board.
pub open spec fn east_room(d: u64) -> u64 {
    every_rank(0xFFu64 >> d)
}

/// The squares that can go `d` files west without leaving the board.
pub open spec fn west_room(d: u64) -> u64 {
    every_rank(0xFFu64 << d)
}

/// The squares that can go `d` ranks north without leaving the board.
pub open spec fn north_room(d: u64) -> u64 {
    0xFFFF_FFFF_FFFF_FFFFu64 >> ((8 * d) as u64)
}

/// The squares that can go `d` ranks south without leaving the board.
pub open spec fn south_room(d: u64) -> u64 {
    0xFFFF_FFFF_FFFF_FFFFu64 << ((8 * d) as u64)
}

/// The set `b` moved `d` steps to the north.
pub open spec fn slid_n(b: u64, d: u64) -> u64 {
    (b & north_room(d)) << ((8 * d) as u64)
}

/// The set `b` moved `d` steps to the south.
pub open spec fn slid_s(b: u64, d: u64) -> u64 {
    (b & south_room(d)) >> ((8 * d) as u64)
}

/// The set `b` moved `d` steps to the east.
pub open spec fn slid_e(b: u64, d: u64) -> u64 {
    (b & east_room(d)) << d
}

/// The set `b` moved `d` steps to the west.
pub open spec fn slid_w(b: u64, d: u64) -> u64 {
    (b & west_room(d)) >> d
}

/// The set `b` moved `d` steps to the north-west.
pub open spec fn slid_nw(b: u64, d: u64) -> u64 {
    (b & north_room(d) & west_room(d)) << ((7 * d) as u64)
}

/// The set `b` moved `d` steps to the north-east.
pub open spec fn slid_ne(b: u64, d: u64) -> u64 {
    (b & north_room(d) & east_room(d)) << ((9 * d) as u64)
}

/// The set `b` moved `d` steps to the south-west.
pub open spec fn slid_sw(b: u64, d: u64) -> u64 {
    (b & south_room(d) & west_room(d)) >> ((9 * d) as u64)
}

/// The set `b` moved `d` steps to the south-east.
pub open spec fn slid_se(b: u64, d: u64) -> u64 {
    (b & south_room(d) & east_room(d)) >> ((7 * d) as u64)
}

/// The set `b` moved `d` steps in direction `dir`, for `d >= 0`: the squares
/// that would leave the board are dropped first, then the word is shifted.
/// Eight steps and more leave nothing on the board.
pub open spec fn slid(b: u64, dir: Direction, d: int) -> u64 {
    if d >= 8 {
        0
    } else {
        match dir {
            Direction::N => slid_n(b, d as u64),
            Direction::S => slid_s(b, d as u64),
            Direction::E => slid_e(b, d as u64),
            Direction::W => slid_w(b, d as u64),
            Direction::NW => slid_nw(b, d as u64),
            Direction::NE => slid_ne(b, d as u64),
            Direction::SW => slid_sw(b, d as u64),
            Direction::SE => slid_se(b, d as u64),
        }
    }
}

proof fn lemma_slid_straight(b: u64, d: u64, k: u64)
    by (bit_vector)
    requires
        d < 8,
        k < 64,
    ensures
        k + 8 * d < 64 ==> bit(slid_n(b, d), (k + 8 * d) as u64) == bit(b, k),
        k < 8 * d ==> !bit(slid_n(b, d), k),
        k + 8 * d < 64 ==> bit(slid_s(b, d), k) == bit(b, (k + 8 * d) as u64),
        k + 8 * d >= 64 ==> !bit(slid_s(b, d), k),
        k % 8 + d < 8 ==> bit(slid_e(b, d), (k + d) as u64) == bit(b, k),
        k % 8 < d ==> !bit(slid_e(b, d), k),
        k % 8 + d < 8 ==> bit(slid_w(b, d), k) == bit(b, (k + d) as u64),
        k % 8 + d >= 8 ==> !bit(slid_w(b, d), k),
{
}

proof fn lemma_slid_diagonal(b: u64, d: u64, k: u64)
    by (bit_vector)
    requires
        d < 8,
        k < 64,
    ensures
        k % 8 + d < 8 && k / 8 + d < 8 ==> bit(slid_ne(b, d), (k + 9 * d) as u64) == bit(b, k),
        k % 8 < d || k / 8 < d ==> !bit(slid_ne(b, d), k),
        k % 8 >= d && k / 8 + d < 8 ==> bit(slid_nw(b, d), (k + 7 * d) as u64) == bit(b, k),
        k % 8 + d >= 8 || k / 8 < d ==> !bit(slid_nw(b, d), k),
        k % 8 >= d && k / 8 + d < 8 ==> bit(slid_se(b, d), k) == bit(b, (k + 7 * d) as u64),
        k % 8 < d || k / 8 + d >= 8 ==> !bit(slid_se(b, d), k),
        k % 8 + d < 8 && k / 8 + d < 8 ==> bit(slid_sw(b, d), k) == bit(b, (k + 9 * d) as u64),
        k % 8 + d >= 8 || k / 8 + d >= 8 ==> !bit(slid_sw(b, d), k),
{
}

/// Whether the square with number `t` is reached from a square of `b` by the
/// step `(dx, dy)`: its source lies on the board and is in `b`.
pub open spec fn reached(b: u64, dx: int, dy: int, t: int) -> bool {
    let f = t % 8 - dx;
    let r = t / 8 - dy;
    0 <= f < 8 && 0 <= r < 8 && bit_at(b, r * 8 + f)
}

/// A square is in the moved set exactly if the square `d` steps back from it
/// is on the board and in the set.
pub proof fn lemma_slid_square(b: u64, dir: Direction, d: int, t: int)
    requires
        0 <= d,
        0 <= t < 64,
    ensures
        bit_at(slid(b, dir, d), t) <==> reached(b, dir.dx() * d, dir.dy() * d, t),
{
    if d >= 8 {
        lemma_slid_far(b, dir, d, t);
    } else {
        lemma_slid_near(b, dir, d, t);
    }
}

proof fn lemma_slid_far(b: u64, dir: Direction, d: int, t: int)
    requires
        8 <= d,
        0 <= t < 64,
    ensures
        bit_at(slid(b, dir, d), t) <==> reached(b, dir.dx() * d, dir.dy() * d, t),
{
    let sx = dir.dx();
    let sy = dir.dy();
    let x = sx * d;
    let y = sy * d;
    lemma_bit_ops(0, 0, t as u64, 0);
    assert(sx == 0 || x >= 8 || x <= -8) by (nonlinear_arith)
        requires
            -1 <= sx <= 1,
            d >= 8,
            x == sx * d,
    ;
    assert(sy == 0 || y >= 8 || y <= -8) by (nonlinear_arith)
        requires
            -1 <= sy <= 1,
            d >= 8,
            y == sy * d,
    ;
    assert(sx != 0 || sy != 0);
}

proof fn lemma_slid_near(b: u64, dir: Direction, d: int, t: int)
    requires
        0 <= d < 8,
        0 <= t < 64,
    ensures
        bit_at(slid(b, dir, d), t) <==> reached(b, dir.dx() * d, dir.dy() * d, t),
{
    let f = t % 8 - dir.dx() * d;
    let r = t / 8 - dir.dy() * d;
    let du = d as u64;
    if 0 <= f < 8 && 0 <= r < 8 {
        let k = r * 8 + f;
        match dir {
            Direction::N | Direction::E => {
                lemma_slid_straight(b, du, k as u64);
            },
            Direction::S | Direction::W => {
                lemma_slid_straight(b, du, t as u64);
            },
            Direction::NE | Direction::NW => {
                lemma_slid_diagonal(b, du, k as u64);
            },
            Direction::SE | Direction::SW => {
                lemma_slid_diagonal(b, du, t as u64);
            },
        }
    } else {
        lemma_slid_straight(b, du, t as u64);
        lemma_slid_diagonal(b, du, t as u64);
    }
}

fn copy_to_every_rank(row: u64) -> (r: u64)
    ensures
        r == every_rank(row),
{
    let x: u64 = row & 0xFF;
    x | (x << 8) | (x << 16) | (x << 24) | (x << 32) | (x << 40) | (x << 48) | (x << 56)
}

/// Moves every square of `b` by `dist` steps in direction `dir`; squares that
/// would cross an edge of the board are dropped, so that eight steps and more
/// leave nothing.
pub fn slide(b: Bitboard, dir: Direction, dist: i32) -> (r: Bitboard)
    requires
        0 <= dist,
    ensures
        r == slid(b, dir, dist as int),
        forall|t: int|
            0 <= t < 64 ==> (bit_at(r, t) <==> reached(
                b,
                dir.dx() * dist,
                dir.dy() * dist,
                t,
            )),
{
    if dist >= 8 {
        proof {
            assert forall|t: int| 0 <= t < 64 implies (bit_at(0u64, t) <==> reached(
                b,
                dir.dx() * dist,
                dir.dy() * dist,
                t,
            )) by {
                lemma_slid_square(b, dir, dist as int, t);
            }
        }
        return 0;
    }
    let d: u64 = dist as u64;
    let north: u64 = ALL_SQUARES >> (8 * d);
    let south: u64 = ALL_SQUARES << (8 * d);
    let r: u64 = match dir {
        Direction::N => (b & north) << (8 * d),
        Direction::S => (b & south) >> (8 * d),
        Direction::E => (b & copy_to_every_rank(0xFFu64 >> d)) << d,
        Direction::W => (b & copy_to_every_rank(0xFFu64 << d)) >> d,
        Direction::NW => (b & north & copy_to_every_rank(0xFFu64 << d)) << (7 * d),
        Direction::NE => (b & north & copy_to_every_rank(0xFFu64 >> d)) << (9 * d),
        Direction::SW => (b & south & copy_to_every_rank(0xFFu64 << d)) >> (9 * d),
        Direction::SE => (b & south & copy_to_every_rank(0xFFu64 >> d)) >> (7 * d),
    };
    proof {
        assert forall|t: int| 0 <= t < 64 implies (bit_at(r, t) <==> reached(
            b,
            dir.dx() * dist,
            dir.dy() * dist,
            t,
        )) by {
            lemma_slid_square(b, dir, dist as int, t);
        }
    }
    r
}

/// Moving a set by some steps and then by more is moving it by all the steps
/// at once.
pub proof fn lemma_slid_in_steps(b: u64, dir: Direction, first: int, more: int)
    requires
        0 <= first,
        0 <= more,
    ensures
        slid(slid(b, dir, first), dir, more) == slid(b, dir, first + more),
{
    let sx = dir.dx();
    let sy = dir.dy();
    let a = sx * first;
    let c = sx * more;
    let e = sy * first;
    let g = sy * more;
    assert(sx * (first + more) == a + c && sy * (first + more) == e + g) by (nonlinear_arith)
        requires
            a == sx * first,
            c == sx * more,
            e == sy * first,
            g == sy * more,
    ;
    assert((sx >= 0 ==> a >= 0 && c >= 0) && (sx <= 0 ==> a <= 0 && c <= 0) && (sy >= 0 ==> e >= 0
        && g >= 0) && (sy <= 0 ==> e <= 0 && g <= 0)) by (nonlinear_arith)
        requires
            a == sx * first,
            c == sx * more,
            e == sy * first,
            g == sy * more,
            first >= 0,
            more >= 0,
    ;
    let one = slid(b, dir, first);
    assert forall|t: int| 0 <= t < 64 implies bit_at(slid(one, dir, more), t) == bit_at(
        slid(b, dir, first + more),
        t,
    ) by {
        lemma_slid_square(one, dir, more, t);
        lemma_slid_square(b, dir, first + more, t);
        let f = t % 8 - c;
        let r = t / 8 - g;
        if 0 <= f < 8 && 0 <= r < 8 {
            let s = r * 8 + f;
            assert(s % 8 == f && s / 8 == r);
            lemma_slid_square(b, dir, first, s);
        }
    }
    lemma_bits_equal(slid(one, dir, more), slid(b, dir, first + more));
}

/// Moves every square of `b` by one step in direction `dir`.
pub fn slide1(b: Bitboard, dir: Direction) -> (r: Bitboard)
    ensures
        r == slid(b, dir, 1),
        forall|t: int| 0 <= t < 64 ==> (bit_at(r, t) <==> reached(b, dir.dx(), dir.dy(), t)),
{
    slide(b, dir, 1)
}

/// The set `b` moved by the knight's jump of two ranks north and one file west.
pub open spec fn hopped_nnw(b: u64) -> u64 {
    (b & !(FILE_A | RANK_7 | RANK_8)) << 15
}

/// The set `b` moved by the knight's jump of two ranks north and one file east.
pub open spec fn hopped_nne(b: u64) -> u64 {
    (b & !(FILE_H | RANK_7 | RANK_8)) << 17
}

/// The set `b` moved by the knight's jump of one rank north and two files west.
pub open spec fn hopped_nww(b: u64) -> u64 {
    (b & !(FILE_A | FILE_B | RANK_8)) << 6
}

/// The set `b` moved by the knight's jump of one rank north and two files east.
pub open spec fn hopped_nee(b: u64) -> u64 {
    (b & !(FILE_G | FILE_H | RANK_8)) << 10
}

/// The set `b` moved by the knight's jump of two ranks south and one file west.
pub open spec fn hopped_ssw(b: u64) -> u64 {
    (b & !(FILE_A | RANK_1 | RANK_2)) >> 17
}

/// The set `b` moved by the knight's jump of two ranks south and one file east.
pub open spec fn hopped_sse(b: u64) -> u64 {
    (b & !(FILE_H | RANK_1 | RANK_2)) >> 15
}

/// The set `b` moved by the knight's jump of one rank south and two files west.
pub open spec fn hopped_sww(b: u64) -> u64 {
    (b & !(FILE_A | FILE_B | RANK_1)) >> 10
}

/// The set `b` moved by the knight's jump of one rank south and two files east.
pub open spec fn hopped_see(b: u64) -> u64 {
    (b & !(FILE_G | FILE_H | RANK_1)) >> 6
}

/// The set `b` moved by the knight jump `kh`: the squares that would leave
/// the board are dropped first, then the word is shifted.
pub open spec fn hopped(b: u64, kh: KnightHop) -> u64 {
    match kh {
        KnightHop::NNW => hopped_nnw(b),
        KnightHop::NNE => hopped_nne(b),
        KnightHop::NWW => hopped_nww(b),
        KnightHop::NEE => hopped_nee(b),
        KnightHop::SSW => hopped_ssw(b),
        KnightHop::SSE => hopped_sse(b),
        KnightHop::SWW => hopped_sww(b),
        KnightHop::SEE => hopped_see(b),
    }
}

proof fn lemma_hopped_north(b: u64, k: u64)
    by (bit_vector)
    requires
        k < 64,
    ensures
        k % 8 >= 1 && k / 8 < 6 ==> bit(hopped_nnw(b), (k + 15) as u64) == bit(b, k),
        k % 8 >= 7 || k / 8 < 2 ==> !bit(hopped_nnw(b), k),
        k % 8 < 7 && k / 8 < 6 ==> bit(hopped_nne(b), (k + 17) as u64) == bit(b, k),
        k % 8 < 1 || k / 8 < 2 ==> !bit(hopped_nne(b), k),
        k % 8 >= 2 && k / 8 < 7 ==> bit(hopped_nww(b), (k + 6) as u64) == bit(b, k),
        k % 8 >= 6 || k / 8 < 1 ==> !bit(hopped_nww(b), k),
        k % 8 < 6 && k / 8 < 7 ==> bit(hopped_nee(b), (k + 10) as u64) == bit(b, k),
        k % 8 < 2 || k / 8 < 1 ==> !bit(hopped_nee(b), k),
{
}

proof fn lemma_hopped_south(b: u64, k: u64)
    by (bit_vector)
    requires
        k < 64,
    ensures
        k % 8 < 7 && k / 8 < 6 ==> bit(hopped_ssw(b), k) == bit(b, (k + 17) as u64),
        k % 8 >= 7 || k / 8 >= 6 ==> !bit(hopped_ssw(b), k),
        k % 8 >= 1 && k / 8 < 6 ==> bit(hopped_sse(b), k) == bit(b, (k + 15) as u64),
        k % 8 < 1 || k / 8 >= 6 ==> !bit(hopped_sse(b), k),
        k % 8 < 6 && k / 8 < 7 ==> bit(hopped_sww(b), k) == bit(b, (k + 10) as u64),
        k % 8 >= 6 || k / 8 >= 7 ==> !bit(hopped_sww(b), k),
        k % 8 >= 2 && k / 8 < 7 ==> bit(hopped_see(b), k) == bit(b, (k + 6) as u64),
        k % 8 < 2 || k / 8 >= 7 ==> !bit(hopped_see(b), k),
{
}

/// A square is in the jumped set exactly if the square from which the jump
/// leads to it is on the board and in the set.
pub proof fn lemma_hopped_square(b: u64, kh: KnightHop, t: int)
    requires
        0 <= t < 64,
    ensures
        bit_at(hopped(b, kh), t) <==> reached(b, kh.dx(), kh.dy(), t),
{
    let f = t % 8 - kh.dx();
    let r = t / 8 - kh.dy();
    if 0 <= f < 8 && 0 <= r < 8 {
        let k = r * 8 + f;
        lemma_hopped_north(b, k as u64);
        lemma_hopped_south(b, t as u64);
    } else {
        lemma_hopped_north(b, t as u64);
        lemma_hopped_south(b, t as u64);
    }
}

/// Moves every square of `b` by the knight jump `kh`; squares that would
/// leave the board are dropped.
pub fn knight_hop(b: Bitboard, kh: KnightHop) -> (r: Bitboard)
    ensures
        r == hopped(b, kh),
        forall|t: int| 0 <= t < 64 ==> (bit_at(r, t) <==> reached(b, kh.dx(), kh.dy(), t)),
{
    let r: u64 = match kh {
        KnightHop::NNW => (b & !(FILE_A | RANK_7 | RANK_8)) << 15,
        KnightHop::NNE => (b & !(FILE_H | RANK_7 | RANK_8)) << 17,
        KnightHop::NWW => (b & !(FILE_A | FILE_B | RANK_8)) << 6,
        KnightHop::NEE => (b & !(FILE_G | FILE_H | RANK_8)) << 10,
        KnightHop::SSW => (b & !(FILE_A | RANK_1 | RANK_2)) >> 17,
        KnightHop::SSE => (b & !(FILE_H | RANK_1 | RANK_2)) >> 15,
        KnightHop::SWW => (b & !(FILE_A | FILE_B | RANK_1)) >> 10,
        KnightHop::SEE => (b & !(FILE_G | FILE_H | RANK_1)) >> 6,
    };
    proof {
        assert forall|t: int| 0 <= t < 64 implies (bit_at(r, t) <==> reached(
            b,
            kh.dx(),
            kh.dy(),
            t,
        )) by {
            lemma_hopped_square(b, kh, t);
        }
    }
    r
}

/// The pieces of one side: one set of squares for each kind of piece.
#[derive(Debug, PartialEq, Eq, Copy, Clone, Structural)]
pub struct Pieces {
    pub king: Bitboard,
    pub queens: Bitboard,
    pub rooks: Bitboard,
    pub bishops: Bitboard,
    pub knights: Bitboard,
    pub pawns: Bitboard,
}

impl Pieces {
    /// All squares on which the side has a piece.
    pub open spec fn occupied(self) -> u64 {
        self.king | self.queens | self.rooks | self.bishops | self.knights | self.pawns
    }

    /// How many of the six sets hold the square with number `i`.
    pub open spec fn count_at(self, i: int) -> int {
        (if bit_at(self.king, i) { 1int } else { 0 }) + (if bit_at(self.queens, i) { 1int } else { 0 })
            + (if bit_at(self.rooks, i) { 1int } else { 0 }) + (if bit_at(self.bishops, i) { 1int } else { 0 })
            + (if bit_at(self.knights, i) { 1int } else { 0 }) + (if bit_at(self.pawns, i) { 1int } else { 0 })
    }

    /// No square holds two pieces of the side.
    pub open spec fn disjoint(self) -> bool {
        forall|i: int| 0 <= i < 64 ==> #[trigger] self.count_at(i) <= 1
    }

    /// The side has exactly one king.
    pub open spec fn one_king(self) -> bool {
        exists|i: int| 0 <= i < 64 && self.king == #[trigger] single(i)
    }

    /// The pieces mirrored top to bottom.
    pub open spec fn flipped(self) -> Pieces {
        Pieces {
            king: flipped(self.king),
            queens: flipped(self.queens),
            rooks: flipped(self.rooks),
            bishops: flipped(self.bishops),
            knights: flipped(self.knights),
            pawns: flipped(self.pawns),
        }
    }

    /// The pieces as side `c` sees them.
    pub open spec fn relative(self, c: Color) -> Pieces {
        match c {
            Color::White => self,
            Color::Black => self.flipped(),
        }
    }

    /// The kind of the piece that the side has on a square of `at`; where
    /// several kinds have one, the first of king, queen, rook, bishop, knight
    /// and pawn; `Null` where none has.
    pub open spec fn kind_at(self, at: u64) -> PieceType {
        if self.king & at != 0 {
            PieceType::King
        } else if self.queens & at != 0 {
            PieceType::Queen
        } else if self.rooks & at != 0 {
            PieceType::Rook
        } else if self.bishops & at != 0 {
            PieceType::Bishop
        } else if self.knights & at != 0 {
            PieceType::Knight
        } else if self.pawns & at != 0 {
            PieceType::Pawn
        } else {
            PieceType::Null
        }
    }

    /// The set of the pieces of kind `t`; empty for `Null`.
    pub open spec fn of_kind(self, t: PieceType) -> u64 {
        match t {
            PieceType::King => self.king,
            PieceType::Queen => self.queens,
            PieceType::Rook => self.rooks,
            PieceType::Bishop => self.bishops,
            PieceType::Knight => self.knights,
            PieceType::Pawn => self.pawns,
            PieceType::Null => 0,
        }
    }

    /// The pieces with every square of `mask` emptied.
    pub open spec fn without(self, mask: u64) -> Pieces {
        Pieces {
            king: self.king & !mask,
            queens: self.queens & !mask,
            rooks: self.rooks & !mask,
            bishops: self.bishops & !mask,
            knights: self.knights & !mask,
            pawns: self.pawns & !mask,
        }
    }

    /// The pieces with the squares of `at` added to kind `t`; unchanged for
    /// `Null`.
    pub open spec fn with(self, t: PieceType, at: u64) -> Pieces {
        match t {
            PieceType::King => Pieces { king: self.king | at, ..self },
            PieceType::Queen => Pieces { queens: self.queens | at, ..self },
            PieceType::Rook => Pieces { rooks: self.rooks | at, ..self },
            PieceType::Bishop => Pieces { bishops: self.bishops | at, ..self },
            PieceType::Knight => Pieces { knights: self.knights | at, ..self },
            PieceType::Pawn => Pieces { pawns: self.pawns | at, ..self },
            PieceType::Null => self,
        }
    }

    /// Executable form of [`Pieces::kind_at`].
    pub fn piece_type_at(&self, at: Bitboard) -> (r: PieceType)
        ensures
            r == self.kind_at(at),
    {
        if self.king & at != 0 {
            PieceType::King
        } else if self.queens & at != 0 {
            PieceType::Queen
        } else if self.rooks & at != 0 {
            PieceType::Rook
        } else if self.bishops & at != 0 {
            PieceType::Bishop
        } else if self.knights & at != 0 {
            PieceType::Knight
        } else if self.pawns & at != 0 {
            PieceType::Pawn
        } else {
            PieceType::Null
        }
    }

    /// Executable form of [`Pieces::without`].
    pub fn cleared(&self, mask: Bitboard) -> (r: Pieces)
        ensures
            r == self.without(mask),
    {
        Pieces {
            king: self.king & !mask,
            queens: self.queens & !mask,
            rooks: self.rooks & !mask,
            bishops: self.bishops & !mask,
            knights: self.knights & !mask,
            pawns: self.pawns & !mask,
        }
    }

    /// Executable form of [`Pieces::with`].
    pub fn placed(&self, t: PieceType, at: Bitboard) -> (r: Pieces)
        ensures
            r == self.with(t, at),
    {
        let mut r = *self;
        match t {
            PieceType::King => {
                r.king = r.king | at;
            },
            PieceType::Queen => {
                r.queens = r.queens | at;
            },
            PieceType::Rook => {
                r.rooks = r.rooks | at;
            },
            PieceType::Bishop => {
                r.bishops = r.bishops | at;
            },
            PieceType::Knight => {
                r.knights = r.knights | at;
            },
            PieceType::Pawn => {
                r.pawns = r.pawns | at;
            },
            PieceType::Null => {},
        }
        r
    }

    /// The union of all six sets.
    pub fn all(&self) -> (r: Bitboard)
        ensures
            r == self.occupied(),
    {
        self.king | self.queens | self.rooks | self.bishops | self.knights | self.pawns
    }
}

proof fn lemma_meets_single(x: u64, s: u64)
    by (bit_vector)
    requires
        s < 64,
    ensures
        (x & (1u64 << s) != 0) == bit(x, s),
{
}

/// A set meets a single-square set exactly if it holds that square.
pub proof fn lemma_meets_square(x: u64, s: int)
    requires
        0 <= s < 64,
    ensures
        (x & single(s) != 0) == bit_at(x, s),
{
    lemma_meets_single(x, s as u64);
}

/// How the squares of a union of five sets read.
pub proof fn lemma_union_bits(a: u64, b: u64, c: u64, d: u64, e: u64, i: int)
    requires
        0 <= i < 64,
    ensures
        bit_at(a | b | c | d | e, i) == (bit_at(a, i) || bit_at(b, i) || bit_at(c, i) || bit_at(d, i)
            || bit_at(e, i)),
{
    let k = i as u64;
    lemma_bit_ops(a, b, k, 0);
    lemma_bit_ops(a | b, c, k, 0);
    lemma_bit_ops(a | b | c, d, k, 0);
    lemma_bit_ops(a | b | c | d, e, k, 0);
}

impl Pieces {
    /// A square is occupied exactly if one of the six sets holds it, and the
    /// kind found on a single square is the first kind whose set holds it.
    pub proof fn lemma_square(self, i: int)
        requires
            0 <= i < 64,
        ensures
            bit_at(self.occupied(), i) == (self.count_at(i) > 0),
            self.kind_at(single(i)) != PieceType::Null <==> self.count_at(i) > 0,
            self.kind_at(single(i)) != PieceType::Null ==> bit_at(
                self.of_kind(self.kind_at(single(i))),
                i,
            ),
            self.count_at(i) <= 1 ==> forall|t: PieceType|
                t != PieceType::Null ==> (bit_at(#[trigger] self.of_kind(t), i) <==> self.kind_at(
                    single(i),
                ) == t),
    {
        lemma_union_bits(self.king, self.queens, self.rooks, self.bishops, self.knights, i);
        lemma_bit_ops(
            self.king | self.queens | self.rooks | self.bishops | self.knights,
            self.pawns,
            i as u64,
            0,
        );
        lemma_meets_square(self.king, i);
        lemma_meets_square(self.queens, i);
        lemma_meets_square(self.rooks, i);
        lemma_meets_square(self.bishops, i);
        lemma_meets_square(self.knights, i);
        lemma_meets_square(self.pawns, i);
    }

    /// The squares of the six sets after `without`.
    pub proof fn lemma_without_square(self, mask: u64, i: int)
        requires
            0 <= i < 64,
        ensures
            forall|t: PieceType|
                t != PieceType::Null ==> bit_at(#[trigger] self.without(mask).of_kind(t), i) == (
                bit_at(self.of_kind(t), i) && !bit_at(mask, i)),
            self.without(mask).count_at(i) == (if bit_at(mask, i) {
                0
            } else {
                self.count_at(i)
            }),
    {
        let k = i as u64;
        lemma_bit_ops(mask, 0, k, 0);
        lemma_bit_ops(self.king, !mask, k, 0);
        lemma_bit_ops(self.queens, !mask, k, 0);
        lemma_bit_ops(self.rooks, !mask, k, 0);
        lemma_bit_ops(self.bishops, !mask, k, 0);
        lemma_bit_ops(self.knights, !mask, k, 0);
        lemma_bit_ops(self.pawns, !mask, k, 0);
    }

    /// The squares of the six sets after `with`.
    pub proof fn lemma_with_square(self, kind: PieceType, at: u64, i: int)
        requires
            0 <= i < 64,
        ensures
            forall|t: PieceType|
                t != PieceType::Null ==> bit_at(#[trigger] self.with(kind, at).of_kind(t), i) == (
                bit_at(self.of_kind(t), i) || (t == kind && bit_at(at, i))),
    {
        let k = i as u64;
        lemma_bit_ops(self.king, at, k, 0);
        lemma_bit_ops(self.queens, at, k, 0);
        lemma_bit_ops(self.rooks, at, k, 0);
        lemma_bit_ops(self.bishops, at, k, 0);
        lemma_bit_ops(self.knights, at, k, 0);
        lemma_bit_ops(self.pawns, at, k, 0);
    }
}

/// Mirrors each of the six sets top to bottom.
pub fn flip_bitboard_pieces(p: Pieces) -> (r: Pieces)
    ensures
        r == p.flipped(),
        r.flipped() == p,
{
    proof {
        lemma_flip_involution(p.king);
        lemma_flip_involution(p.queens);
        lemma_flip_involution(p.rooks);
        lemma_flip_involution(p.bishops);
        lemma_flip_involution(p.knights);
        lemma_flip_involution(p.pawns);
    }
    Pieces {
        king: flip_bitboard(p.king),
        queens: flip_bitboard(p.queens),
        rooks: flip_bitboard(p.rooks),
        bishops: flip_bitboard(p.bishops),
        knights: flip_bitboard(p.knights),
        pawns: flip_bitboard(p.pawns),
    }
}

/// The pieces as side `c` sees them: unchanged for White, mirrored for Black.
pub fn get_bitboard_pieces_rel(p: Pieces, c: Color) -> (r: Pieces)
    ensures
        r == p.relative(c),
{
    match c {
        Color::White => p,
        Color::Black => flip_bitboard_pieces(p),
    }
}

/// The number of the lowest square of a set that is not empty.
pub fn lowest_square(b: Bitboard) -> (i: u32)
    requires
        b != 0,
    ensures
        i < 64,
        bit_at(b, i as int),
        forall|j: int| 0 <= j < i ==> !bit_at(b, j),
{
    let i: u32 = b.trailing_zeros();
    proof {
        vstd::std_specs::bits::axiom_u64_trailing_zeros(b);
        assert forall|j: int| 0 <= j < i implies !bit_at(b, j) by {
            let ju = j as u64;
            assert((b >> ju) & 1u64 == 0u64);
        }
    }
    i
}

/// The set `b` without the square with number `i`.
pub fn without_square(b: Bitboard, i: u32) -> (r: Bitboard)
    requires
        i < 64,
    ensures
        r == b & !single(i as int),
        forall|j: int| 0 <= j < 64 ==> bit_at(r, j) == (bit_at(b, j) && j != i),
{
    let r: u64 = b & !(1u64 << i);
    proof {
        assert forall|j: int| 0 <= j < 64 implies bit_at(r, j) == (bit_at(b, j) && j != i) by {
            lemma_bit_ops(b, !(1u64 << i), j as u64, i as u64);
            lemma_bit_ops(1u64 << i, 0, j as u64, i as u64);
        }
    }
    r
}

/// The squares on which the pieces of `origin` stand after `d` steps in
/// direction `dir`, each step taken onto the board and onto a square of
/// `free`.
pub open spec fn ray_open(origin: u64, dir: Direction, free: u64, d: nat) -> u64
    decreases d,
{
    if d == 0 {
        origin
    } else {
        slid(ray_open(origin, dir, free, (d - 1) as nat), dir, 1) & free
    }
}

/// The squares that the pieces of `origin` enter with their `d`-th step in
/// direction `dir`, the steps before it taken over squares of `free`; for
/// `d >= 1`. The square entered need not be in `free`.
pub open spec fn ray_stepped(origin: u64, dir: Direction, free: u64, d: nat) -> u64 {
    slid(ray_open(origin, dir, free, (d - 1) as nat), dir, 1)
}

/// The squares of `free` that the pieces of `origin` reach in direction `dir`
/// with at most `n` steps over squares of `free`.
pub open spec fn ray_cover(origin: u64, dir: Direction, free: u64, n: nat) -> u64
    decreases n,
{
    if n == 0 {
        0
    } else {
        ray_cover(origin, dir, free, (n - 1) as nat) | ray_open(origin, dir, free, n)
    }
}

/// The empty set stays empty when it is moved.
pub proof fn lemma_slid_empty(dir: Direction, d: int)
    requires
        0 <= d < 8,
    ensures
        slid(0, dir, d) == 0,
{
    assert forall|t: int| 0 <= t < 64 implies !bit_at(slid(0, dir, d), t) by {
        lemma_slid_square(0, dir, d, t);
        let f = t % 8 - dir.dx() * d;
        let r = t / 8 - dir.dy() * d;
        if 0 <= f < 8 && 0 <= r < 8 {
            lemma_bit_ops(0, 0, (r * 8 + f) as u64, 0);
        }
    }
    lemma_empty_bits(slid(0, dir, d));
}

/// Once a ray has no square left, it has none later.
pub proof fn lemma_ray_stays_empty(origin: u64, dir: Direction, free: u64, d: nat, e: nat)
    requires
        d <= e,
        ray_open(origin, dir, free, d) == 0,
    ensures
        ray_open(origin, dir, free, e) == 0,
        e > d ==> ray_stepped(origin, dir, free, e) == 0,
    decreases e,
{
    if e > d {
        lemma_ray_stays_empty(origin, dir, free, d, (e - 1) as nat);
        lemma_slid_empty(dir, 1);
        assert(0u64 & free == 0) by (bit_vector);
    }
}

/// Two steps in a row make one step: if `t` is reached by `(a, b)` from the
/// square with number `s`, and `s` by `(c, e)` from a square of `origin`,
/// then `t` is reached by `(a + c, b + e)` from a square of `origin`.
pub proof fn lemma_reached_twice(origin: u64, a: int, b: int, c: int, e: int, t: int, s: int)
    requires
        0 <= t < 64,
        0 <= t % 8 - a < 8,
        0 <= t / 8 - b < 8,
        s == (t / 8 - b) * 8 + (t % 8 - a),
        reached(origin, c, e, s),
    ensures
        reached(origin, a + c, b + e, t),
{
    assert(s % 8 == t % 8 - a);
    assert(s / 8 == t / 8 - b);
}

/// A square entered with the `d`-th step of a ray lies `d` steps from a
/// square of the origin.
pub proof fn lemma_ray_square(origin: u64, dir: Direction, free: u64, d: nat, t: int)
    requires
        1 <= d <= 7,
        0 <= t < 64,
        bit_at(ray_stepped(origin, dir, free, d), t),
    ensures
        reached(origin, dir.dx() * d, dir.dy() * d, t),
    decreases d,
{
    let before = ray_open(origin, dir, free, (d - 1) as nat);
    let sx = dir.dx();
    let sy = dir.dy();
    lemma_slid_square(before, dir, 1, t);
    assert(sx * 1 == sx && sy * 1 == sy);
    assert(reached(before, sx, sy, t));
    let s = (t / 8 - sy) * 8 + (t % 8 - sx);
    if d > 1 {
        let stepped = ray_stepped(origin, dir, free, (d - 1) as nat);
        lemma_bit_ops(stepped, free, s as u64, 0);
        lemma_ray_square(origin, dir, free, (d - 1) as nat, s);
        let cx = sx * (d - 1);
        let cy = sy * (d - 1);
        assert(sx + cx == sx * d) by (nonlinear_arith)
            requires
                cx == sx * (d - 1),
        ;
        assert(sy + cy == sy * d) by (nonlinear_arith)
            requires
                cy == sy * (d - 1),
        ;
        lemma_reached_twice(origin, sx, sy, cx, cy, t, s);
    }
}

/// The number of the square `k` steps in direction `dir` from the square on
/// file `f` and rank `r`.
pub open spec fn square_along(f: int, r: int, dir: Direction, k: int) -> int {
    (r + dir.dy() * k) * 8 + (f + dir.dx() * k)
}

/// Whether the square `k` steps in direction `dir` from the square on file
/// `f` and rank `r` is on the board.
pub open spec fn along_on_board(f: int, r: int, dir: Direction, k: int) -> bool {
    0 <= f + dir.dx() * k < 8 && 0 <= r + dir.dy() * k < 8
}

/// Whether the squares that lie more than 0 and less than `d` steps in
/// direction `dir` from the square on file `f` and rank `r` are all in `free`.
pub open spec fn way_free(free: u64, f: int, r: int, dir: Direction, d: int) -> bool {
    forall|k: int| 0 < k < d ==> bit_at(free, #[trigger] square_along(f, r, dir, k))
}

/// The squares between two squares of the board that lie in one direction
/// from each other are on the board.
pub proof fn lemma_along_on_board(f: int, r: int, dir: Direction, d: int, k: int)
    requires
        0 <= f < 8,
        0 <= r < 8,
        0 <= k <= d,
        along_on_board(f, r, dir, d),
    ensures
        along_on_board(f, r, dir, k),
        0 <= square_along(f, r, dir, k) < 64,
        square_along(f, r, dir, k) % 8 == f + dir.dx() * k,
        square_along(f, r, dir, k) / 8 == r + dir.dy() * k,
{
    let sx = dir.dx();
    let sy = dir.dy();
    assert(-1 <= sx <= 1 && -1 <= sy <= 1);
    assert(sx == 1 ==> sx * k == k && sx * d == d) by (nonlinear_arith);
    assert(sx == -1 ==> sx * k == -k && sx * d == -d) by (nonlinear_arith);
    assert(sx == 0 ==> sx * k == 0 && sx * d == 0) by (nonlinear_arith);
    assert(sy == 1 ==> sy * k == k && sy * d == d) by (nonlinear_arith);
    assert(sy == -1 ==> sy * k == -k && sy * d == -d) by (nonlinear_arith);
    assert(sy == 0 ==> sy * k == 0 && sy * d == 0) by (nonlinear_arith);
}

/// A piece reaches the square `d` steps away along a ray if that square is on
/// the board and the squares before it are free.
pub proof fn lemma_ray_reaches(origin: u64, dir: Direction, free: u64, f: int, r: int, d: int)
    requires
        0 <= f < 8,
        0 <= r < 8,
        1 <= d <= 7,
        bit_at(origin, r * 8 + f),
        along_on_board(f, r, dir, d),
        way_free(free, f, r, dir, d),
    ensures
        bit_at(ray_stepped(origin, dir, free, d as nat), square_along(f, r, dir, d)),
    decreases d,
{
    let sx = dir.dx();
    let sy = dir.dy();
    let t = square_along(f, r, dir, d);
    let before_set = ray_open(origin, dir, free, (d - 1) as nat);
    lemma_along_on_board(f, r, dir, d, d);
    lemma_along_on_board(f, r, dir, d, d - 1);
    let s = square_along(f, r, dir, d - 1);
    assert(sx * d == sx * (d - 1) + sx) by (nonlinear_arith);
    assert(sy * d == sy * (d - 1) + sy) by (nonlinear_arith);
    assert(sx * 1 == sx && sy * 1 == sy);
    lemma_slid_square(before_set, dir, 1, t);
    assert(s == (t / 8 - sy) * 8 + (t % 8 - sx));
    if d == 1 {
        assert(sx * 0 == 0 && sy * 0 == 0);
        assert(s == r * 8 + f);
    } else {
        assert(way_free(free, f, r, dir, d - 1));
        lemma_ray_reaches(origin, dir, free, f, r, d - 1);
        assert(bit_at(free, square_along(f, r, dir, d - 1)));
        lemma_bit_ops(ray_stepped(origin, dir, free, (d - 1) as nat), free, s as u64, 0);
    }
}

/// A square entered with the `d`-th step of a ray lies `d` steps from a
/// square of the origin, and the squares between them are free.
pub proof fn lemma_ray_way(origin: u64, dir: Direction, free: u64, d: int, t: int) -> (from: (
    int,
    int,
))
    requires
        1 <= d <= 7,
        0 <= t < 64,
        bit_at(ray_stepped(origin, dir, free, d as nat), t),
    ensures
        0 <= from.0 < 8,
        0 <= from.1 < 8,
        from.0 == t % 8 - dir.dx() * d,
        from.1 == t / 8 - dir.dy() * d,
        bit_at(origin, from.1 * 8 + from.0),
        along_on_board(from.0, from.1, dir, d),
        square_along(from.0, from.1, dir, d) == t,
        way_free(free, from.0, from.1, dir, d),
    decreases d,
{
    let sx = dir.dx();
    let sy = dir.dy();
    lemma_ray_square(origin, dir, free, d as nat, t);
    let f = t % 8 - sx * d;
    let r = t / 8 - sy * d;
    let before_set = ray_open(origin, dir, free, (d - 1) as nat);
    lemma_slid_square(before_set, dir, 1, t);
    assert(sx * 1 == sx && sy * 1 == sy);
    let s = (t / 8 - sy) * 8 + (t % 8 - sx);
    assert(sx * d == sx * (d - 1) + sx) by (nonlinear_arith);
    assert(sy * d == sy * (d - 1) + sy) by (nonlinear_arith);
    if d == 1 {
        assert forall|k: int| 0 < k < d implies bit_at(
            free,
            #[trigger] square_along(f, r, dir, k),
        ) by {}
    } else {
        lemma_bit_ops(ray_stepped(origin, dir, free, (d - 1) as nat), free, s as u64, 0);
        let inner = lemma_ray_way(origin, dir, free, d - 1, s);
        assert(inner.0 == f && inner.1 == r);
        assert forall|k: int| 0 < k < d implies bit_at(
            free,
            #[trigger] square_along(f, r, dir, k),
        ) by {
            if k == d - 1 {
                assert(square_along(f, r, dir, k) == s);
            }
        }
    }
    (f, r)
}

/// The squares of `free` that the pieces of `origin` reach in direction `dir`
/// over squares of `free`.
pub fn ray_reach(origin: Bitboard, dir: Direction, free: Bitboard) -> (r: Bitboard)
    ensures
        r == ray_cover(origin, dir, free, 7),
{
    let mut front: Bitboard = origin;
    let mut cover: Bitboard = 0;
    let mut dist: u32 = 1;
    while dist < 8
        invariant
            1 <= dist <= 8,
            front == ray_open(origin, dir, free, (dist - 1) as nat),
            cover == ray_cover(origin, dir, free, (dist - 1) as nat),
        decreases 8 - dist,
    {
        front = slide1(front, dir) & free;
        cover = cover | front;
        dist = dist + 1;
    }
    cover
}

/// The value of the pieces of one side by kind and square, from the
/// piece-square tables of game phase `g`. `p` holds the pieces as their own
/// side sees the board. Of the king only the lowest square counts.
pub fn get_pieces_material_value(p: Pieces, g: GamePhase) -> (r: i32)
    ensures
        r == material(p, g),
{
    proof {
        lemma_tables_bounded();
        lemma_material_bound(p, g);
    }
    let mut eval: i32 = 0;
    if p.king != 0 {
        let idx: u32 = lowest_square(p.king);
        proof {
            lemma_lowest(p.king, 0, idx as int);
        }
        match g {
            GamePhase::Endgame => {
                eval = eval + KING_ENDGAME_EVAL[idx as usize];
            },
            GamePhase::Middlegame => {
                eval = eval + KING_EVAL[idx as usize];
            },
        }
    }
    eval = eval + sum_over_squares(p.queens, &QUEEN_EVAL);
    eval = eval + sum_over_squares(p.rooks, &ROOK_EVAL);
    eval = eval + sum_over_squares(p.bishops, &BISHOP_EVAL);
    eval = eval + sum_over_squares(p.knights, &KNIGHT_EVAL);
    eval = eval + sum_over_squares(p.pawns, &PAWN_EVAL);
    eval
}

} // verus!
