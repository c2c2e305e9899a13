//! The starting position and the two ways to get from one board to the next:
//! passing the move, and making a move.

use crate::bitboard::{
    bit_at, file_open, lemma_bit_ops, lemma_bits_equal, lemma_union_bits, single, square_to_bitboard,
    EMPTY_BITRANK, Bitboard, Bitrank, Pieces, RANK_2, RANK_7, SQUARE_A1, SQUARE_A8,
    SQUARE_B1, SQUARE_B8, SQUARE_C1, SQUARE_C8, SQUARE_D1, SQUARE_D8, SQUARE_E1, SQUARE_E8,
    SQUARE_F1, SQUARE_F8, SQUARE_G1, SQUARE_G8, SQUARE_H1, SQUARE_H8,
};
use crate::types::{Board, CastlingRights, Color, Move, PieceType, Position, Square};
use vstd::prelude::*;

verus! {

/// The pieces as they stand before the first move.
pub open spec fn initial_position() -> Position {
    Position {
        white: Pieces {
            king: SQUARE_E1,
            queens: SQUARE_D1,
            rooks: SQUARE_A1 | SQUARE_H1,
            bishops: SQUARE_C1 | SQUARE_F1,
            knights: SQUARE_B1 | SQUARE_G1,
            pawns: RANK_2,
        },
        black: Pieces {
            king: SQUARE_E8,
            queens: SQUARE_D8,
            rooks: SQUARE_A8 | SQUARE_H8,
            bishops: SQUARE_C8 | SQUARE_F8,
            knights: SQUARE_B8 | SQUARE_G8,
            pawns: RANK_7,
        },
        turn: Color::White,
        castling: CastlingRights {
            white_long: true,
            white_short: true,
            black_long: true,
            black_short: true,
        },
        en_passant: 0,
    }
}

/// The board before the first move: White to move, every castling right
/// held, no en-passant capture possible.
pub fn start_position() -> (b: Board)
    ensures
        b@ == initial_position(),
        b.wf(),
        b.all_ptr == 0,
        forall|i: int| 0 <= i < 16 ==> b.all_piece_history[i] == i,
{
    Board {
        white_bitboard_pieces: Pieces {
            king: SQUARE_E1,
            queens: SQUARE_D1,
            rooks: SQUARE_A1 | SQUARE_H1,
            bishops: SQUARE_C1 | SQUARE_F1,
            knights: SQUARE_B1 | SQUARE_G1,
            pawns: RANK_2,
        },
        black_bitboard_pieces: Pieces {
            king: SQUARE_E8,
            queens: SQUARE_D8,
            rooks: SQUARE_A8 | SQUARE_H8,
            bishops: SQUARE_C8 | SQUARE_F8,
            knights: SQUARE_B8 | SQUARE_G8,
            pawns: RANK_7,
        },
        turn: Color::White,
        castling_rights: CastlingRights {
            white_long: true,
            white_short: true,
            black_long: true,
            black_short: true,
        },
        enpassant_files: EMPTY_BITRANK,
        all_piece_history: [
            0u64,
            1u64,
            2u64,
            3u64,
            4u64,
            5u64,
            6u64,
            7u64,
            8u64,
            9u64,
            10u64,
            11u64,
            12u64,
            13u64,
            14u64,
            15u64,
        ],
        all_ptr: 0usize,
    }
}

/// The board with the other side to move and nothing else changed.
pub open spec fn passed(b: Board) -> Board {
    Board { turn: b.turn.other(), ..b }
}

/// Passes the move: the other side is to move, nothing else changes.
pub fn apply_null_move(b: &Board) -> (r: Board)
    ensures
        r == passed(*b),
        r@ == b@.passed(),
        b.wf() ==> r.wf(),
{
    let mut board = *b;
    board.turn = b.turn.opposite();
    board
}

/// Passing the move twice gives the board back.
pub proof fn lemma_null_move_involution(b: Board)
    ensures
        passed(passed(b)) == b,
{
}

/// The castling rights with the one that belongs to corner `sq` given up;
/// unchanged if `sq` is no corner.
pub open spec fn without_corner(r: CastlingRights, sq: Square) -> CastlingRights {
    match sq {
        Square::A1 => CastlingRights { white_long: false, ..r },
        Square::H1 => CastlingRights { white_short: false, ..r },
        Square::A8 => CastlingRights { black_long: false, ..r },
        Square::H8 => CastlingRights { black_short: false, ..r },
        _ => r,
    }
}

/// The castling rights with both rights of side `c` given up.
pub open spec fn without_side(r: CastlingRights, c: Color) -> CastlingRights {
    match c {
        Color::White => CastlingRights { white_long: false, white_short: false, ..r },
        Color::Black => CastlingRights { black_long: false, black_short: false, ..r },
    }
}

/// The kind of the piece that the side to move has on the square that `m`
/// leaves; `Null` if it has none there.
pub open spec fn moving_kind(p: Position, m: Move) -> PieceType {
    p.own().kind_at(single(m.from_square.idx()))
}

/// Whether `m` is a pawn's move onto the square behind a pawn that has just
/// advanced two squares: the file of the square entered is open to en-passant
/// capture and the square lies on the sixth rank as the side to move counts.
pub open spec fn takes_en_passant(p: Position, m: Move) -> bool {
    &&& moving_kind(p, m) == PieceType::Pawn
    &&& file_open(p.en_passant, m.to_square.file())
    &&& m.to_square.relative(p.turn).rank() == 5
}

/// The square of the pawn that an en-passant capture by `m` removes: the one
/// that the side to move sees directly below the square entered.
pub open spec fn en_passant_victim(p: Position, m: Move) -> int {
    match p.turn {
        Color::White => m.to_square.idx() - 8,
        Color::Black => m.to_square.idx() + 8,
    }
}

/// Whether `m` takes a pawn of the side to move from its second to its fourth
/// rank, as that side counts.
pub open spec fn is_double_push(p: Position, m: Move) -> bool {
    &&& moving_kind(p, m) == PieceType::Pawn
    &&& m.from_square.relative(p.turn).rank() == 1
    &&& m.to_square.relative(p.turn).rank() == 3
}

/// The rook's part of a castling move: the squares that the rook leaves and
/// enters when a king makes the move `m`, if `m` is one of the four castling
/// moves.
pub open spec fn castling_rook_path(m: Move) -> Option<(Square, Square)> {
    if m.from_square == Square::E1 && m.to_square == Square::G1 {
        Some((Square::H1, Square::F1))
    } else if m.from_square == Square::E1 && m.to_square == Square::C1 {
        Some((Square::A1, Square::D1))
    } else if m.from_square == Square::E8 && m.to_square == Square::G8 {
        Some((Square::H8, Square::F8))
    } else if m.from_square == Square::E8 && m.to_square == Square::C8 {
        Some((Square::A8, Square::D8))
    } else {
        None
    }
}

/// The piece that goes along when `m` is made, as (kind, square left, square
/// entered): when a king castles, whatever the side to move has on the rook's
/// corner goes to the square that the king crosses. `Null` with two empty
/// sets where nothing goes along.
pub open spec fn companion(p: Position, m: Move) -> (PieceType, u64, u64) {
    match castling_rook_path(m) {
        Some((from, to)) => {
            let kind = p.own().kind_at(single(from.idx()));
            if moving_kind(p, m) == PieceType::King && kind != PieceType::Null {
                (kind, single(from.idx()), single(to.idx()))
            } else {
                (PieceType::Null, 0, 0)
            }
        },
        None => (PieceType::Null, 0, 0),
    }
}

/// The squares that `m` empties before the moving pieces are set down: the
/// square left, the square entered, the square of a pawn taken en passant,
/// and both squares of a castling rook.
pub open spec fn vacated(p: Position, m: Move) -> u64 {
    let victim: u64 = if takes_en_passant(p, m) {
        single(en_passant_victim(p, m))
    } else {
        0
    };
    let c = companion(p, m);
    single(m.from_square.idx()) | single(m.to_square.idx()) | victim | c.1 | c.2
}

/// The kind of piece that stands on the square entered after `m`: the kind
/// that moved, or for a pawn the kind it is promoted to.
pub open spec fn landing_kind(p: Position, m: Move) -> PieceType {
    if moving_kind(p, m) == PieceType::Pawn && m.promote_type.is_promotion_target() {
        m.promote_type
    } else {
        moving_kind(p, m)
    }
}

/// The castling rights after `m`. A right is lost when the opponent's rook is
/// taken on its corner, when the king moves, and when a rook leaves its
/// corner.
pub open spec fn rights_after(p: Position, m: Move) -> CastlingRights {
    let after_capture = if p.opposing().rooks & single(m.to_square.idx()) != 0 {
        without_corner(p.castling, m.to_square)
    } else {
        p.castling
    };
    match moving_kind(p, m) {
        PieceType::King => without_side(after_capture, p.turn),
        PieceType::Rook => without_corner(after_capture, m.from_square),
        _ => after_capture,
    }
}

/// The files open to en-passant capture after `m`: the file of a pawn that
/// has just advanced two squares, and no other.
pub open spec fn en_passant_after(p: Position, m: Move) -> Bitrank {
    if is_double_push(p, m) {
        1u8 << (m.from_square.file() as u8)
    } else {
        0u8
    }
}

/// The position after the side to move has made the move `m`. Where that
/// side has no piece on the square that `m` leaves, the position is
/// unchanged.
#[verifier::opaque]
pub open spec fn moved(p: Position, m: Move) -> Position {
    if moving_kind(p, m) == PieceType::Null {
        p
    } else {
        let gone = vacated(p, m);
        let c = companion(p, m);
        let own = p.own().without(gone).with(landing_kind(p, m), single(m.to_square.idx())).with(
            c.0,
            c.2,
        );
        let opposing = p.opposing().without(gone);
        Position {
            white: if p.turn == Color::White {
                own
            } else {
                opposing
            },
            black: if p.turn == Color::White {
                opposing
            } else {
                own
            },
            turn: p.turn.other(),
            castling: rights_after(p, m),
            en_passant: en_passant_after(p, m),
        }
    }
}

/// A move never gives a castling right back.
pub proof fn lemma_moved_rights(p: Position, m: Move)
    ensures
        moved(p, m).castling.no_stronger_than(p.castling),
{
    reveal(moved);
}

/// After a move by a piece that is there, at most one file is open to
/// en-passant capture, and one is open only if a pawn has advanced two
/// squares: it is the file of that pawn.
pub proof fn lemma_moved_en_passant(p: Position, m: Move)
    requires
        moving_kind(p, m) != PieceType::Null,
    ensures
        moved(p, m).en_passant != 0 ==> is_double_push(p, m),
        moved(p, m).en_passant == 0 || moved(p, m).en_passant == 1u8 << (
        m.from_square.file() as u8),
        forall|f: int| #[trigger]
            file_open(moved(p, m).en_passant, f) ==> is_double_push(p, m) && f
                == m.from_square.file(),
{
    reveal(moved);
    let e = moved(p, m).en_passant;
    let k = m.from_square.file() as u8;
    Square::lemma_idx_at(m.from_square);
    assert forall|f: int| #[trigger] file_open(e, f) implies is_double_push(p, m) && f
        == m.from_square.file() by {
        let fu = f as u8;
        assert(k < 8 && fu < 8 && (e == 0 || e == 1u8 << k) && (e >> fu) & 1 == 1 ==> fu == k && e
            != 0) by (bit_vector);
    }
}

/// The pieces on one square after a move, in terms of the pieces before it.
/// On a vacated square stands what was set down there and nothing else; every
/// other square keeps what it held.
pub proof fn lemma_moved_square(p: Position, m: Move, i: int)
    requires
        0 <= i < 64,
        moving_kind(p, m) != PieceType::Null,
    ensures
        forall|t: PieceType|
            t != PieceType::Null ==> bit_at(
                #[trigger] moved(p, m).pieces(p.turn.other()).of_kind(t),
                i,
            ) == (bit_at(p.opposing().of_kind(t), i) && !bit_at(vacated(p, m), i)),
        forall|t: PieceType|
            t != PieceType::Null ==> bit_at(#[trigger] moved(p, m).pieces(p.turn).of_kind(t), i) == (
            (bit_at(p.own().of_kind(t), i) && !bit_at(vacated(p, m), i)) || (t == landing_kind(p, m)
                && i == m.to_square.idx()) || (t == companion(p, m).0 && bit_at(
                companion(p, m).2,
                i,
            ))),
        bit_at(vacated(p, m), i) <==> (i == m.from_square.idx() || i == m.to_square.idx() || (
        takes_en_passant(p, m) && i == en_passant_victim(p, m)) || bit_at(companion(p, m).1, i)
            || bit_at(companion(p, m).2, i)),
{
    reveal(moved);
    let gone = vacated(p, m);
    let c = companion(p, m);
    let to = single(m.to_square.idx());
    let victim: u64 = if takes_en_passant(p, m) {
        single(en_passant_victim(p, m))
    } else {
        0
    };
    let own0 = p.own().without(gone);
    let own1 = own0.with(landing_kind(p, m), to);
    Square::lemma_idx_at(m.from_square);
    Square::lemma_idx_at(m.to_square);
    p.own().lemma_without_square(gone, i);
    p.opposing().lemma_without_square(gone, i);
    own0.lemma_with_square(landing_kind(p, m), to, i);
    own1.lemma_with_square(c.0, c.2, i);
    lemma_union_bits(single(m.from_square.idx()), to, victim, c.1, c.2, i);
    lemma_bit_ops(0, 0, i as u64, m.from_square.idx() as u64);
    lemma_bit_ops(0, 0, i as u64, m.to_square.idx() as u64);
    if takes_en_passant(p, m) {
        Square::lemma_at_idx((7 - m.to_square.rank()) * 8 + m.to_square.file());
        lemma_bit_ops(0, 0, i as u64, en_passant_victim(p, m) as u64);
    }
}

/// The two squares of the piece that goes along with a castling king are
/// single squares, different from each other and from the king's squares.
pub proof fn lemma_companion_squares(p: Position, m: Move, i: int)
    requires
        0 <= i < 64,
    ensures
        companion(p, m).0 == PieceType::Null ==> !bit_at(companion(p, m).1, i) && !bit_at(
            companion(p, m).2,
            i,
        ),
        companion(p, m).0 != PieceType::Null ==> {
            &&& moving_kind(p, m) == PieceType::King
            &&& castling_rook_path(m) matches Some(path)
            &&& bit_at(companion(p, m).1, i) == (i == path.0.idx())
            &&& bit_at(companion(p, m).2, i) == (i == path.1.idx())
            &&& path.1.idx() != m.to_square.idx()
            &&& path.1.idx() != m.from_square.idx()
            &&& path.0.idx() != m.to_square.idx()
            &&& path.0.idx() != m.from_square.idx()
            &&& path.0.idx() != path.1.idx()
            &&& companion(p, m).0 == p.own().kind_at(single(path.0.idx()))
        },
{
    lemma_bit_ops(0, 0, i as u64, 0);
    match castling_rook_path(m) {
        Some((from, to)) => {
            Square::lemma_idx_at(from);
            Square::lemma_idx_at(to);
            lemma_bit_ops(0, 0, i as u64, from.idx() as u64);
            lemma_bit_ops(0, 0, i as u64, to.idx() as u64);
        },
        None => {},
    }
}

/// A move keeps the pieces apart: if no square holds two pieces before it,
/// none does after it.
pub proof fn lemma_moved_consistent(p: Position, m: Move)
    requires
        p.consistent(),
    ensures
        moved(p, m).consistent(),
{
    reveal(moved);
    let q = moved(p, m);
    if moving_kind(p, m) != PieceType::Null {
        assert forall|i: int| 0 <= i < 64 implies #[trigger] q.pieces_at(i) <= 1 by {
            assert(p.pieces_at(i) <= 1);
            lemma_moved_square(p, m, i);
            lemma_companion_squares(p, m, i);
            let own_after = q.pieces(p.turn);
            let opp_after = q.pieces(p.turn.other());
            assert(own_after.king == own_after.of_kind(PieceType::King));
            assert(own_after.queens == own_after.of_kind(PieceType::Queen));
            assert(own_after.rooks == own_after.of_kind(PieceType::Rook));
            assert(own_after.bishops == own_after.of_kind(PieceType::Bishop));
            assert(own_after.knights == own_after.of_kind(PieceType::Knight));
            assert(own_after.pawns == own_after.of_kind(PieceType::Pawn));
            assert(opp_after.king == opp_after.of_kind(PieceType::King));
            assert(opp_after.queens == opp_after.of_kind(PieceType::Queen));
            assert(opp_after.rooks == opp_after.of_kind(PieceType::Rook));
            assert(opp_after.bishops == opp_after.of_kind(PieceType::Bishop));
            assert(opp_after.knights == opp_after.of_kind(PieceType::Knight));
            assert(opp_after.pawns == opp_after.of_kind(PieceType::Pawn));
            assert(p.own().king == p.own().of_kind(PieceType::King));
            assert(p.opposing().king == p.opposing().of_kind(PieceType::King));
            if bit_at(vacated(p, m), i) {
                assert(opp_after.count_at(i) == 0);
                assert(own_after.count_at(i) <= 1);
            } else {
                assert(opp_after.count_at(i) == p.opposing().count_at(i));
                assert(own_after.count_at(i) == p.own().count_at(i));
            }
        }
    }
}

/// A move that touches no king but the one that moves leaves each side with
/// exactly one king: if each side has one king, and no vacated square other
/// than the square that a moving king leaves holds a king, each side has one
/// king after the move.
pub proof fn lemma_moved_kings(p: Position, m: Move)
    requires
        p.one_king_each(),
        forall|i: int|
            0 <= i < 64 && #[trigger] bit_at(vacated(p, m), i) && (bit_at(p.white.king, i)
                || bit_at(p.black.king, i)) ==> i == m.from_square.idx() && moving_kind(p, m)
                == PieceType::King,
        moving_kind(p, m) == PieceType::King ==> !bit_at(p.opposing().king, m.from_square.idx()),
    ensures
        moved(p, m).one_king_each(),
{
    reveal(moved);
    let q = moved(p, m);
    if moving_kind(p, m) != PieceType::Null {
        Square::lemma_idx_at(m.from_square);
        Square::lemma_idx_at(m.to_square);
        let own_after = q.pieces(p.turn);
        let opp_after = q.pieces(p.turn.other());
        let own_king = choose|i: int| 0 <= i < 64 && p.own().king == #[trigger] single(i);
        let opp_king = choose|i: int| 0 <= i < 64 && p.opposing().king == #[trigger] single(i);
        let f = m.from_square.idx();
        p.own().lemma_square(f);
        p.own().lemma_square(own_king);
        lemma_bit_ops(0, 0, f as u64, own_king as u64);
        lemma_bit_ops(0, 0, own_king as u64, own_king as u64);
        lemma_bit_ops(0, 0, opp_king as u64, opp_king as u64);
        assert(opp_after.king == opp_after.of_kind(PieceType::King));
        assert(own_after.king == own_after.of_kind(PieceType::King));
        assert(p.own().king == p.own().of_kind(PieceType::King));
        assert(p.opposing().king == p.opposing().of_kind(PieceType::King));
        assert(bit_at(p.opposing().king, opp_king));
        assert(bit_at(p.own().king, own_king));
        assert(p.turn == Color::White ==> p.own() == p.white && p.opposing() == p.black);
        assert(p.turn == Color::Black ==> p.own() == p.black && p.opposing() == p.white);
        assert forall|i: int| 0 <= i < 64 implies bit_at(opp_after.king, i) == bit_at(
            p.opposing().king,
            i,
        ) by {
            lemma_moved_square(p, m, i);
        }
        lemma_bits_equal(opp_after.king, p.opposing().king);
        let new_own_king = if moving_kind(p, m) == PieceType::King {
            m.to_square.idx()
        } else {
            own_king
        };
        assert forall|i: int| 0 <= i < 64 implies bit_at(own_after.king, i) == bit_at(
            single(new_own_king),
            i,
        ) by {
            lemma_moved_square(p, m, i);
            lemma_companion_squares(p, m, i);
            lemma_bit_ops(0, 0, i as u64, new_own_king as u64);
            lemma_bit_ops(0, 0, i as u64, own_king as u64);
            if companion(p, m).0 != PieceType::Null {
                let path = castling_rook_path(m).unwrap();
                Square::lemma_idx_at(path.0);
                p.own().lemma_square(path.0.idx());
                lemma_bit_ops(0, 0, path.0.idx() as u64, own_king as u64);
            }
        }
        lemma_bits_equal(own_after.king, single(new_own_king));
        assert(own_after.one_king());
        assert(opp_after.one_king());
    }
}

/// The kind of the piece that the side to move has on the square that `m`
/// leaves; `Null` if it has none there.
pub fn piece_to_move(b: &Board, m: Move) -> (r: PieceType)
    ensures
        r == moving_kind(b@, m),
{
    let from_bitboard = square_to_bitboard(m.from_square);
    match b.turn {
        Color::White => b.white_bitboard_pieces.piece_type_at(from_bitboard),
        Color::Black => b.black_bitboard_pieces.piece_type_at(from_bitboard),
    }
}

fn clear_corner_right(r: CastlingRights, sq: Square) -> (out: CastlingRights)
    ensures
        out == without_corner(r, sq),
{
    let mut out = r;
    match sq {
        Square::A1 => {
            out.white_long = false;
        },
        Square::H1 => {
            out.white_short = false;
        },
        Square::A8 => {
            out.black_long = false;
        },
        Square::H8 => {
            out.black_short = false;
        },
        _ => {},
    }
    out
}

fn rook_path(m: Move) -> (r: Option<(Square, Square)>)
    ensures
        r == castling_rook_path(m),
{
    match (m.from_square, m.to_square) {
        (Square::E1, Square::G1) => Some((Square::H1, Square::F1)),
        (Square::E1, Square::C1) => Some((Square::A1, Square::D1)),
        (Square::E8, Square::G8) => Some((Square::H8, Square::F8)),
        (Square::E8, Square::C8) => Some((Square::A8, Square::D8)),
        _ => None,
    }
}

/// Makes the move `m` for the side to move. `m` is taken to be a move that
/// the pieces allow; it is not checked. The square left and the square
/// entered are emptied for both sides, a pawn taken en passant is removed,
/// the piece (or what a pawn is promoted to) is set down, a castling king
/// takes its rook along, castling rights and the en-passant files are brought
/// up to date, the set of occupied squares is written to the ring, and the
/// other side is to move. Where the side to move has no piece on the square
/// left, the board comes back unchanged.
pub fn apply_move(b: &Board, m: Move) -> (r: Board)
    requires
        b.wf(),
    ensures
        r@ == moved(b@, m),
        r.wf(),
        moving_kind(b@, m) == PieceType::Null ==> r == *b,
        r@.castling.no_stronger_than(b@.castling),
        b@.consistent() ==> r@.consistent(),
        moving_kind(b@, m) != PieceType::Null ==> forall|f: int| #[trigger]
            file_open(r.enpassant_files, f) ==> is_double_push(b@, m) && f
                == m.from_square.file(),
        moving_kind(b@, m) != PieceType::Null ==> {
            &&& r.all_ptr == (b.all_ptr + 1) % 16
            &&& r.all_piece_history@ == b.all_piece_history@.update(
                b.all_ptr as int,
                r@.white.occupied() | r@.black.occupied(),
            )
        },
{
    proof {
        reveal(moved);
        lemma_moved_rights(b@, m);
        if b@.consistent() {
            lemma_moved_consistent(b@, m);
        }
        if moving_kind(b@, m) != PieceType::Null {
            lemma_moved_en_passant(b@, m);
        }
    }
    let white_moves = match b.turn {
        Color::White => true,
        Color::Black => false,
    };
    let own: Pieces = if white_moves {
        b.white_bitboard_pieces
    } else {
        b.black_bitboard_pieces
    };
    let opposing: Pieces = if white_moves {
        b.black_bitboard_pieces
    } else {
        b.white_bitboard_pieces
    };
    let from_index: u32 = m.from_square.index();
    let to_index: u32 = m.to_square.index();
    let from_bitboard: Bitboard = square_to_bitboard(m.from_square);
    let to_bitboard: Bitboard = square_to_bitboard(m.to_square);

    let piece_type = own.piece_type_at(from_bitboard);
    let is_pawn = match piece_type {
        PieceType::Pawn => true,
        _ => false,
    };
    let is_king = match piece_type {
        PieceType::King => true,
        _ => false,
    };
    if let PieceType::Null = piece_type {
        return *b;
    }
    proof {
        Square::lemma_idx_at(m.from_square);
        Square::lemma_idx_at(m.to_square);
    }
    let from_rank: u32 = if white_moves {
        from_index / 8
    } else {
        7 - from_index / 8
    };
    let to_rank: u32 = if white_moves {
        to_index / 8
    } else {
        7 - to_index / 8
    };
    assert(from_rank == m.from_square.relative(b.turn).rank() && to_rank
        == m.to_square.relative(b.turn).rank()) by {
        Square::lemma_at_idx((7 - m.from_square.rank()) * 8 + m.from_square.file());
        Square::lemma_at_idx((7 - m.to_square.rank()) * 8 + m.to_square.file());
    }

    // a pawn taken en passant stands behind the square entered
    let mut gone: Bitboard = from_bitboard | to_bitboard;
    let file_open: bool = (b.enpassant_files >> ((to_index % 8) as u8)) & 1 == 1;
    if is_pawn && file_open && to_rank == 5 {
        let victim_index: u32 = if white_moves {
            to_index - 8
        } else {
            to_index + 8
        };
        gone = gone | (1u64 << victim_index);
    }
    let en_passant: Bitrank = if is_pawn && from_rank == 1 && to_rank == 3 {
        1u8 << ((from_index % 8) as u8)
    } else {
        0u8
    };

    let mut rights = b.castling_rights;
    if opposing.rooks & to_bitboard != 0 {
        rights = clear_corner_right(rights, m.to_square);
    }
    match piece_type {
        PieceType::King => {
            if white_moves {
                rights.white_long = false;
                rights.white_short = false;
            } else {
                rights.black_long = false;
                rights.black_short = false;
            }
        },
        PieceType::Rook => {
            rights = clear_corner_right(rights, m.from_square);
        },
        _ => {},
    }

    // a castling king takes along what stands on the rook's corner
    let mut companion_kind = PieceType::Null;
    let mut companion_to: Bitboard = 0;
    if is_king {
        if let Some((rook_from, rook_to)) = rook_path(m) {
            let rook_from_bitboard = square_to_bitboard(rook_from);
            let kind = own.piece_type_at(rook_from_bitboard);
            let found = match kind {
                PieceType::Null => false,
                _ => true,
            };
            if found {
                companion_kind = kind;
                companion_to = square_to_bitboard(rook_to);
                gone = gone | rook_from_bitboard | companion_to;
            }
        }
    }
    assert(gone == vacated(b@, m)) by {
        let victim: u64 = if takes_en_passant(b@, m) {
            single(en_passant_victim(b@, m))
        } else {
            0
        };
        let c = companion(b@, m);
        let f = from_bitboard;
        let t = to_bitboard;
        let c1 = c.1;
        let c2 = c.2;
        assert(f | t == f | t | 0 | 0 | 0 && f | t | victim == f | t | victim | 0 | 0 && (f | t)
            | c1 | c2 == f | t | 0 | c1 | c2 && ((f | t) | victim) | c1 | c2 == f | t | victim
            | c1 | c2) by (bit_vector);
    }

    let landing = match (piece_type, m.promote_type) {
        (PieceType::Pawn, PieceType::Queen) => PieceType::Queen,
        (PieceType::Pawn, PieceType::Rook) => PieceType::Rook,
        (PieceType::Pawn, PieceType::Bishop) => PieceType::Bishop,
        (PieceType::Pawn, PieceType::Knight) => PieceType::Knight,
        _ => piece_type,
    };
    let own_after = own.cleared(gone).placed(landing, to_bitboard).placed(
        companion_kind,
        companion_to,
    );
    let opposing_after = opposing.cleared(gone);

    let mut board = *b;
    if white_moves {
        board.white_bitboard_pieces = own_after;
        board.black_bitboard_pieces = opposing_after;
    } else {
        board.white_bitboard_pieces = opposing_after;
        board.black_bitboard_pieces = own_after;
    }
    board.castling_rights = rights;
    board.enpassant_files = en_passant;
    let all_pieces: Bitboard = own_after.all() | opposing_after.all();
    assert(all_pieces == board.white_bitboard_pieces.occupied()
        | board.black_bitboard_pieces.occupied()) by {
        let x = own_after.occupied();
        let y = opposing_after.occupied();
        assert(x | y == y | x) by (bit_vector);
    }
    let mut history = b.all_piece_history;
    history[b.all_ptr] = all_pieces;
    board.all_piece_history = history;
    board.all_ptr = (b.all_ptr + 1) % 16;
    board.turn = b.turn.opposite();
    board
}

/// The position after the moves of `moves` have been made from `p`, one
/// after the other.
pub open spec fn moved_along(p: Position, moves: Seq<Move>) -> Position
    decreases moves.len(),
{
    if moves.len() == 0 {
        p
    } else {
        moved(moved_along(p, moves.drop_last()), moves.last())
    }
}

/// Makes the moves of `moves` one after the other. The moves are taken to be
/// moves that the pieces allow; they are not checked.
pub fn apply_moves(b: &Board, moves: &Vec<Move>) -> (r: Board)
    requires
        b.wf(),
    ensures
        r@ == moved_along(b@, moves@),
        r.wf(),
{
    let mut board = *b;
    let mut i: usize = 0;
    assert(moves@.take(0) =~= Seq::<Move>::empty());
    while i < moves.len()
        invariant
            0 <= i <= moves.len(),
            board.wf(),
            board@ == moved_along(b@, moves@.take(i as int)),
        decreases moves.len() - i,
    {
        assert(moves@.take(i + 1).drop_last() =~= moves@.take(i as int));
        board = apply_move(&board, moves[i]);
        i = i + 1;
    }
    assert(moves@.take(moves.len() as int) =~= moves@);
    board
}

} // verus!
