//! Move generation: the moves that the pieces allow, the test whether a king
//! can be taken, and the legal moves, which leave the mover's own king safe.

use crate::bitboard::{
    bit, bit_at, get_bitboard_pieces_rel, get_bitboard_rel, hopped, knight_hop, lemma_bit_ops,
    lemma_empty_bits, lemma_hopped_square, lemma_ray_square, lemma_ray_stays_empty,
    lemma_slid_square, lowest_square, ray_cover, ray_open, ray_reach, ray_stepped, reached,
    relative, slid, slide, slide1, without_square, Bitboard, Pieces, LONG_CASTLE_BITBOARD, RANK_3,
    SHORT_CASTLE_BITBOARD,
};
use crate::types::{
    Board, Color, Direction, KnightHop, Move, PieceType, Position, Square, BISHOP_DIRECTIONS,
    KING_DIRECTIONS, KNIGHT_HOPS, ROOK_DIRECTIONS,
};
use crate::utils::{apply_move, apply_null_move, moved};
use vstd::prelude::*;

verus! {

/// Whether the square `dx` files to the west and `dy` ranks to the south of
/// the square with number `t` is on the board.
pub open spec fn has_source(dx: int, dy: int, t: int) -> bool {
    0 <= t % 8 - dx < 8 && 0 <= t / 8 - dy < 8
}

/// The move that enters the square with number `t`, as the side to move
/// counts the squares, from the square `dx` files to the west and `dy` ranks
/// to the south of it. With `promote`, a move onto the last rank promotes to a
/// queen.
pub open spec fn move_to(t: int, dx: int, dy: int, turn: Color, promote: bool) -> Move {
    Move {
        from_square: Square::at(t - 8 * dy - dx).relative(turn),
        to_square: Square::at(t).relative(turn),
        promote_type: if promote && t >= 56 {
            PieceType::Queen
        } else {
            PieceType::Null
        },
    }
}

/// One move for each square of `targets` with a number of `lo` or more, in
/// rising order of the squares: the move that enters it by the step
/// `(dx, dy)`.
pub open spec fn moves_from(
    targets: u64,
    lo: int,
    dx: int,
    dy: int,
    turn: Color,
    promote: bool,
) -> Seq<Move>
    decreases 64 - lo,
{
    if lo < 0 || lo >= 64 {
        Seq::empty()
    } else if bit_at(targets, lo) {
        seq![move_to(lo, dx, dy, turn, promote)] + moves_from(
            targets,
            lo + 1,
            dx,
            dy,
            turn,
            promote,
        )
    } else {
        moves_from(targets, lo + 1, dx, dy, turn, promote)
    }
}

/// One move for each square of `targets`, in rising order of the squares.
pub open spec fn step_moves(targets: u64, dx: int, dy: int, turn: Color, promote: bool) -> Seq<
    Move,
> {
    moves_from(targets, 0, dx, dy, turn, promote)
}

/// Squares that are not in the set add no moves.
pub proof fn lemma_moves_from_skip(
    targets: u64,
    lo: int,
    hi: int,
    dx: int,
    dy: int,
    turn: Color,
    promote: bool,
)
    requires
        0 <= lo <= hi <= 64,
        forall|j: int| lo <= j < hi ==> !bit_at(targets, j),
    ensures
        moves_from(targets, lo, dx, dy, turn, promote) == moves_from(
            targets,
            hi,
            dx,
            dy,
            turn,
            promote,
        ),
    decreases hi - lo,
{
    if lo < hi {
        lemma_moves_from_skip(targets, lo + 1, hi, dx, dy, turn, promote);
    }
}

/// The moves for a set are the moves that enter its squares.
pub proof fn lemma_moves_from_contains(
    targets: u64,
    lo: int,
    dx: int,
    dy: int,
    turn: Color,
    promote: bool,
    m: Move,
)
    requires
        0 <= lo <= 64,
    ensures
        moves_from(targets, lo, dx, dy, turn, promote).contains(m) <==> exists|t: int|
            lo <= t < 64 && bit_at(targets, t) && m == #[trigger] move_to(t, dx, dy, turn, promote),
    decreases 64 - lo,
{
    let all = moves_from(targets, lo, dx, dy, turn, promote);
    if lo < 64 {
        let rest = moves_from(targets, lo + 1, dx, dy, turn, promote);
        lemma_moves_from_contains(targets, lo + 1, dx, dy, turn, promote, m);
        let head = seq![move_to(lo, dx, dy, turn, promote)];
        if bit_at(targets, lo) {
            assert(all == head + rest);
            if all.contains(m) {
                let k = choose|k: int| 0 <= k < all.len() && all[k] == m;
                if k == 0 {
                    assert(m == move_to(lo, dx, dy, turn, promote));
                } else {
                    assert(rest[k - 1] == m);
                    assert(rest.contains(m));
                }
            }
            if exists|t: int|
                lo <= t < 64 && bit_at(targets, t) && m == #[trigger] move_to(
                    t,
                    dx,
                    dy,
                    turn,
                    promote,
                ) {
                let t = choose|t: int|
                    lo <= t < 64 && bit_at(targets, t) && m == #[trigger] move_to(
                        t,
                        dx,
                        dy,
                        turn,
                        promote,
                    );
                if t == lo {
                    assert(all[0] == m);
                } else {
                    assert(rest.contains(m));
                    let k = choose|k: int| 0 <= k < rest.len() && rest[k] == m;
                    assert(all[k + 1] == m);
                }
            }
        }
    }
}

/// Appends to `list` one move for each square of `targets`, lowest square
/// first: the move that enters it by the step `(dx, dy)`.
fn push_moves(
    list: &mut Vec<Move>,
    targets: Bitboard,
    dx: i32,
    dy: i32,
    turn: Color,
    promote: bool,
)
    requires
        -7 <= dx <= 7,
        -7 <= dy <= 7,
        forall|t: int| 0 <= t < 64 && bit_at(targets, t) ==> has_source(dx as int, dy as int, t),
    ensures
        final(list)@ == old(list)@ + step_moves(targets, dx as int, dy as int, turn, promote),
{
    let mut bb: Bitboard = targets;
    let ghost lo: int = 0;
    let ghost before = list@;
    while bb != 0
        invariant
            0 <= lo <= 64,
            -7 <= dx <= 7,
            -7 <= dy <= 7,
            forall|j: int| 0 <= j < 64 ==> bit_at(bb, j) == (bit_at(targets, j) && j >= lo),
            forall|t: int|
                0 <= t < 64 && bit_at(targets, t) ==> has_source(dx as int, dy as int, t),
            before + step_moves(targets, dx as int, dy as int, turn, promote) == list@ + moves_from(
                targets,
                lo,
                dx as int,
                dy as int,
                turn,
                promote,
            ),
        decreases 64 - lo,
    {
        let idx: u32 = lowest_square(bb);
        let to_square = Square::from_index(idx).unwrap();
        proof {
            Square::lemma_at_idx(idx as int);
            assert(bit_at(targets, idx as int));
            assert(has_source(dx as int, dy as int, idx as int));
        }
        let from_square = to_square.offset(-dx, -dy).unwrap();
        let promote_type = if promote && idx >= 56 {
            PieceType::Queen
        } else {
            PieceType::Null
        };
        let m = Move {
            from_square: from_square.rel(turn),
            to_square: to_square.rel(turn),
            promote_type: promote_type,
        };
        proof {
            Square::lemma_at_idx(idx as int);
            assert(m == move_to(idx as int, dx as int, dy as int, turn, promote));
            lemma_moves_from_skip(targets, lo, idx as int, dx as int, dy as int, turn, promote);
            let rest = moves_from(targets, idx + 1, dx as int, dy as int, turn, promote);
            assert((list@ + seq![m]) + rest =~= list@ + (seq![m] + rest));
            lo = idx + 1;
        }
        list.push(m);
        bb = without_square(bb, idx);
    }
    proof {
        lemma_empty_bits(bb);
        lemma_moves_from_skip(targets, lo, 64, dx as int, dy as int, turn, promote);
        assert(list@ + Seq::<Move>::empty() =~= list@);
    }
}

/// The empty set gives no moves.
pub proof fn lemma_no_targets(mask: u64, dx: int, dy: int, turn: Color, promote: bool)
    ensures
        step_moves(0u64 & mask, dx, dy, turn, promote) == Seq::<Move>::empty(),
{
    assert(0u64 & mask == 0) by (bit_vector);
    lemma_empty_bits(0);
    lemma_moves_from_skip(0, 0, 64, dx, dy, turn, promote);
}

/// The pieces of the side to move, as that side sees the board.
pub open spec fn own_view(p: Position) -> Pieces {
    p.own().relative(p.turn)
}

/// The squares that the other side occupies, as the side to move sees the
/// board.
pub open spec fn enemy_view(p: Position) -> u64 {
    relative(p.opposing().occupied(), p.turn)
}

/// All occupied squares, as the side to move sees the board.
pub open spec fn occupied_view(p: Position) -> u64 {
    own_view(p).occupied() | enemy_view(p)
}

/// The squares on which a pawn of the side to move may capture, as that side
/// sees the board: those that the other side occupies, and on the sixth rank
/// those of the files open to en-passant capture.
pub open spec fn pawn_prey(p: Position) -> u64 {
    enemy_view(p) | ((p.en_passant as u64) << 40)
}

/// The empty squares directly ahead of the pawns of the side to move.
pub open spec fn pawn_push_targets(p: Position) -> u64 {
    slid(own_view(p).pawns, Direction::N, 1) & !occupied_view(p)
}

/// The empty squares two ahead of pawns that can advance one square onto the
/// third rank.
pub open spec fn pawn_double_targets(p: Position) -> u64 {
    slid(pawn_push_targets(p) & RANK_3, Direction::N, 1) & !occupied_view(p)
}

/// The pawn captures, those to the north-west first. A capture onto the last
/// rank promotes to a queen.
pub open spec fn pawn_captures(p: Position) -> Seq<Move> {
    step_moves(slid(own_view(p).pawns, Direction::NW, 1) & pawn_prey(p), -1, 1, p.turn, true)
        + step_moves(slid(own_view(p).pawns, Direction::NE, 1) & pawn_prey(p), 1, 1, p.turn, true)
}

/// The pawn advances, those of one square first. An advance onto the last
/// rank promotes to a queen.
pub open spec fn pawn_pushes(p: Position) -> Seq<Move> {
    step_moves(pawn_push_targets(p), 0, 1, p.turn, true) + step_moves(
        pawn_double_targets(p),
        0,
        2,
        p.turn,
        false,
    )
}

/// The moves of the knights on `knights` onto squares of `mask`, by the
/// first `n` of the eight jumps.
pub open spec fn knight_moves(knights: u64, mask: u64, turn: Color, n: int) -> Seq<Move>
    decreases n,
{
    if n <= 0 {
        Seq::empty()
    } else {
        knight_moves(knights, mask, turn, n - 1) + step_moves(
            hopped(knights, KNIGHT_HOPS[n - 1]) & mask,
            KNIGHT_HOPS[n - 1].dx(),
            KNIGHT_HOPS[n - 1].dy(),
            turn,
            false,
        )
    }
}

/// The moves of the pieces on `origin` in direction `dir` of at most `n`
/// steps onto squares of `mask`, the steps before the last taken over squares
/// of `free`; shorter moves first.
pub open spec fn ray_moves(
    origin: u64,
    dir: Direction,
    free: u64,
    mask: u64,
    turn: Color,
    n: int,
) -> Seq<Move>
    decreases n,
{
    if n <= 0 {
        Seq::empty()
    } else {
        ray_moves(origin, dir, free, mask, turn, n - 1) + step_moves(
            ray_stepped(origin, dir, free, n as nat) & mask,
            dir.dx() * n,
            dir.dy() * n,
            turn,
            false,
        )
    }
}

/// The moves of the pieces on `origin` in the first `n` directions of `dirs`
/// onto squares of `mask`.
pub open spec fn slider_moves(
    origin: u64,
    dirs: [Direction; 4],
    free: u64,
    mask: u64,
    turn: Color,
    n: int,
) -> Seq<Move>
    decreases n,
{
    if n <= 0 {
        Seq::empty()
    } else {
        slider_moves(origin, dirs, free, mask, turn, n - 1) + ray_moves(
            origin,
            dirs[n - 1],
            free,
            mask,
            turn,
            7,
        )
    }
}

/// The moves of the king on `king` by one step onto squares of `mask`, in the
/// first `n` of the eight directions.
pub open spec fn king_steps(king: u64, mask: u64, turn: Color, n: int) -> Seq<Move>
    decreases n,
{
    if n <= 0 {
        Seq::empty()
    } else {
        king_steps(king, mask, turn, n - 1) + step_moves(
            slid(king, KING_DIRECTIONS[n - 1], 1) & mask,
            KING_DIRECTIONS[n - 1].dx(),
            KING_DIRECTIONS[n - 1].dy(),
            turn,
            false,
        )
    }
}

/// The king's move in castling: two files from its home square, towards the
/// A file when castling long.
pub open spec fn castle_move(turn: Color, long: bool) -> Move {
    Move {
        from_square: Square::E1.relative(turn),
        to_square: (if long {
            Square::C1
        } else {
            Square::G1
        }).relative(turn),
        promote_type: PieceType::Null,
    }
}

/// The king's move onto the square that it crosses in castling.
pub open spec fn castle_transit(turn: Color, long: bool) -> Move {
    Move {
        from_square: Square::E1.relative(turn),
        to_square: (if long {
            Square::D1
        } else {
            Square::F1
        }).relative(turn),
        promote_type: PieceType::Null,
    }
}

/// Whether the side to move may castle: it holds the right, the squares
/// between king and rook are empty, its king cannot be taken where it
/// stands, and could not be taken on the square that it crosses.
pub open spec fn may_castle(p: Position, long: bool) -> bool {
    &&& if long {
        p.castling.long(p.turn)
    } else {
        p.castling.short(p.turn)
    }
    &&& occupied_view(p) & (if long {
        LONG_CASTLE_BITBOARD
    } else {
        SHORT_CASTLE_BITBOARD
    }) == 0
    &&& position_legal(p.passed())
    &&& position_legal(moved(p, castle_transit(p.turn, long)))
}

/// The castling moves, long before short.
pub open spec fn castle_moves(p: Position) -> Seq<Move> {
    (if may_castle(p, true) {
        seq![castle_move(p.turn, true)]
    } else {
        Seq::empty()
    }) + (if may_castle(p, false) {
        seq![castle_move(p.turn, false)]
    } else {
        Seq::empty()
    })
}

/// The captures and castling moves that the pieces allow: pawn captures,
/// then those of knights, of bishops and queens along diagonals, of rooks and
/// queens along ranks and files, of the king, then castling.
pub open spec fn capture_moves(p: Position) -> Seq<Move> {
    pawn_captures(p) + knight_moves(own_view(p).knights, enemy_view(p), p.turn, 8) + slider_moves(
        own_view(p).bishops | own_view(p).queens,
        BISHOP_DIRECTIONS,
        !occupied_view(p),
        enemy_view(p),
        p.turn,
        4,
    ) + slider_moves(
        own_view(p).rooks | own_view(p).queens,
        ROOK_DIRECTIONS,
        !occupied_view(p),
        enemy_view(p),
        p.turn,
        4,
    ) + king_steps(own_view(p).king, enemy_view(p), p.turn, 8) + castle_moves(p)
}

/// The moves onto empty squares that the pieces allow, in the same order of
/// pieces.
pub open spec fn quiet_moves(p: Position) -> Seq<Move> {
    pawn_pushes(p) + knight_moves(own_view(p).knights, !occupied_view(p), p.turn, 8) + slider_moves(
        own_view(p).bishops | own_view(p).queens,
        BISHOP_DIRECTIONS,
        !occupied_view(p),
        !occupied_view(p),
        p.turn,
        4,
    ) + slider_moves(
        own_view(p).rooks | own_view(p).queens,
        ROOK_DIRECTIONS,
        !occupied_view(p),
        !occupied_view(p),
        p.turn,
        4,
    ) + king_steps(own_view(p).king, !occupied_view(p), p.turn, 8)
}

/// All moves that the pieces allow, whether or not they leave the mover's
/// king safe: captures and castling first, then the moves onto empty squares.
#[verifier::opaque]
pub open spec fn pseudo_moves(p: Position) -> Seq<Move> {
    capture_moves(p) + quiet_moves(p)
}

/// The moves of `pseudo_moves` after which the mover's king cannot be taken,
/// in the same order.
#[verifier::opaque]
pub open spec fn legal_moves(p: Position) -> Seq<Move> {
    pseudo_moves(p).filter(|m: Move| position_legal(moved(p, m)))
}

/// The squares a knight's jump away from a square of `knights`.
pub open spec fn knight_reach(knights: u64) -> u64 {
    hopped(knights, KnightHop::NNW) | hopped(knights, KnightHop::NNE) | hopped(
        knights,
        KnightHop::NWW,
    ) | hopped(knights, KnightHop::NEE) | hopped(knights, KnightHop::SSW) | hopped(
        knights,
        KnightHop::SSE,
    ) | hopped(knights, KnightHop::SWW) | hopped(knights, KnightHop::SEE)
}

/// The squares next to a square of `king`.
pub open spec fn king_reach(king: u64) -> u64 {
    slid(king, Direction::N, 1) | slid(king, Direction::S, 1) | slid(king, Direction::E, 1) | slid(
        king,
        Direction::W,
        1,
    ) | slid(king, Direction::NW, 1) | slid(king, Direction::NE, 1) | slid(
        king,
        Direction::SW,
        1,
    ) | slid(king, Direction::SE, 1)
}

/// The squares of `free` that the pieces of `sliders` reach along the
/// diagonals over squares of `free`.
pub open spec fn diagonal_reach(sliders: u64, free: u64) -> u64 {
    ray_cover(sliders, Direction::NW, free, 7) | ray_cover(sliders, Direction::NE, free, 7)
        | ray_cover(sliders, Direction::SW, free, 7) | ray_cover(sliders, Direction::SE, free, 7)
}

/// The squares of `free` that the pieces of `sliders` reach along ranks and
/// files over squares of `free`.
pub open spec fn straight_reach(sliders: u64, free: u64) -> u64 {
    ray_cover(sliders, Direction::N, free, 7) | ray_cover(sliders, Direction::S, free, 7)
        | ray_cover(sliders, Direction::E, free, 7) | ray_cover(sliders, Direction::W, free, 7)
}

/// The squares on which pawns of side `c` standing on `pawns` could capture.
pub open spec fn pawn_reach(pawns: u64, c: Color) -> u64 {
    match c {
        Color::White => slid(pawns, Direction::NW, 1) | slid(pawns, Direction::NE, 1),
        Color::Black => slid(pawns, Direction::SW, 1) | slid(pawns, Direction::SE, 1),
    }
}

/// The squares that bar the way of a piece that attacks the king of the side
/// not to move: every occupied square but that king's own.
pub open spec fn blockers(p: Position) -> u64 {
    p.own().occupied() | p.opposing().queens | p.opposing().rooks | p.opposing().bishops
        | p.opposing().knights | p.opposing().pawns
}

/// The squares on which the side to move could take a king: those a knight's
/// jump from its knights, those its bishops, rooks and queens reach over
/// squares free of blockers, those its pawns capture on, and those next to
/// its king.
pub open spec fn attacked(p: Position) -> u64 {
    knight_reach(p.own().knights) | diagonal_reach(
        p.own().bishops | p.own().queens,
        !blockers(p),
    ) | straight_reach(p.own().rooks | p.own().queens, !blockers(p)) | pawn_reach(
        p.own().pawns,
        p.turn,
    ) | king_reach(p.own().king)
}

/// Whether the position could have come about by a legal move: the side to
/// move cannot take the other side's king.
#[verifier::opaque]
pub open spec fn position_legal(p: Position) -> bool {
    attacked(p) & p.opposing().king == 0
}

/// Tests whether the side to move is unable to take the other side's king.
/// Applied to the board after a move, it tells whether the move left the
/// mover's king safe.
pub fn test_pmove_valid(b: &Board) -> (r: bool)
    ensures
        r == position_legal(b@),
        b@.consistent() && b@.opposing().one_king() ==> (r <==> forall|m: Move|
            pseudo_moves(b@).contains(m) ==> !bit_at(b@.opposing().king, m.to_square.idx())),
{
    proof {
        reveal(position_legal);
        if b@.consistent() && b@.opposing().one_king() {
            crate::game::lemma_position_legal_meaning(b@);
        }
    }
    let white_moves = match b.turn {
        Color::White => true,
        Color::Black => false,
    };
    let pieces: Pieces = if white_moves {
        b.white_bitboard_pieces
    } else {
        b.black_bitboard_pieces
    };
    let enemy_pieces: Pieces = if white_moves {
        b.black_bitboard_pieces
    } else {
        b.white_bitboard_pieces
    };
    let king = enemy_pieces.king;
    let all_except_king = pieces.all() | enemy_pieces.queens | enemy_pieces.rooks
        | enemy_pieces.bishops | enemy_pieces.knights | enemy_pieces.pawns;
    let free = !all_except_king;

    let knights = knight_hop(pieces.knights, KnightHop::NNW) | knight_hop(
        pieces.knights,
        KnightHop::NNE,
    ) | knight_hop(pieces.knights, KnightHop::NWW) | knight_hop(pieces.knights, KnightHop::NEE)
        | knight_hop(pieces.knights, KnightHop::SSW) | knight_hop(pieces.knights, KnightHop::SSE)
        | knight_hop(pieces.knights, KnightHop::SWW) | knight_hop(pieces.knights, KnightHop::SEE);

    let bishops_and_queens = pieces.bishops | pieces.queens;
    let diagonals = ray_reach(bishops_and_queens, Direction::NW, free) | ray_reach(
        bishops_and_queens,
        Direction::NE,
        free,
    ) | ray_reach(bishops_and_queens, Direction::SW, free) | ray_reach(
        bishops_and_queens,
        Direction::SE,
        free,
    );

    let rooks_and_queens = pieces.rooks | pieces.queens;
    let straights = ray_reach(rooks_and_queens, Direction::N, free) | ray_reach(
        rooks_and_queens,
        Direction::S,
        free,
    ) | ray_reach(rooks_and_queens, Direction::E, free) | ray_reach(
        rooks_and_queens,
        Direction::W,
        free,
    );

    let pawns = if white_moves {
        slide1(pieces.pawns, Direction::NW) | slide1(pieces.pawns, Direction::NE)
    } else {
        slide1(pieces.pawns, Direction::SW) | slide1(pieces.pawns, Direction::SE)
    };

    let other_king = slide1(pieces.king, Direction::N) | slide1(pieces.king, Direction::S) | slide1(
        pieces.king,
        Direction::E,
    ) | slide1(pieces.king, Direction::W) | slide1(pieces.king, Direction::NW) | slide1(
        pieces.king,
        Direction::NE,
    ) | slide1(pieces.king, Direction::SW) | slide1(pieces.king, Direction::SE);

    (knights | diagonals | straights | pawns | other_king) & king == 0
}

/// Appends the knights' moves onto squares of `mask`.
fn push_knight_moves(list: &mut Vec<Move>, knights: Bitboard, mask: Bitboard, turn: Color)
    ensures
        final(list)@ == old(list)@ + knight_moves(knights, mask, turn, 8),
{
    let ghost before = list@;
    assert(list@ =~= before + knight_moves(knights, mask, turn, 0));
    let mut i: usize = 0;
    while i < 8
        invariant
            0 <= i <= 8,
            list@ == before + knight_moves(knights, mask, turn, i as int),
        decreases 8 - i,
    {
        let kh = KNIGHT_HOPS[i];
        let targets = knight_hop(knights, kh) & mask;
        proof {
            assert forall|t: int| 0 <= t < 64 && bit_at(targets, t) implies has_source(
                kh.dx(),
                kh.dy(),
                t,
            ) by {
                lemma_bit_ops(hopped(knights, kh), mask, t as u64, 0);
                lemma_hopped_square(knights, kh, t);
            }
            let done = knight_moves(knights, mask, turn, i as int);
            let more = step_moves(targets, kh.dx(), kh.dy(), turn, false);
            assert((before + done) + more =~= before + (done + more));
        }
        push_moves(list, targets, kh.file_step(), kh.rank_step(), turn, false);
        i = i + 1;
    }
}

/// Appends the king's moves onto squares of `mask`.
fn push_king_moves(list: &mut Vec<Move>, king: Bitboard, mask: Bitboard, turn: Color)
    ensures
        final(list)@ == old(list)@ + king_steps(king, mask, turn, 8),
{
    let ghost before = list@;
    assert(list@ =~= before + king_steps(king, mask, turn, 0));
    let mut i: usize = 0;
    while i < 8
        invariant
            0 <= i <= 8,
            list@ == before + king_steps(king, mask, turn, i as int),
        decreases 8 - i,
    {
        let dir = KING_DIRECTIONS[i];
        let targets = slide1(king, dir) & mask;
        proof {
            assert forall|t: int| 0 <= t < 64 && bit_at(targets, t) implies has_source(
                dir.dx(),
                dir.dy(),
                t,
            ) by {
                lemma_bit_ops(slid(king, dir, 1), mask, t as u64, 0);
                lemma_slid_square(king, dir, 1, t);
            }
            let done = king_steps(king, mask, turn, i as int);
            let more = step_moves(targets, dir.dx(), dir.dy(), turn, false);
            assert((before + done) + more =~= before + (done + more));
        }
        push_moves(list, targets, dir.file_step(), dir.rank_step(), turn, false);
        i = i + 1;
    }
}

/// Moves along a ray beyond the step at which it has no square left do not
/// exist.
proof fn lemma_ray_moves_end(
    origin: u64,
    dir: Direction,
    free: u64,
    mask: u64,
    turn: Color,
    d: int,
    n: int,
)
    requires
        0 <= d <= n,
        ray_open(origin, dir, free, d as nat) == 0,
    ensures
        ray_moves(origin, dir, free, mask, turn, n) == ray_moves(origin, dir, free, mask, turn, d),
    decreases n,
{
    if n > d {
        lemma_ray_moves_end(origin, dir, free, mask, turn, d, n - 1);
        lemma_ray_stays_empty(origin, dir, free, d as nat, n as nat);
        lemma_no_targets(mask, dir.dx() * n, dir.dy() * n, turn, false);
        let done = ray_moves(origin, dir, free, mask, turn, n - 1);
        assert(done + Seq::<Move>::empty() =~= done);
    }
}

/// Appends the moves of the pieces on `origin` along one ray: to `captures`
/// those onto squares of `enemy`, to `quiets` those onto empty squares.
fn push_ray_moves(
    captures: &mut Vec<Move>,
    quiets: &mut Vec<Move>,
    origin: Bitboard,
    dir: Direction,
    enemy: Bitboard,
    all: Bitboard,
    turn: Color,
)
    ensures
        final(captures)@ == old(captures)@ + ray_moves(origin, dir, !all, enemy, turn, 7),
        final(quiets)@ == old(quiets)@ + ray_moves(origin, dir, !all, !all, turn, 7),
{
    let ghost captures_before = captures@;
    let ghost quiets_before = quiets@;
    let ghost free = !all;
    assert(captures@ =~= captures_before + ray_moves(origin, dir, free, enemy, turn, 0));
    assert(quiets@ =~= quiets_before + ray_moves(origin, dir, free, free, turn, 0));
    let sx: i32 = dir.file_step();
    let sy: i32 = dir.rank_step();
    let mut front: Bitboard = origin;
    let mut dist: i32 = 1;
    while dist < 8 && front != 0
        invariant
            1 <= dist <= 8,
            sx == dir.dx(),
            sy == dir.dy(),
            free == !all,
            front == ray_open(origin, dir, free, (dist - 1) as nat),
            captures@ == captures_before + ray_moves(origin, dir, free, enemy, turn, dist - 1),
            quiets@ == quiets_before + ray_moves(origin, dir, free, free, turn, dist - 1),
        decreases 8 - dist,
    {
        let stepped = slide1(front, dir);
        let cap_moves = stepped & enemy;
        let open_moves = stepped & !all;
        assert(-7 <= sx * dist <= 7 && -7 <= sy * dist <= 7) by (nonlinear_arith)
            requires
                -1 <= sx <= 1,
                -1 <= sy <= 1,
                1 <= dist <= 7,
        ;
        proof {
            assert(stepped == ray_stepped(origin, dir, free, dist as nat));
            assert forall|t: int| 0 <= t < 64 && (bit_at(cap_moves, t) || bit_at(
                open_moves,
                t,
            )) implies has_source(dir.dx() * dist, dir.dy() * dist, t) by {
                lemma_bit_ops(stepped, enemy, t as u64, 0);
                lemma_bit_ops(stepped, !all, t as u64, 0);
                lemma_ray_square(origin, dir, free, dist as nat, t);
            }
            let c_done = ray_moves(origin, dir, free, enemy, turn, dist - 1);
            let c_more = step_moves(cap_moves, dir.dx() * dist, dir.dy() * dist, turn, false);
            assert((captures_before + c_done) + c_more =~= captures_before + (c_done + c_more));
            let q_done = ray_moves(origin, dir, free, free, turn, dist - 1);
            let q_more = step_moves(open_moves, dir.dx() * dist, dir.dy() * dist, turn, false);
            assert((quiets_before + q_done) + q_more =~= quiets_before + (q_done + q_more));
        }
        push_moves(captures, cap_moves, sx * dist, sy * dist, turn, false);
        push_moves(quiets, open_moves, sx * dist, sy * dist, turn, false);
        front = open_moves;
        dist = dist + 1;
    }
    proof {
        if dist < 8 {
            lemma_ray_moves_end(origin, dir, free, enemy, turn, dist - 1, 7);
            lemma_ray_moves_end(origin, dir, free, free, turn, dist - 1, 7);
        }
    }
}

/// Appends the moves of the pieces on `origin` along the four rays of `dirs`.
fn push_slider_moves(
    captures: &mut Vec<Move>,
    quiets: &mut Vec<Move>,
    origin: Bitboard,
    dirs: &[Direction; 4],
    enemy: Bitboard,
    all: Bitboard,
    turn: Color,
)
    ensures
        final(captures)@ == old(captures)@ + slider_moves(origin, *dirs, !all, enemy, turn, 4),
        final(quiets)@ == old(quiets)@ + slider_moves(origin, *dirs, !all, !all, turn, 4),
{
    let ghost captures_before = captures@;
    let ghost quiets_before = quiets@;
    assert(captures@ =~= captures_before + slider_moves(origin, *dirs, !all, enemy, turn, 0));
    assert(quiets@ =~= quiets_before + slider_moves(origin, *dirs, !all, !all, turn, 0));
    let mut i: usize = 0;
    while i < 4
        invariant
            0 <= i <= 4,
            captures@ == captures_before + slider_moves(origin, *dirs, !all, enemy, turn, i as int),
            quiets@ == quiets_before + slider_moves(origin, *dirs, !all, !all, turn, i as int),
        decreases 4 - i,
    {
        let dir = dirs[i];
        proof {
            let c_done = slider_moves(origin, *dirs, !all, enemy, turn, i as int);
            let c_more = ray_moves(origin, dir, !all, enemy, turn, 7);
            assert((captures_before + c_done) + c_more =~= captures_before + (c_done + c_more));
            let q_done = slider_moves(origin, *dirs, !all, !all, turn, i as int);
            let q_more = ray_moves(origin, dir, !all, !all, turn, 7);
            assert((quiets_before + q_done) + q_more =~= quiets_before + (q_done + q_more));
        }
        push_ray_moves(captures, quiets, origin, dir, enemy, all, turn);
        i = i + 1;
    }
}

/// Appends the pawn captures onto squares of `prey`.
fn push_pawn_captures(list: &mut Vec<Move>, pawns: Bitboard, prey: Bitboard, turn: Color)
    ensures
        final(list)@ == old(list)@ + (step_moves(
            slid(pawns, Direction::NW, 1) & prey,
            -1,
            1,
            turn,
            true,
        ) + step_moves(slid(pawns, Direction::NE, 1) & prey, 1, 1, turn, true)),
{
    let ghost before = list@;
    let west = slide(pawns, Direction::NW, 1) & prey;
    let east = slide(pawns, Direction::NE, 1) & prey;
    proof {
        assert forall|t: int| 0 <= t < 64 && bit_at(west, t) implies has_source(-1, 1, t) by {
            lemma_bit_ops(slid(pawns, Direction::NW, 1), prey, t as u64, 0);
            lemma_slid_square(pawns, Direction::NW, 1, t);
        }
        assert forall|t: int| 0 <= t < 64 && bit_at(east, t) implies has_source(1, 1, t) by {
            lemma_bit_ops(slid(pawns, Direction::NE, 1), prey, t as u64, 0);
            lemma_slid_square(pawns, Direction::NE, 1, t);
        }
        let a = step_moves(west, -1, 1, turn, true);
        let b = step_moves(east, 1, 1, turn, true);
        assert((before + a) + b =~= before + (a + b));
    }
    push_moves(list, west, -1, 1, turn, true);
    push_moves(list, east, 1, 1, turn, true);
}

/// Appends the pawn advances onto squares that are not in `all`.
fn push_pawn_pushes(list: &mut Vec<Move>, pawns: Bitboard, all: Bitboard, turn: Color)
    ensures
        final(list)@ == old(list)@ + (step_moves(
            slid(pawns, Direction::N, 1) & !all,
            0,
            1,
            turn,
            true,
        ) + step_moves(
            slid((slid(pawns, Direction::N, 1) & !all) & RANK_3, Direction::N, 1) & !all,
            0,
            2,
            turn,
            false,
        )),
{
    let ghost before = list@;
    let one = slide(pawns, Direction::N, 1) & !all;
    let two = slide(one & RANK_3, Direction::N, 1) & !all;
    proof {
        assert forall|t: int| 0 <= t < 64 && bit_at(one, t) implies has_source(0, 1, t) by {
            lemma_bit_ops(slid(pawns, Direction::N, 1), !all, t as u64, 0);
            lemma_slid_square(pawns, Direction::N, 1, t);
        }
        assert forall|t: int| 0 <= t < 64 && bit_at(two, t) implies has_source(0, 2, t) by {
            lemma_bit_ops(slid(one & RANK_3, Direction::N, 1), !all, t as u64, 0);
            lemma_slid_square(one & RANK_3, Direction::N, 1, t);
            let s = t - 8;
            if 0 <= s < 64 {
                lemma_bit_ops(one, RANK_3, s as u64, 0);
                lemma_rank_3(s as u64);
            }
        }
        let a = step_moves(one, 0, 1, turn, true);
        let b = step_moves(two, 0, 2, turn, false);
        assert((before + a) + b =~= before + (a + b));
    }
    push_moves(list, one, 0, 1, turn, true);
    push_moves(list, two, 0, 2, turn, false);
}

/// The third rank holds the squares with the numbers 16 to 23.
pub proof fn lemma_rank_3(s: u64)
    by (bit_vector)
    requires
        s < 64,
    ensures
        bit(RANK_3, s) == (16 <= s < 24),
{
}

/// Appends the castling move of the given side of the board, if it may be
/// made.
fn push_castle(list: &mut Vec<Move>, b: &Board, all: Bitboard, long: bool)
    requires
        b.wf(),
        all == occupied_view(b@),
    ensures
        final(list)@ == old(list)@ + (if may_castle(b@, long) {
            seq![castle_move(b.turn, long)]
        } else {
            Seq::empty()
        }),
{
    let ghost before = list@;
    assert(list@ =~= before + Seq::<Move>::empty());
    let held = match (b.turn, long) {
        (Color::White, true) => b.castling_rights.white_long,
        (Color::White, false) => b.castling_rights.white_short,
        (Color::Black, true) => b.castling_rights.black_long,
        (Color::Black, false) => b.castling_rights.black_short,
    };
    let between = if long {
        LONG_CASTLE_BITBOARD
    } else {
        SHORT_CASTLE_BITBOARD
    };
    if held && (all & between) == 0 {
        // the king may not castle out of check
        let null_board = apply_null_move(b);
        if test_pmove_valid(&null_board) {
            let from_sq = Square::E1.rel(b.turn);
            let crossed = if long {
                Square::D1
            } else {
                Square::F1
            };
            let test_move = Move {
                from_square: from_sq,
                to_square: crossed.rel(b.turn),
                promote_type: PieceType::Null,
            };
            // nor through check; the square it ends on is tested with every other move
            let test_board = apply_move(b, test_move);
            if test_pmove_valid(&test_board) {
                let target = if long {
                    Square::C1
                } else {
                    Square::G1
                };
                let castle = Move {
                    from_square: from_sq,
                    to_square: target.rel(b.turn),
                    promote_type: PieceType::Null,
                };
                list.push(castle);
                assert(list@ =~= before + seq![castle_move(b.turn, long)]);
            }
        }
    }
}

/// All moves that the pieces allow for the side to move, without regard to
/// the safety of its own king: captures and castling first, then the moves
/// onto empty squares.
pub fn calc_pmoves(b: &Board) -> (r: Vec<Move>)
    requires
        b.wf(),
    ensures
        r@ == pseudo_moves(b@),
        forall|m: Move| r@.contains(m) <==> crate::rules::allowed(b@, m),
{
    proof {
        reveal(pseudo_moves);
        assert forall|m: Move| pseudo_moves(b@).contains(m) <==> crate::rules::allowed(
            b@,
            m,
        ) by {
            crate::complete::lemma_generated_moves_are_the_allowed(b@, m);
        }
    }
    let mut capscasts: Vec<Move> = Vec::new();
    let mut moves: Vec<Move> = Vec::new();

    let white_moves = match b.turn {
        Color::White => true,
        Color::Black => false,
    };
    let pieces: Pieces = if white_moves {
        b.white_bitboard_pieces
    } else {
        b.black_bitboard_pieces
    };
    let enemy_pieces: Pieces = if white_moves {
        b.black_bitboard_pieces
    } else {
        b.white_bitboard_pieces
    };
    let pieces_rel = get_bitboard_pieces_rel(pieces, b.turn);
    let friendly_bitboard_rel = pieces_rel.all();
    let enemy_bitboard_rel = get_bitboard_rel(enemy_pieces.all(), b.turn);
    // the files open to en-passant capture count as enemy pawns on the sixth rank
    let enemy_bitboard_rel_enpassant = enemy_bitboard_rel | ((b.enpassant_files as u64) << 40);
    let all_bitboard_rel = friendly_bitboard_rel | enemy_bitboard_rel;
    let ghost p = b@;
    assert(pieces_rel == own_view(p));
    assert(enemy_bitboard_rel == enemy_view(p));
    assert(all_bitboard_rel == occupied_view(p));
    assert(enemy_bitboard_rel_enpassant == pawn_prey(p));
    assert(capscasts@ =~= Seq::<Move>::empty());
    assert(moves@ =~= Seq::<Move>::empty());

    push_pawn_captures(&mut capscasts, pieces_rel.pawns, enemy_bitboard_rel_enpassant, b.turn);
    push_pawn_pushes(&mut moves, pieces_rel.pawns, all_bitboard_rel, b.turn);
    assert(capscasts@ =~= pawn_captures(p));
    assert(moves@ =~= pawn_pushes(p));

    push_knight_moves(&mut capscasts, pieces_rel.knights, enemy_bitboard_rel, b.turn);
    push_knight_moves(&mut moves, pieces_rel.knights, !all_bitboard_rel, b.turn);

    push_slider_moves(
        &mut capscasts,
        &mut moves,
        pieces_rel.bishops | pieces_rel.queens,
        &BISHOP_DIRECTIONS,
        enemy_bitboard_rel,
        all_bitboard_rel,
        b.turn,
    );
    push_slider_moves(
        &mut capscasts,
        &mut moves,
        pieces_rel.rooks | pieces_rel.queens,
        &ROOK_DIRECTIONS,
        enemy_bitboard_rel,
        all_bitboard_rel,
        b.turn,
    );

    push_king_moves(&mut capscasts, pieces_rel.king, enemy_bitboard_rel, b.turn);
    push_king_moves(&mut moves, pieces_rel.king, !all_bitboard_rel, b.turn);
    assert(moves@ == quiet_moves(p));

    let ghost before_castling = capscasts@;
    push_castle(&mut capscasts, b, all_bitboard_rel, true);
    push_castle(&mut capscasts, b, all_bitboard_rel, false);
    assert(capscasts@ =~= before_castling + castle_moves(p));
    assert(capscasts@ == capture_moves(p));

    capscasts.append(&mut moves);
    capscasts
}

/// The legal moves of the side to move: the moves of [`calc_pmoves`] after
/// which its king cannot be taken, in the same order.
pub fn calc_moves(b: &Board) -> (r: Vec<Move>)
    requires
        b.wf(),
    ensures
        r@ == legal_moves(b@),
        forall|m: Move|
            r@.contains(m) <==> pseudo_moves(b@).contains(m) && position_legal(moved(b@, m)),
{
    proof {
        reveal(legal_moves);
        assert forall|m: Move|
            legal_moves(b@).contains(m) <==> pseudo_moves(b@).contains(m) && position_legal(
                moved(b@, m),
            ) by {
            crate::rules::lemma_legal_moves(b@, m);
        }
    }
    let pmoves = calc_pmoves(b);
    let mut vec: Vec<Move> = Vec::new();
    let ghost keep = |m: Move| position_legal(moved(b@, m));
    assert(pmoves@.take(0).filter(keep) =~= Seq::<Move>::empty()) by {
        reveal(Seq::filter);
    }
    let mut i: usize = 0;
    while i < pmoves.len()
        invariant
            0 <= i <= pmoves.len(),
            b.wf(),
            pmoves@ == pseudo_moves(b@),
            keep == |m: Move| position_legal(moved(b@, m)),
            vec@ == pmoves@.take(i as int).filter(keep),
        decreases pmoves.len() - i,
    {
        let m = pmoves[i];
        let test_board = apply_move(b, m);
        proof {
            reveal(Seq::filter);
            assert(pmoves@.take(i + 1).drop_last() =~= pmoves@.take(i as int));
            assert(pmoves@.take(i + 1).last() == m);
        }
        if test_pmove_valid(&test_board) {
            vec.push(m);
        }
        i = i + 1;
    }
    assert(pmoves@.take(pmoves.len() as int) =~= pmoves@);
    vec
}

} // verus!
