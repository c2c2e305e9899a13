//! The generator gives every move that the rules of movement allow.

use crate::bitboard::{
    along_on_board, bit_at, file_open, hopped, lemma_along_on_board, lemma_bit_ops,
    lemma_hopped_square, lemma_ray_reaches, lemma_slid_square, ray_stepped, relative, slid,
    square_along, way_free, RANK_3,
};
use crate::rules::{
    allowed, crossed_square, enters_empty, enters_enemy, file_change, is_castling, is_diagonal,
    is_empty, is_king_step, is_knight_move, is_pawn_capture, is_pawn_double_push, is_pawn_push,
    is_piece_move, is_slider_move, lemma_generated_moves_allowed, lemma_prey_squares,
    lemma_pseudo_moves, lemma_relative_bit, lemma_relative_square, lemma_relative_twice,
    lemma_relative_union, lemma_target, lemma_view_empty, lemma_view_square, pawn_capture_rule,
    pawn_push_rule, piece_rule, promotion_due, rank_change, seen_index, slides, slides_along,
    steps_onto,
};
use crate::move_search::{
    enemy_view, lemma_rank_3, move_to, occupied_view, own_view, pawn_double_targets, pawn_prey,
    pawn_push_targets, pseudo_moves,
};
use crate::types::{
    Color, Direction, KnightHop, Move, PieceType, Position, Square, BISHOP_DIRECTIONS,
    KING_DIRECTIONS, KNIGHT_HOPS, ROOK_DIRECTIONS,
};
use vstd::prelude::*;

verus! {

/// The squares of a move, as the side to move numbers them.
pub proof fn lemma_move_squares(m: Move, turn: Color)
    ensures
        ({
            let t = m.to_square.relative(turn).idx();
            let s = m.from_square.relative(turn).idx();
            &&& 0 <= t < 64
            &&& 0 <= s < 64
            &&& t % 8 == m.to_square.file()
            &&& s % 8 == m.from_square.file()
            &&& t / 8 == m.to_square.relative(turn).rank()
            &&& s / 8 == m.from_square.relative(turn).rank()
            &&& 0 <= t % 8 < 8
            &&& 0 <= s % 8 < 8
            &&& seen_index(turn, t) == m.to_square.idx()
            &&& seen_index(turn, s) == m.from_square.idx()
            &&& Square::at(t).relative(turn) == m.to_square
            &&& Square::at(s).relative(turn) == m.from_square
            &&& s == t - 8 * rank_change(m, turn) - file_change(m)
        }),
{
    Square::lemma_idx_at(m.to_square);
    Square::lemma_idx_at(m.from_square);
    Square::lemma_idx_at(m.to_square.relative(turn));
    Square::lemma_idx_at(m.from_square.relative(turn));
    lemma_relative_twice(m.to_square, turn);
    lemma_relative_twice(m.from_square, turn);
    lemma_relative_twice(m.to_square.relative(turn), turn);
    lemma_relative_twice(m.from_square.relative(turn), turn);
}

/// A move that takes a piece of `origin` by the step `(dx, dy)` onto a square
/// of `targets`, and names the queen exactly where `promote` asks for it, is
/// one of the moves onto the squares of `targets`.
pub proof fn lemma_steps_onto(targets: u64, dx: int, dy: int, turn: Color, promote: bool, m: Move)
    requires
        file_change(m) == dx,
        rank_change(m, turn) == dy,
        bit_at(targets, m.to_square.relative(turn).idx()),
        m.promote_type == (if promote && m.to_square.relative(turn).rank() == 7 {
            PieceType::Queen
        } else {
            PieceType::Null
        }),
    ensures
        steps_onto(targets, dx, dy, turn, promote, m),
{
    lemma_move_squares(m, turn);
    let t = m.to_square.relative(turn).idx();
    assert(m == move_to(t, dx, dy, turn, promote));
}

/// A pawn's capture that the rule allows is generated.
pub proof fn lemma_pawn_capture_generated(p: Position, m: Move)
    requires
        pawn_capture_rule(p, m),
    ensures
        is_pawn_capture(p, m),
{
    let pawns = own_view(p).pawns;
    let prey = pawn_prey(p);
    let dx = file_change(m);
    let dir = if dx == -1 {
        Direction::NW
    } else {
        Direction::NE
    };
    lemma_move_squares(m, p.turn);
    let t = m.to_square.relative(p.turn).idx();
    let s = m.from_square.relative(p.turn).idx();
    lemma_view_square(p.own(), p.turn, s);
    lemma_relative_bit(p.own().pawns, p.turn, s);
    lemma_slid_square(pawns, dir, 1, t);
    lemma_target(p, m);
    lemma_prey_squares(p, t);
    lemma_bit_ops(slid(pawns, dir, 1), prey, t as u64, 0);
    lemma_steps_onto(slid(pawns, dir, 1) & prey, dx, 1, p.turn, true, m);
}

/// A pawn's advance that the rule allows is generated.
pub proof fn lemma_pawn_push_generated(p: Position, m: Move)
    requires
        pawn_push_rule(p, m),
    ensures
        is_pawn_push(p, m) || is_pawn_double_push(p, m),
{
    let pawns = own_view(p).pawns;
    let free = !occupied_view(p);
    let one = pawn_push_targets(p);
    lemma_move_squares(m, p.turn);
    let t = m.to_square.relative(p.turn).idx();
    let s = m.from_square.relative(p.turn).idx();
    lemma_view_square(p.own(), p.turn, s);
    lemma_relative_bit(p.own().pawns, p.turn, s);
    lemma_target(p, m);
    if rank_change(m, p.turn) == 1 {
        lemma_slid_square(pawns, Direction::N, 1, t);
        lemma_bit_ops(slid(pawns, Direction::N, 1), free, t as u64, 0);
        lemma_steps_onto(one, 0, 1, p.turn, true, m);
    } else {
        let x = s + 8;
        lemma_view_empty(p, x);
        lemma_slid_square(pawns, Direction::N, 1, x);
        lemma_bit_ops(slid(pawns, Direction::N, 1), free, x as u64, 0);
        lemma_rank_3(x as u64);
        lemma_bit_ops(one, RANK_3, x as u64, 0);
        lemma_slid_square(one & RANK_3, Direction::N, 1, t);
        lemma_bit_ops(slid(one & RANK_3, Direction::N, 1), free, t as u64, 0);
        lemma_steps_onto(pawn_double_targets(p), 0, 2, p.turn, false, m);
    }
}

/// The set of squares that a move of a piece other than a pawn may enter,
/// as the generator sees it: the squares of the other side for a capture,
/// the empty squares else.
pub open spec fn target_mask(p: Position, m: Move) -> u64 {
    if enters_enemy(p, m) {
        enemy_view(p)
    } else {
        !occupied_view(p)
    }
}

/// The knight's jump that changes the file by `dx` and the rank by `dy`.
pub open spec fn hop_index(dx: int, dy: int) -> int {
    if dx == -1 && dy == 2 {
        0
    } else if dx == 1 && dy == 2 {
        1
    } else if dx == -2 && dy == 1 {
        2
    } else if dx == 2 && dy == 1 {
        3
    } else if dx == -1 && dy == -2 {
        4
    } else if dx == 1 && dy == -2 {
        5
    } else if dx == -2 && dy == -1 {
        6
    } else {
        7
    }
}

/// A knight's move that the rule allows is generated.
pub proof fn lemma_knight_generated(p: Position, m: Move)
    requires
        m.promote_type == PieceType::Null,
        enters_enemy(p, m) || enters_empty(p, m),
        bit_at(p.own().knights, m.from_square.idx()),
        (file_change(m) == 1 || file_change(m) == -1) && (rank_change(m, p.turn) == 2
            || rank_change(m, p.turn) == -2) || (file_change(m) == 2 || file_change(m) == -2) && (
        rank_change(m, p.turn) == 1 || rank_change(m, p.turn) == -1),
    ensures
        is_knight_move(p, target_mask(p, m), m),
{
    let knights = own_view(p).knights;
    let mask = target_mask(p, m);
    let dx = file_change(m);
    let dy = rank_change(m, p.turn);
    let i = hop_index(dx, dy);
    let kh = KNIGHT_HOPS[i];
    assert(kh.dx() == dx && kh.dy() == dy);
    lemma_move_squares(m, p.turn);
    let t = m.to_square.relative(p.turn).idx();
    let s = m.from_square.relative(p.turn).idx();
    lemma_view_square(p.own(), p.turn, s);
    lemma_relative_bit(p.own().knights, p.turn, s);
    lemma_hopped_square(knights, kh, t);
    lemma_target(p, m);
    lemma_bit_ops(hopped(knights, kh), mask, t as u64, 0);
    lemma_steps_onto(hopped(knights, kh) & mask, dx, dy, p.turn, false, m);
    assert(steps_onto(
        hopped(knights, KNIGHT_HOPS[i]) & mask,
        KNIGHT_HOPS[i].dx(),
        KNIGHT_HOPS[i].dy(),
        p.turn,
        false,
        m,
    ));
}

/// The number that a direction has among the king's directions.
pub open spec fn king_direction_index(dx: int, dy: int) -> int {
    if dx == 0 && dy == 1 {
        0
    } else if dx == 0 && dy == -1 {
        1
    } else if dx == 1 && dy == 0 {
        2
    } else if dx == -1 && dy == 0 {
        3
    } else if dx == -1 && dy == 1 {
        4
    } else if dx == 1 && dy == 1 {
        5
    } else if dx == -1 && dy == -1 {
        6
    } else {
        7
    }
}

/// A king's step that the rule allows is generated.
#[verifier::rlimit(30)]
pub proof fn lemma_king_generated(p: Position, m: Move)
    requires
        m.promote_type == PieceType::Null,
        enters_enemy(p, m) || enters_empty(p, m),
        bit_at(p.own().king, m.from_square.idx()),
        -1 <= file_change(m) <= 1,
        -1 <= rank_change(m, p.turn) <= 1,
        file_change(m) != 0 || rank_change(m, p.turn) != 0,
    ensures
        is_king_step(p, target_mask(p, m), m),
{
    let king = own_view(p).king;
    let mask = target_mask(p, m);
    let dx = file_change(m);
    let dy = rank_change(m, p.turn);
    let i = king_direction_index(dx, dy);
    let dir = KING_DIRECTIONS[i];
    assert(dir.dx() == dx && dir.dy() == dy);
    assert(dir.dx() * 1 == dx && dir.dy() * 1 == dy);
    lemma_move_squares(m, p.turn);
    let t = m.to_square.relative(p.turn).idx();
    let s = m.from_square.relative(p.turn).idx();
    lemma_view_square(p.own(), p.turn, s);
    lemma_relative_bit(p.own().king, p.turn, s);
    lemma_slid_square(king, dir, 1, t);
    lemma_target(p, m);
    lemma_bit_ops(slid(king, dir, 1), mask, t as u64, 0);
    lemma_steps_onto(slid(king, dir, 1) & mask, dx, dy, p.turn, false, m);
    assert(steps_onto(
        slid(king, KING_DIRECTIONS[i], 1) & mask,
        KING_DIRECTIONS[i].dx(),
        KING_DIRECTIONS[i].dy(),
        p.turn,
        false,
        m,
    ));
}

/// A move of a sliding piece that the rule allows is generated along the
/// ray of its direction.
pub proof fn lemma_slider_generated(
    p: Position,
    origin: u64,
    dirs: [Direction; 4],
    i: int,
    d: int,
    m: Move,
)
    requires
        0 <= i < 4,
        m.promote_type == PieceType::Null,
        enters_enemy(p, m) || enters_empty(p, m),
        bit_at(origin, m.from_square.idx()),
        slides_along(p, m, dirs[i], d),
    ensures
        is_slider_move(p, relative(origin, p.turn), dirs, target_mask(p, m), m),
{
    let dir = dirs[i];
    let seen = relative(origin, p.turn);
    let free = !occupied_view(p);
    let mask = target_mask(p, m);
    lemma_move_squares(m, p.turn);
    let t = m.to_square.relative(p.turn).idx();
    let s = m.from_square.relative(p.turn).idx();
    let f = m.from_square.file();
    let r = m.from_square.relative(p.turn).rank();
    assert(s == r * 8 + f);
    lemma_relative_bit(origin, p.turn, s);
    assert forall|k: int| 0 < k < d implies bit_at(free, #[trigger] square_along(f, r, dir, k)) by {
        lemma_along_on_board(f, r, dir, d, k);
        lemma_view_empty(p, square_along(f, r, dir, k));
    }
    assert(way_free(free, f, r, dir, d));
    lemma_ray_reaches(seen, dir, free, f, r, d);
    lemma_along_on_board(f, r, dir, d, d);
    lemma_target(p, m);
    let stepped = ray_stepped(seen, dir, free, d as nat);
    lemma_bit_ops(stepped, mask, t as u64, 0);
    assert(file_change(m) == dir.dx() * d);
    assert(rank_change(m, p.turn) == dir.dy() * d);
    lemma_steps_onto(stepped & mask, dir.dx() * d, dir.dy() * d, p.turn, false, m);
    assert(steps_onto(
        ray_stepped(seen, dirs[i], free, d as nat) & mask,
        dirs[i].dx() * d,
        dirs[i].dy() * d,
        p.turn,
        false,
        m,
    ));
}

/// The number that a direction has among the directions of its kind.
pub open spec fn slider_direction_index(dir: Direction) -> int {
    match dir {
        Direction::NW | Direction::N => 0,
        Direction::NE | Direction::S => 1,
        Direction::SW | Direction::E => 2,
        Direction::SE | Direction::W => 3,
    }
}

/// A move of a piece other than a pawn that the rule allows is generated.
pub proof fn lemma_piece_move_generated(p: Position, m: Move)
    requires
        piece_rule(p, m),
    ensures
        is_piece_move(p, target_mask(p, m), m),
{
    let own = p.own();
    let from = m.from_square.idx();
    let dx = file_change(m);
    let dy = rank_change(m, p.turn);
    if bit_at(own.knights, from) && ((dx == 1 || dx == -1) && (dy == 2 || dy == -2) || (dx == 2
        || dx == -2) && (dy == 1 || dy == -1)) {
        lemma_knight_generated(p, m);
    } else if bit_at(own.bishops | own.queens, from) && slides(p, m, true) {
        let (dir, d) = choose|dir: Direction, d: int|
            is_diagonal(dir) == true && #[trigger] slides_along(p, m, dir, d);
        let i = slider_direction_index(dir);
        assert(BISHOP_DIRECTIONS[i] == dir);
        lemma_slider_generated(p, own.bishops | own.queens, BISHOP_DIRECTIONS, i, d, m);
        lemma_view_square(own, p.turn, 0);
        lemma_relative_union(own.bishops, own.queens, p.turn);
    } else if bit_at(own.rooks | own.queens, from) && slides(p, m, false) {
        let (dir, d) = choose|dir: Direction, d: int|
            is_diagonal(dir) == false && #[trigger] slides_along(p, m, dir, d);
        let i = slider_direction_index(dir);
        assert(ROOK_DIRECTIONS[i] == dir);
        lemma_slider_generated(p, own.rooks | own.queens, ROOK_DIRECTIONS, i, d, m);
        lemma_view_square(own, p.turn, 0);
        lemma_relative_union(own.rooks, own.queens, p.turn);
    } else {
        lemma_king_generated(p, m);
    }
}

/// The generator gives every move that the rules of movement allow.
pub proof fn lemma_allowed_moves_generated(p: Position, m: Move)
    requires
        allowed(p, m),
    ensures
        pseudo_moves(p).contains(m),
{
    lemma_pseudo_moves(p, m);
    if pawn_capture_rule(p, m) {
        lemma_pawn_capture_generated(p, m);
    } else if pawn_push_rule(p, m) {
        lemma_pawn_push_generated(p, m);
    } else if piece_rule(p, m) {
        lemma_piece_move_generated(p, m);
    }
}

/// The moves that the generator gives are exactly the moves that the rules
/// of movement allow.
pub proof fn lemma_generated_moves_are_the_allowed(p: Position, m: Move)
    ensures
        pseudo_moves(p).contains(m) <==> allowed(p, m),
{
    if pseudo_moves(p).contains(m) {
        lemma_generated_moves_allowed(p, m);
    }
    if allowed(p, m) {
        lemma_allowed_moves_generated(p, m);
    }
}

} // verus!
