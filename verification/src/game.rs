//! Boards that a game can reach: what holds of the starting position and is
//! kept by every legal move.

use crate::bitboard::{
    along_on_board, bit, bit_at, file_open, hopped, lemma_along_on_board, lemma_ray_way,
    square_along, lemma_bit_ops, lemma_bits_equal, lemma_empty_bits,
    lemma_hopped_square, lemma_ray_stays_empty, lemma_slid_square, lemma_union_bits, mirror_index,
    ray_cover, ray_open, ray_stepped, reached, relative, single, slid, Pieces, RANK_2, RANK_7,
    SQUARE_A1, SQUARE_A8, SQUARE_B1, SQUARE_B8, SQUARE_C1, SQUARE_C8, SQUARE_D1, SQUARE_D8,
    SQUARE_E1, SQUARE_E8, SQUARE_F1, SQUARE_F8, SQUARE_G1, SQUARE_G8, SQUARE_H1, SQUARE_H8,
};
use crate::rules::{
    allowed, is_diagonal, carries, crossed_square, enters_empty, enters_enemy, file_change, is_empty,
    lemma_castling_only_when_allowed, lemma_generated_moves_allowed, lemma_legal_moves,
    lemma_moving_kind, lemma_view_empty, pawn_capture_rule, pawn_push_rule, piece_rule,
    rank_change, slides, slides_along, is_castling, is_king_step, is_knight_move,
    is_pawn_capture, is_pawn_double_push, is_pawn_push, is_piece_move, is_slider_move,
    lemma_carries, lemma_castle_move, lemma_pawn_push_rule, lemma_piece_rule, lemma_pseudo_moves,
    lemma_relative_bit, lemma_relative_square, lemma_relative_twice, lemma_relative_union,
    lemma_target, lemma_view_square, rights_sound, seen_index, steps_onto,
};
use crate::move_search::{
    attacked, blockers, castle_move, diagonal_reach, enemy_view, king_reach, knight_reach,
    legal_moves, may_castle, occupied_view, own_view, pawn_prey, pawn_reach, position_legal,
    pseudo_moves, straight_reach,
};
use crate::types::{
    Color, Direction, KnightHop, Move, PieceType, Position, Square, BISHOP_DIRECTIONS,
    KING_DIRECTIONS, KNIGHT_HOPS, ROOK_DIRECTIONS,
};
use crate::utils::{
    castling_rook_path, companion, en_passant_victim, initial_position, is_double_push,
    lemma_companion_squares, lemma_moved_consistent, lemma_moved_en_passant, lemma_moved_kings,
    lemma_moved_rights, lemma_moved_square, moved, moved_along, moving_kind, takes_en_passant,
    vacated,
};
use vstd::prelude::*;

verus! {

/// The direction on the board that the side to move sees as `dir`.
pub open spec fn dir_seen(dir: Direction, turn: Color) -> Direction {
    match turn {
        Color::White => dir,
        Color::Black => dir.mirrored(),
    }
}

/// The knight's jump on the board that the side to move sees as `kh`.
pub open spec fn hop_seen(kh: KnightHop, turn: Color) -> KnightHop {
    match turn {
        Color::White => kh,
        Color::Black => kh.mirrored(),
    }
}

/// A square reached on the board as a side sees it is the mirror image of
/// the square reached by the mirrored step on the board itself.
pub proof fn lemma_reached_seen(x: u64, dx: int, dy: int, turn: Color, t: int)
    requires
        0 <= t < 64,
    ensures
        reached(relative(x, turn), dx, dy, t) == reached(
            x,
            dx,
            match turn {
                Color::White => dy,
                Color::Black => -dy,
            },
            seen_index(turn, t),
        ),
{
    match turn {
        Color::White => {},
        Color::Black => {
            let u = mirror_index(t);
            assert(u % 8 == t % 8);
            assert(u / 8 == 7 - t / 8);
            let f = t % 8 - dx;
            let r = t / 8 - dy;
            if 0 <= f < 8 && 0 <= r < 8 {
                let s = r * 8 + f;
                assert(s % 8 == f);
                assert(s / 8 == r);
                lemma_relative_bit(x, turn, s);
                assert(mirror_index(s) == (7 - r) * 8 + f);
            }
        },
    }
}

/// A step taken on the board as a side sees it is the mirrored step on the
/// board itself.
pub proof fn lemma_slid_seen(x: u64, dir: Direction, turn: Color, t: int)
    requires
        0 <= t < 64,
    ensures
        bit_at(slid(relative(x, turn), dir, 1), t) == bit_at(
            slid(x, dir_seen(dir, turn), 1),
            seen_index(turn, t),
        ),
{
    let u = seen_index(turn, t);
    let other = dir_seen(dir, turn);
    lemma_relative_square(turn, t);
    lemma_slid_square(relative(x, turn), dir, 1, t);
    lemma_slid_square(x, other, 1, u);
    assert(dir.dx() * 1 == dir.dx() && dir.dy() * 1 == dir.dy());
    assert(other.dx() * 1 == other.dx() && other.dy() * 1 == other.dy());
    lemma_reached_seen(x, dir.dx(), dir.dy(), turn, t);
}

/// A knight's jump taken on the board as a side sees it is the mirrored jump
/// on the board itself.
pub proof fn lemma_hopped_seen(x: u64, kh: KnightHop, turn: Color, t: int)
    requires
        0 <= t < 64,
    ensures
        bit_at(hopped(relative(x, turn), kh), t) == bit_at(
            hopped(x, hop_seen(kh, turn)),
            seen_index(turn, t),
        ),
{
    let u = seen_index(turn, t);
    lemma_relative_square(turn, t);
    lemma_hopped_square(relative(x, turn), kh, t);
    lemma_hopped_square(x, hop_seen(kh, turn), u);
    lemma_reached_seen(x, kh.dx(), kh.dy(), turn, t);
}

/// How the squares of a union of eight sets read.
pub proof fn lemma_union_of_eight(
    a: u64,
    b: u64,
    c: u64,
    d: u64,
    e: u64,
    f: u64,
    g: u64,
    h: u64,
    i: int,
)
    requires
        0 <= i < 64,
    ensures
        bit_at(a | b | c | d | e | f | g | h, i) == (bit_at(a, i) || bit_at(b, i) || bit_at(c, i)
            || bit_at(d, i) || bit_at(e, i) || bit_at(f, i) || bit_at(g, i) || bit_at(h, i)),
{
    lemma_union_bits(a, b, c, d, e, i);
    lemma_bit_ops(a | b | c | d | e, f, i as u64, 0);
    lemma_bit_ops(a | b | c | d | e | f, g, i as u64, 0);
    lemma_bit_ops(a | b | c | d | e | f | g, h, i as u64, 0);
}

/// The squares a knight's jump away are those reached by one of the eight
/// jumps.
pub proof fn lemma_knight_reach(knights: u64, i: int)
    requires
        0 <= i < 64,
    ensures
        bit_at(knight_reach(knights), i) <==> exists|kh: KnightHop| #[trigger]
            bit_at(hopped(knights, kh), i),
{
    lemma_union_of_eight(
        hopped(knights, KnightHop::NNW),
        hopped(knights, KnightHop::NNE),
        hopped(knights, KnightHop::NWW),
        hopped(knights, KnightHop::NEE),
        hopped(knights, KnightHop::SSW),
        hopped(knights, KnightHop::SSE),
        hopped(knights, KnightHop::SWW),
        hopped(knights, KnightHop::SEE),
        i,
    );
    if bit_at(knight_reach(knights), i) {
        let kh = if bit_at(hopped(knights, KnightHop::NNW), i) {
            KnightHop::NNW
        } else if bit_at(hopped(knights, KnightHop::NNE), i) {
            KnightHop::NNE
        } else if bit_at(hopped(knights, KnightHop::NWW), i) {
            KnightHop::NWW
        } else if bit_at(hopped(knights, KnightHop::NEE), i) {
            KnightHop::NEE
        } else if bit_at(hopped(knights, KnightHop::SSW), i) {
            KnightHop::SSW
        } else if bit_at(hopped(knights, KnightHop::SSE), i) {
            KnightHop::SSE
        } else if bit_at(hopped(knights, KnightHop::SWW), i) {
            KnightHop::SWW
        } else {
            KnightHop::SEE
        };
        assert(bit_at(hopped(knights, kh), i));
    }
}

/// The squares next to the king are those reached by a step in one of the
/// eight directions.
pub proof fn lemma_king_reach(king: u64, i: int)
    requires
        0 <= i < 64,
    ensures
        bit_at(king_reach(king), i) <==> exists|dir: Direction| #[trigger]
            bit_at(slid(king, dir, 1), i),
{
    lemma_union_of_eight(
        slid(king, Direction::N, 1),
        slid(king, Direction::S, 1),
        slid(king, Direction::E, 1),
        slid(king, Direction::W, 1),
        slid(king, Direction::NW, 1),
        slid(king, Direction::NE, 1),
        slid(king, Direction::SW, 1),
        slid(king, Direction::SE, 1),
        i,
    );
    if bit_at(king_reach(king), i) {
        let dir = if bit_at(slid(king, Direction::N, 1), i) {
            Direction::N
        } else if bit_at(slid(king, Direction::S, 1), i) {
            Direction::S
        } else if bit_at(slid(king, Direction::E, 1), i) {
            Direction::E
        } else if bit_at(slid(king, Direction::W, 1), i) {
            Direction::W
        } else if bit_at(slid(king, Direction::NW, 1), i) {
            Direction::NW
        } else if bit_at(slid(king, Direction::NE, 1), i) {
            Direction::NE
        } else if bit_at(slid(king, Direction::SW, 1), i) {
            Direction::SW
        } else {
            Direction::SE
        };
        assert(bit_at(slid(king, dir, 1), i));
    }
}

/// The squares that sliding pieces reach are those that they reach along one
/// of the rays of their kind.
pub proof fn lemma_slider_reach(sliders: u64, free: u64, i: int)
    requires
        0 <= i < 64,
    ensures
        bit_at(diagonal_reach(sliders, free), i) <==> exists|dir: Direction|
            is_diagonal(dir) && #[trigger] bit_at(ray_cover(sliders, dir, free, 7), i),
        bit_at(straight_reach(sliders, free), i) <==> exists|dir: Direction|
            !is_diagonal(dir) && #[trigger] bit_at(ray_cover(sliders, dir, free, 7), i),
{
    let nw = ray_cover(sliders, Direction::NW, free, 7);
    let ne = ray_cover(sliders, Direction::NE, free, 7);
    let sw = ray_cover(sliders, Direction::SW, free, 7);
    let se = ray_cover(sliders, Direction::SE, free, 7);
    let n = ray_cover(sliders, Direction::N, free, 7);
    let s = ray_cover(sliders, Direction::S, free, 7);
    let e = ray_cover(sliders, Direction::E, free, 7);
    let w = ray_cover(sliders, Direction::W, free, 7);
    lemma_bit_ops(nw, ne, i as u64, 0);
    lemma_bit_ops(nw | ne, sw, i as u64, 0);
    lemma_bit_ops(nw | ne | sw, se, i as u64, 0);
    lemma_bit_ops(n, s, i as u64, 0);
    lemma_bit_ops(n | s, e, i as u64, 0);
    lemma_bit_ops(n | s | e, w, i as u64, 0);
    if bit_at(diagonal_reach(sliders, free), i) {
        let dir = if bit_at(nw, i) {
            Direction::NW
        } else if bit_at(ne, i) {
            Direction::NE
        } else if bit_at(sw, i) {
            Direction::SW
        } else {
            Direction::SE
        };
        assert(is_diagonal(dir) && bit_at(ray_cover(sliders, dir, free, 7), i));
    }
    if bit_at(straight_reach(sliders, free), i) {
        let dir = if bit_at(n, i) {
            Direction::N
        } else if bit_at(s, i) {
            Direction::S
        } else if bit_at(e, i) {
            Direction::E
        } else {
            Direction::W
        };
        assert(!is_diagonal(dir) && bit_at(ray_cover(sliders, dir, free, 7), i));
    }
}

/// What a ray holds after some steps is among the squares that the ray
/// covers.
pub proof fn lemma_ray_cover_has(origin: u64, dir: Direction, free: u64, k: nat, n: nat, i: int)
    requires
        1 <= k <= n,
        0 <= i < 64,
        bit_at(ray_open(origin, dir, free, k), i),
    ensures
        bit_at(ray_cover(origin, dir, free, n), i),
    decreases n,
{
    lemma_bit_ops(
        ray_cover(origin, dir, free, (n - 1) as nat),
        ray_open(origin, dir, free, n),
        i as u64,
        0,
    );
    if k < n {
        lemma_ray_cover_has(origin, dir, free, k, (n - 1) as nat, i);
    }
}

/// A square that a ray covers is held by the ray after some steps.
pub proof fn lemma_ray_cover_from(origin: u64, dir: Direction, free: u64, n: nat, i: int) -> (k:
    nat)
    requires
        0 <= i < 64,
        bit_at(ray_cover(origin, dir, free, n), i),
    ensures
        1 <= k <= n,
        bit_at(ray_open(origin, dir, free, k), i),
    decreases n,
{
    if n == 0 {
        lemma_bit_ops(0, 0, i as u64, 0);
        0
    } else {
        lemma_bit_ops(
            ray_cover(origin, dir, free, (n - 1) as nat),
            ray_open(origin, dir, free, n),
            i as u64,
            0,
        );
        if bit_at(ray_open(origin, dir, free, n), i) {
            n
        } else {
            lemma_ray_cover_from(origin, dir, free, (n - 1) as nat, i)
        }
    }
}

/// The squares that bar an attack on the king are occupied, and the square of
/// that king is not among them.
pub proof fn lemma_blockers(p: Position, i: int)
    requires
        0 <= i < 64,
    ensures
        bit_at(blockers(p), i) ==> bit_at(p.own().occupied(), i) || bit_at(
            p.opposing().occupied(),
            i,
        ),
        p.consistent() && bit_at(p.opposing().king, i) ==> !bit_at(blockers(p), i),
        bit_at(p.own().occupied(), i) ==> bit_at(blockers(p), i),
        !bit_at(blockers(p), i) && !bit_at(p.opposing().king, i) ==> is_empty(p, i),
{
    let own = p.own();
    let opp = p.opposing();
    lemma_union_bits(own.occupied(), opp.queens, opp.rooks, opp.bishops, opp.knights, i);
    lemma_bit_ops(
        own.occupied() | opp.queens | opp.rooks | opp.bishops | opp.knights,
        opp.pawns,
        i as u64,
        0,
    );
    own.lemma_square(i);
    opp.lemma_square(i);
    if p.consistent() {
        assert(p.pieces_at(i) <= 1);
    }
}

/// A square that the side to move sees as empty bars no attack.
pub proof fn lemma_empty_is_free(p: Position, j: int)
    requires
        0 <= j < 64,
        bit_at(!occupied_view(p), j),
    ensures
        bit_at(!blockers(p), seen_index(p.turn, j)),
{
    let u = seen_index(p.turn, j);
    lemma_relative_square(p.turn, j);
    lemma_bit_ops(occupied_view(p), 0, j as u64, 0);
    lemma_bit_ops(own_view(p).occupied(), enemy_view(p), j as u64, 0);
    lemma_view_square(p.own(), p.turn, j);
    lemma_relative_bit(p.opposing().occupied(), p.turn, j);
    lemma_blockers(p, u);
    lemma_bit_ops(blockers(p), 0, u as u64, 0);
}

/// A ray that the move generator follows over empty squares stays within the
/// ray that an attack follows over squares free of blockers.
pub proof fn lemma_ray_seen(p: Position, origin: u64, dir: Direction, k: nat, s: int)
    requires
        0 <= s < 64,
        bit_at(ray_open(relative(origin, p.turn), dir, !occupied_view(p), k), s),
    ensures
        bit_at(
            ray_open(origin, dir_seen(dir, p.turn), !blockers(p), k),
            seen_index(p.turn, s),
        ),
    decreases k,
{
    let seen = relative(origin, p.turn);
    let free = !occupied_view(p);
    let other = dir_seen(dir, p.turn);
    lemma_relative_square(p.turn, s);
    if k == 0 {
        lemma_relative_bit(origin, p.turn, s);
    } else {
        let before = ray_open(seen, dir, free, (k - 1) as nat);
        lemma_bit_ops(slid(before, dir, 1), free, s as u64, 0);
        lemma_stepped_seen(p, origin, dir, k, s);
        lemma_empty_is_free(p, s);
        lemma_bit_ops(
            ray_stepped(origin, other, !blockers(p), k),
            !blockers(p),
            seen_index(p.turn, s) as u64,
            0,
        );
    }
}

/// The same for the square that a ray enters with its last step.
pub proof fn lemma_stepped_seen(p: Position, origin: u64, dir: Direction, k: nat, t: int)
    requires
        k >= 1,
        0 <= t < 64,
        bit_at(ray_stepped(relative(origin, p.turn), dir, !occupied_view(p), k), t),
    ensures
        bit_at(
            ray_stepped(origin, dir_seen(dir, p.turn), !blockers(p), k),
            seen_index(p.turn, t),
        ),
    decreases k, 0int,
{
    let seen = relative(origin, p.turn);
    let free = !occupied_view(p);
    let other = dir_seen(dir, p.turn);
    let before = ray_open(seen, dir, free, (k - 1) as nat);
    let before_a = ray_open(origin, other, !blockers(p), (k - 1) as nat);
    let u = seen_index(p.turn, t);
    lemma_relative_square(p.turn, t);
    lemma_slid_square(before, dir, 1, t);
    lemma_slid_square(before_a, other, 1, u);
    assert(dir.dx() * 1 == dir.dx() && dir.dy() * 1 == dir.dy());
    assert(other.dx() * 1 == other.dx() && other.dy() * 1 == other.dy());
    let f = t % 8 - dir.dx();
    let r = t / 8 - dir.dy();
    let src = r * 8 + f;
    assert(src % 8 == f && src / 8 == r);
    if k > 1 {
        lemma_ray_seen(p, origin, dir, (k - 1) as nat, src);
    } else {
        lemma_relative_bit(origin, p.turn, src);
    }
    lemma_relative_square(p.turn, src);
    match p.turn {
        Color::White => {},
        Color::Black => {
            assert(u % 8 == t % 8);
            assert(u / 8 == 7 - t / 8);
            assert(mirror_index(src) == (7 - r) * 8 + f);
        },
    }
}

/// How the squares of the attacked set read.
pub proof fn lemma_attacked(p: Position, i: int)
    requires
        0 <= i < 64,
    ensures
        bit_at(attacked(p), i) == (bit_at(knight_reach(p.own().knights), i) || bit_at(
            diagonal_reach(p.own().bishops | p.own().queens, !blockers(p)),
            i,
        ) || bit_at(straight_reach(p.own().rooks | p.own().queens, !blockers(p)), i) || bit_at(
            pawn_reach(p.own().pawns, p.turn),
            i,
        ) || bit_at(king_reach(p.own().king), i)),
        position_legal(p) && bit_at(attacked(p), i) ==> !bit_at(p.opposing().king, i),
{
    reveal(position_legal);
    lemma_union_bits(
        knight_reach(p.own().knights),
        diagonal_reach(p.own().bishops | p.own().queens, !blockers(p)),
        straight_reach(p.own().rooks | p.own().queens, !blockers(p)),
        pawn_reach(p.own().pawns, p.turn),
        king_reach(p.own().king),
        i,
    );
    lemma_bit_ops(attacked(p), p.opposing().king, i as u64, 0);
    lemma_empty_bits(attacked(p) & p.opposing().king);
}

/// A knight's move that the generator gives enters a square that the knights
/// attack.
pub proof fn lemma_knight_attacks(p: Position, mask: u64, m: Move)
    requires
        is_knight_move(p, mask, m),
    ensures
        bit_at(knight_reach(p.own().knights), m.to_square.idx()),
{
    let knights = own_view(p).knights;
    let i = choose|i: int|
        0 <= i < 8 && #[trigger] steps_onto(
            hopped(knights, KNIGHT_HOPS[i]) & mask,
            KNIGHT_HOPS[i].dx(),
            KNIGHT_HOPS[i].dy(),
            p.turn,
            false,
            m,
        );
    let kh = KNIGHT_HOPS[i];
    let targets = hopped(knights, kh) & mask;
    lemma_view_square(p.own(), p.turn, 0);
    assert forall|t: int| 0 <= t < 64 && bit_at(targets, t) implies #[trigger] reached(
        relative(p.own().knights, p.turn),
        kh.dx(),
        kh.dy(),
        t,
    ) by {
        lemma_bit_ops(hopped(knights, kh), mask, t as u64, 0);
        lemma_hopped_square(knights, kh, t);
    }
    lemma_carries(p.own().knights, targets, kh.dx(), kh.dy(), p.turn, false, m);
    let t = m.to_square.relative(p.turn).idx();
    Square::lemma_idx_at(m.to_square.relative(p.turn));
    Square::lemma_idx_at(m.to_square);
    lemma_relative_twice(m.to_square, p.turn);
    lemma_relative_square(p.turn, m.to_square.idx());
    lemma_bit_ops(hopped(knights, kh), mask, t as u64, 0);
    lemma_hopped_seen(p.own().knights, kh, p.turn, t);
    lemma_knight_reach(p.own().knights, m.to_square.idx());
    assert(bit_at(hopped(p.own().knights, hop_seen(kh, p.turn)), m.to_square.idx()));
}

/// A king's step that the generator gives enters a square next to the king.
pub proof fn lemma_king_attacks(p: Position, mask: u64, m: Move)
    requires
        is_king_step(p, mask, m),
    ensures
        bit_at(king_reach(p.own().king), m.to_square.idx()),
{
    let king = own_view(p).king;
    let i = choose|i: int|
        0 <= i < 8 && #[trigger] steps_onto(
            slid(king, KING_DIRECTIONS[i], 1) & mask,
            KING_DIRECTIONS[i].dx(),
            KING_DIRECTIONS[i].dy(),
            p.turn,
            false,
            m,
        );
    let dir = KING_DIRECTIONS[i];
    let targets = slid(king, dir, 1) & mask;
    lemma_view_square(p.own(), p.turn, 0);
    assert forall|t: int| 0 <= t < 64 && bit_at(targets, t) implies #[trigger] reached(
        relative(p.own().king, p.turn),
        dir.dx(),
        dir.dy(),
        t,
    ) by {
        lemma_bit_ops(slid(king, dir, 1), mask, t as u64, 0);
        lemma_slid_square(king, dir, 1, t);
    }
    lemma_carries(p.own().king, targets, dir.dx(), dir.dy(), p.turn, false, m);
    let t = m.to_square.relative(p.turn).idx();
    Square::lemma_idx_at(m.to_square.relative(p.turn));
    Square::lemma_idx_at(m.to_square);
    lemma_relative_twice(m.to_square, p.turn);
    lemma_relative_square(p.turn, m.to_square.idx());
    lemma_bit_ops(slid(king, dir, 1), mask, t as u64, 0);
    lemma_slid_seen(p.own().king, dir, p.turn, t);
    lemma_king_reach(p.own().king, m.to_square.idx());
    assert(bit_at(slid(p.own().king, dir_seen(dir, p.turn), 1), m.to_square.idx()));
}

/// A pawn's capture that the generator gives enters a square on which the
/// pawns capture.
pub proof fn lemma_pawn_attacks(p: Position, m: Move)
    requires
        is_pawn_capture(p, m),
    ensures
        bit_at(pawn_reach(p.own().pawns, p.turn), m.to_square.idx()),
{
    let pawns = own_view(p).pawns;
    let prey = pawn_prey(p);
    let west = slid(pawns, Direction::NW, 1) & prey;
    let is_west = steps_onto(west, -1, 1, p.turn, true, m);
    let dir = if is_west {
        Direction::NW
    } else {
        Direction::NE
    };
    let dx: int = if is_west {
        -1
    } else {
        1
    };
    let targets = slid(pawns, dir, 1) & prey;
    lemma_view_square(p.own(), p.turn, 0);
    assert forall|t: int| 0 <= t < 64 && bit_at(targets, t) implies #[trigger] reached(
        relative(p.own().pawns, p.turn),
        dx,
        1,
        t,
    ) by {
        lemma_bit_ops(slid(pawns, dir, 1), prey, t as u64, 0);
        lemma_slid_square(pawns, dir, 1, t);
    }
    lemma_carries(p.own().pawns, targets, dx, 1, p.turn, true, m);
    let t = m.to_square.relative(p.turn).idx();
    let u = m.to_square.idx();
    Square::lemma_idx_at(m.to_square.relative(p.turn));
    Square::lemma_idx_at(m.to_square);
    lemma_relative_twice(m.to_square, p.turn);
    lemma_relative_square(p.turn, m.to_square.idx());
    lemma_bit_ops(slid(pawns, dir, 1), prey, t as u64, 0);
    lemma_slid_seen(p.own().pawns, dir, p.turn, t);
    let own = p.own().pawns;
    lemma_bit_ops(slid(own, Direction::NW, 1), slid(own, Direction::NE, 1), u as u64, 0);
    lemma_bit_ops(slid(own, Direction::SW, 1), slid(own, Direction::SE, 1), u as u64, 0);
}

/// A move along a ray that the generator gives onto the square of the other
/// side's king enters a square that the sliding pieces attack.
pub proof fn lemma_slider_attacks(
    p: Position,
    origin: u64,
    dirs: [Direction; 4],
    mask: u64,
    m: Move,
) -> (r: Direction)
    requires
        p.consistent(),
        is_slider_move(p, relative(origin, p.turn), dirs, mask, m),
        bit_at(p.opposing().king, m.to_square.idx()),
    ensures
        exists|i: int| 0 <= i < 4 && r == dir_seen(dirs[i], p.turn),
        bit_at(ray_cover(origin, r, !blockers(p), 7), m.to_square.idx()),
{
    let seen = relative(origin, p.turn);
    let free = !occupied_view(p);
    let (i, d) = choose|i: int, d: int|
        0 <= i < 4 && 1 <= d <= 7 && #[trigger] steps_onto(
            ray_stepped(seen, dirs[i], free, d as nat) & mask,
            dirs[i].dx() * d,
            dirs[i].dy() * d,
            p.turn,
            false,
            m,
        );
    let dir = dirs[i];
    let stepped = ray_stepped(seen, dir, free, d as nat);
    let targets = stepped & mask;
    assert forall|t: int| 0 <= t < 64 && bit_at(targets, t) implies #[trigger] reached(
        seen,
        dir.dx() * d,
        dir.dy() * d,
        t,
    ) by {
        lemma_bit_ops(stepped, mask, t as u64, 0);
        crate::bitboard::lemma_ray_square(seen, dir, free, d as nat, t);
    }
    lemma_carries(origin, targets, dir.dx() * d, dir.dy() * d, p.turn, false, m);
    let t = m.to_square.relative(p.turn).idx();
    let u = m.to_square.idx();
    Square::lemma_idx_at(m.to_square.relative(p.turn));
    Square::lemma_idx_at(m.to_square);
    lemma_relative_twice(m.to_square, p.turn);
    lemma_relative_square(p.turn, u);
    lemma_bit_ops(stepped, mask, t as u64, 0);
    lemma_stepped_seen(p, origin, dir, d as nat, t);
    let other = dir_seen(dir, p.turn);
    lemma_blockers(p, u);
    lemma_bit_ops(blockers(p), 0, u as u64, 0);
    lemma_bit_ops(ray_stepped(origin, other, !blockers(p), d as nat), !blockers(p), u as u64, 0);
    lemma_ray_cover_has(origin, other, !blockers(p), d as nat, 7, u);
    other
}

/// The generator gives no move that takes a king, where no king can be
/// taken: in a position in which no square holds two pieces and the side to
/// move cannot take the other side's king, no move that the generator gives
/// enters the square of that king.
pub proof fn lemma_no_king_capture(p: Position, m: Move)
    requires
        p.consistent(),
        position_legal(p),
        pseudo_moves(p).contains(m),
    ensures
        !bit_at(p.opposing().king, m.to_square.idx()),
{
    let u = m.to_square.idx();
    Square::lemma_idx_at(m.to_square);
    lemma_pseudo_moves(p, m);
    lemma_attacked(p, u);
    let e = enemy_view(p);
    let free = !occupied_view(p);
    p.opposing().lemma_square(u);
    if bit_at(p.opposing().king, u) {
        assert(enters_enemy(p, m));
        if is_pawn_capture(p, m) {
            lemma_pawn_attacks(p, m);
        } else if is_pawn_push(p, m) || is_pawn_double_push(p, m) {
            lemma_pawn_push_rule(p, m);
        } else if is_castling(p, m) {
            lemma_castling_target_empty(p, m);
        } else {
            let mask = if is_piece_move(p, e, m) {
                e
            } else {
                free
            };
            if is_knight_move(p, mask, m) {
                lemma_knight_attacks(p, mask, m);
            } else if is_king_step(p, mask, m) {
                lemma_king_attacks(p, mask, m);
            } else {
                let own = p.own();
                lemma_view_square(own, p.turn, 0);
                lemma_relative_union(own.bishops, own.queens, p.turn);
                lemma_relative_union(own.rooks, own.queens, p.turn);
                if is_slider_move(
                    p,
                    own_view(p).bishops | own_view(p).queens,
                    BISHOP_DIRECTIONS,
                    mask,
                    m,
                ) {
                    let dir = lemma_slider_attacks(
                        p,
                        own.bishops | own.queens,
                        BISHOP_DIRECTIONS,
                        mask,
                        m,
                    );
                    lemma_slider_reach(own.bishops | own.queens, !blockers(p), u);
                    assert(is_diagonal(dir));
                } else {
                    let dir = lemma_slider_attacks(
                        p,
                        own.rooks | own.queens,
                        ROOK_DIRECTIONS,
                        mask,
                        m,
                    );
                    lemma_slider_reach(own.rooks | own.queens, !blockers(p), u);
                    assert(!is_diagonal(dir));
                }
            }
        }
    }
}

proof fn lemma_castle_masks(occupied: u64, i: u64)
    by (bit_vector)
    requires
        i < 64,
    ensures
        occupied & 0x0Eu64 == 0 && 1 <= i <= 3 ==> !bit(occupied, i),
        occupied & 0x60u64 == 0 && 5 <= i <= 6 ==> !bit(occupied, i),
{
}

/// A castling move that may be made enters an empty square, and the square
/// that the king crosses is empty.
pub proof fn lemma_castling_target_empty(p: Position, m: Move)
    requires
        is_castling(p, m),
    ensures
        enters_empty(p, m),
{
    let long = choose|long: bool| #[trigger] may_castle(p, long) && m == castle_move(p.turn, long);
    lemma_castle_move(p.turn, long);
    lemma_target(p, m);
    let t: int = if long {
        2
    } else {
        6
    };
    assert(m.to_square.relative(p.turn).idx() == t);
    lemma_castle_masks(occupied_view(p), t as u64);
    lemma_bit_ops(occupied_view(p), 0, t as u64, 0);
}

/// The files open to en-passant capture fit the pieces: on each of them a
/// pawn of the side that has just moved stands on the fifth rank, as the side
/// to move counts, and the square behind it on the sixth rank is empty.
pub open spec fn en_passant_sound(p: Position) -> bool {
    forall|f: int| #[trigger]
        file_open(p.en_passant, f) ==> bit_at(p.opposing().pawns, seen_index(p.turn, 32 + f))
            && is_empty(p, seen_index(p.turn, 40 + f))
}

/// What holds of every position that a game reaches: no square holds two
/// pieces, each side has exactly one king, castling rights and en-passant
/// files fit the pieces, and the side to move cannot take the other side's
/// king.
pub open spec fn playable(p: Position) -> bool {
    &&& p.consistent()
    &&& p.one_king_each()
    &&& rights_sound(p)
    &&& en_passant_sound(p)
    &&& position_legal(p)
}

/// The square entered by a move, as a number the side to move counts.
pub proof fn lemma_seen_squares(m: Move, turn: Color)
    ensures
        m.to_square.idx() == seen_index(turn, m.to_square.relative(turn).idx()),
        m.from_square.idx() == seen_index(turn, m.from_square.relative(turn).idx()),
        0 <= m.to_square.idx() < 64,
        0 <= m.from_square.idx() < 64,
        0 <= m.to_square.relative(turn).idx() < 64,
        0 <= m.from_square.relative(turn).idx() < 64,
        m.to_square.relative(turn).idx() == m.to_square.relative(turn).rank() * 8
            + m.to_square.file(),
        m.from_square.relative(turn).idx() == m.from_square.relative(turn).rank() * 8
            + m.from_square.file(),
        m.to_square.relative(turn).file() == m.to_square.file(),
        m.from_square.relative(turn).file() == m.from_square.file(),
{
    Square::lemma_idx_at(m.to_square);
    Square::lemma_idx_at(m.from_square);
    Square::lemma_idx_at(m.to_square.relative(turn));
    Square::lemma_idx_at(m.from_square.relative(turn));
    lemma_relative_twice(m.to_square, turn);
    lemma_relative_twice(m.from_square, turn);
    lemma_relative_twice(m.to_square.relative(turn), turn);
    lemma_relative_twice(m.from_square.relative(turn), turn);
}

/// The pawn that an en-passant capture removes is a pawn of the other side.
pub proof fn lemma_en_passant_victim(p: Position, m: Move)
    requires
        en_passant_sound(p),
        takes_en_passant(p, m),
    ensures
        0 <= en_passant_victim(p, m) < 64,
        bit_at(p.opposing().pawns, en_passant_victim(p, m)),
        is_empty(p, m.to_square.idx()),
{
    let f = m.to_square.file();
    lemma_seen_squares(m, p.turn);
    assert(file_open(p.en_passant, f));
    assert(m.to_square.relative(p.turn).idx() == 40 + f);
}

/// The generator moves pieces of the side to move, and castles with the
/// king.
pub proof fn lemma_move_source(p: Position, m: Move)
    requires
        p.consistent(),
        rights_sound(p),
        pseudo_moves(p).contains(m),
    ensures
        moving_kind(p, m) != PieceType::Null,
        allowed(p, m),
        is_castling(p, m) ==> moving_kind(p, m) == PieceType::King && enters_empty(p, m),
        moving_kind(p, m) == PieceType::Pawn ==> pawn_capture_rule(p, m) || pawn_push_rule(p, m),
        moving_kind(p, m) == PieceType::King ==> is_castling(p, m) || (piece_rule(p, m) && -1
            <= file_change(m) <= 1),
        moving_kind(p, m) != PieceType::Pawn ==> is_castling(p, m) || piece_rule(p, m),
{
    lemma_generated_moves_allowed(p, m);
    lemma_moving_kind(p, m);
    lemma_seen_squares(m, p.turn);
    let f = m.from_square.idx();
    let own = p.own();
    lemma_bit_ops(own.bishops, own.queens, f as u64, 0);
    lemma_bit_ops(own.rooks, own.queens, f as u64, 0);
    own.lemma_square(f);
    assert(own.king == own.of_kind(PieceType::King));
    assert(own.queens == own.of_kind(PieceType::Queen));
    assert(own.rooks == own.of_kind(PieceType::Rook));
    assert(own.bishops == own.of_kind(PieceType::Bishop));
    assert(own.knights == own.of_kind(PieceType::Knight));
    assert(own.pawns == own.of_kind(PieceType::Pawn));
    if is_castling(p, m) {
        let long = choose|long: bool| #[trigger] may_castle(p, long) && m == castle_move(
            p.turn,
            long,
        );
        lemma_castle_move(p.turn, long);
        lemma_castling_target_empty(p, m);
    }
}

/// The generator gives no move onto a piece of the mover's own side or onto
/// a king.
pub proof fn lemma_move_target(p: Position, m: Move)
    requires
        p.consistent(),
        rights_sound(p),
        en_passant_sound(p),
        position_legal(p),
        pseudo_moves(p).contains(m),
    ensures
        !bit_at(p.own().occupied(), m.to_square.idx()),
        !bit_at(p.opposing().king, m.to_square.idx()),
        !bit_at(p.own().king, m.to_square.idx()),
        m.to_square.idx() != m.from_square.idx(),
{
    lemma_move_source(p, m);
    lemma_no_king_capture(p, m);
    lemma_moving_kind(p, m);
    lemma_seen_squares(m, p.turn);
    let t = m.to_square.idx();
    let f = m.from_square.idx();
    p.own().lemma_square(t);
    p.own().lemma_square(f);
    p.opposing().lemma_square(t);
    assert(p.pieces_at(t) <= 1);
    if pawn_capture_rule(p, m) && !enters_enemy(p, m) {
        assert(file_open(p.en_passant, m.to_square.file()));
        assert(m.to_square.relative(p.turn).idx() == 40 + m.to_square.file());
    }
}

/// The piece that goes along with a castling king is the rook of that side
/// of the board, and the square that it enters is empty.
pub proof fn lemma_castling_rook(p: Position, m: Move)
    requires
        p.consistent(),
        rights_sound(p),
        pseudo_moves(p).contains(m),
        companion(p, m).0 != PieceType::Null,
    ensures
        is_castling(p, m),
        companion(p, m).0 == PieceType::Rook,
        castling_rook_path(m) matches Some(path) && bit_at(p.own().rooks, path.0.idx())
            && is_empty(p, path.1.idx()),
{
    lemma_companion_squares(p, m, 0);
    lemma_seen_squares(m, p.turn);
    lemma_castling_only_when_allowed(p, m);
    let long = choose|long: bool| #[trigger] may_castle(p, long) && m == castle_move(p.turn, long);
    lemma_castle_move(p.turn, long);
    let path = castling_rook_path(m).unwrap();
    let crossed: int = if long {
        3
    } else {
        5
    };
    lemma_castle_masks(occupied_view(p), crossed as u64);
    lemma_view_empty(p, crossed);
    lemma_relative_square(p.turn, crossed);
    Square::lemma_idx_at(path.0);
    Square::lemma_idx_at(path.1);
    p.own().lemma_square(path.0.idx());
    assert(p.pieces_at(path.0.idx()) <= 1);
    assert(p.own().rooks == p.own().of_kind(PieceType::Rook));
}

/// What a move that the generator gives in a playable position empties: the
/// square left, which held the moving piece, and squares that held no king.
pub proof fn lemma_vacated_kings(p: Position, m: Move, i: int)
    requires
        playable(p),
        pseudo_moves(p).contains(m),
        0 <= i < 64,
        bit_at(vacated(p, m), i),
        bit_at(p.white.king, i) || bit_at(p.black.king, i),
    ensures
        i == m.from_square.idx(),
        moving_kind(p, m) == PieceType::King,
{
    lemma_move_source(p, m);
    lemma_move_target(p, m);
    lemma_moving_kind(p, m);
    lemma_moved_square(p, m, i);
    lemma_companion_squares(p, m, i);
    lemma_seen_squares(m, p.turn);
    let own = p.own();
    let opp = p.opposing();
    assert(bit_at(own.king, i) || bit_at(opp.king, i));
    assert(p.pieces_at(i) <= 1);
    own.lemma_square(i);
    opp.lemma_square(i);
    assert(own.king == own.of_kind(PieceType::King));
    if i == m.from_square.idx() {
    } else if i == m.to_square.idx() {
    } else if takes_en_passant(p, m) && i == en_passant_victim(p, m) {
        lemma_en_passant_victim(p, m);
    } else {
        lemma_castling_rook(p, m);
        let path = castling_rook_path(m).unwrap();
    }
}

/// A move that the generator gives in a playable position leaves each side
/// with exactly one king.
pub proof fn lemma_playable_kings(p: Position, m: Move)
    requires
        playable(p),
        pseudo_moves(p).contains(m),
    ensures
        moved(p, m).one_king_each(),
{
    assert forall|i: int|
        0 <= i < 64 && #[trigger] bit_at(vacated(p, m), i) && (bit_at(p.white.king, i) || bit_at(
            p.black.king,
            i,
        )) implies i == m.from_square.idx() && moving_kind(p, m) == PieceType::King by {
        lemma_vacated_kings(p, m, i);
    }
    lemma_moving_kind(p, m);
    lemma_seen_squares(m, p.turn);
    let f = m.from_square.idx();
    assert(p.pieces_at(f) <= 1);
    p.own().lemma_square(f);
    p.opposing().lemma_square(f);
    lemma_moved_kings(p, m);
}

/// A piece of the side to move that neither moves nor is removed stays where
/// it is.
pub proof fn lemma_own_piece_stays(p: Position, m: Move, kind: PieceType, i: int)
    requires
        playable(p),
        pseudo_moves(p).contains(m),
        0 <= i < 64,
        kind != PieceType::Null,
        bit_at(p.own().of_kind(kind), i),
        i != m.from_square.idx(),
        kind == PieceType::Rook ==> moving_kind(p, m) != PieceType::King,
    ensures
        bit_at(moved(p, m).pieces(p.turn).of_kind(kind), i),
{
    lemma_move_source(p, m);
    lemma_move_target(p, m);
    lemma_moved_square(p, m, i);
    lemma_companion_squares(p, m, i);
    lemma_seen_squares(m, p.turn);
    let own = p.own();
    let opp = p.opposing();
    assert(p.pieces_at(i) <= 1);
    own.lemma_square(i);
    opp.lemma_square(i);
    assert(own.pawns == own.of_kind(PieceType::Pawn));
    assert(opp.pawns == opp.of_kind(PieceType::Pawn));
    if takes_en_passant(p, m) {
        lemma_en_passant_victim(p, m);
    }
    if companion(p, m).0 != PieceType::Null {
        lemma_castling_rook(p, m);
        let path = castling_rook_path(m).unwrap();
        assert(own.rooks == own.of_kind(PieceType::Rook));
    }
}

/// A piece of the side not to move that is not taken stays where it is.
pub proof fn lemma_other_piece_stays(p: Position, m: Move, kind: PieceType, i: int)
    requires
        playable(p),
        pseudo_moves(p).contains(m),
        0 <= i < 64,
        kind != PieceType::Null,
        bit_at(p.opposing().of_kind(kind), i),
        i != m.to_square.idx(),
        kind != PieceType::Pawn,
    ensures
        bit_at(moved(p, m).pieces(p.turn.other()).of_kind(kind), i),
{
    lemma_move_source(p, m);
    lemma_move_target(p, m);
    lemma_moving_kind(p, m);
    lemma_moved_square(p, m, i);
    lemma_companion_squares(p, m, i);
    lemma_seen_squares(m, p.turn);
    let own = p.own();
    let opp = p.opposing();
    assert(p.pieces_at(i) <= 1);
    own.lemma_square(i);
    opp.lemma_square(i);
    own.lemma_square(m.from_square.idx());
    assert(own.pawns == own.of_kind(PieceType::Pawn));
    assert(opp.pawns == opp.of_kind(PieceType::Pawn));
    assert(opp.king == opp.of_kind(PieceType::King));
    assert(opp.queens == opp.of_kind(PieceType::Queen));
    assert(opp.rooks == opp.of_kind(PieceType::Rook));
    assert(opp.bishops == opp.of_kind(PieceType::Bishop));
    assert(opp.knights == opp.of_kind(PieceType::Knight));
    if takes_en_passant(p, m) {
        lemma_en_passant_victim(p, m);
    }
    if companion(p, m).0 != PieceType::Null {
        lemma_castling_rook(p, m);
        let path = castling_rook_path(m).unwrap();
        assert(own.rooks == own.of_kind(PieceType::Rook));
    }
}

/// The square that holds the king of side `c` before it has moved.
pub open spec fn king_home(c: Color) -> int {
    match c {
        Color::White => 4,
        Color::Black => 60,
    }
}

/// The corner that holds the rook of side `c` for castling on one side of
/// the board.
pub open spec fn rook_home(c: Color, long: bool) -> int {
    match (c, long) {
        (Color::White, true) => 0,
        (Color::White, false) => 7,
        (Color::Black, true) => 56,
        (Color::Black, false) => 63,
    }
}

/// Whether king and rook of side `c` stand on their first squares for
/// castling on one side of the board.
pub open spec fn at_home(p: Position, c: Color, long: bool) -> bool {
    bit_at(p.pieces(c).king, king_home(c)) && bit_at(p.pieces(c).rooks, rook_home(c, long))
}

/// A castling right that is held after a move that the generator gives in a
/// playable position still finds king and rook at home.
pub proof fn lemma_right_kept(p: Position, m: Move, c: Color, long: bool)
    requires
        playable(p),
        pseudo_moves(p).contains(m),
        if long {
            moved(p, m).castling.long(c)
        } else {
            moved(p, m).castling.short(c)
        },
    ensures
        at_home(moved(p, m), c, long),
{
    reveal(moved);
    lemma_moved_rights(p, m);
    lemma_move_source(p, m);
    lemma_move_target(p, m);
    lemma_moving_kind(p, m);
    lemma_seen_squares(m, p.turn);
    let q = moved(p, m);
    let e = king_home(c);
    let r = rook_home(c, long);
    let own = p.own();
    let opp = p.opposing();
    assert(at_home(p, c, long));
    assert(own.king == own.of_kind(PieceType::King));
    assert(own.rooks == own.of_kind(PieceType::Rook));
    assert(opp.king == opp.of_kind(PieceType::King));
    assert(opp.rooks == opp.of_kind(PieceType::Rook));
    let f = m.from_square.idx();
    let t = m.to_square.idx();
    assert(p.pieces_at(f) <= 1);
    own.lemma_square(f);
    if c == p.turn {
        assert(moving_kind(p, m) != PieceType::King);
        lemma_own_piece_stays(p, m, PieceType::King, e);
        lemma_own_piece_stays(p, m, PieceType::Rook, r);
        assert(q.pieces(c).king == q.pieces(c).of_kind(PieceType::King));
        assert(q.pieces(c).rooks == q.pieces(c).of_kind(PieceType::Rook));
    } else {
        crate::bitboard::lemma_meets_square(opp.rooks, t);
        lemma_other_piece_stays(p, m, PieceType::King, e);
        lemma_other_piece_stays(p, m, PieceType::Rook, r);
        assert(q.pieces(c).king == q.pieces(c).of_kind(PieceType::King));
        assert(q.pieces(c).rooks == q.pieces(c).of_kind(PieceType::Rook));
    }
}

/// A move that the generator gives in a playable position leaves the
/// castling rights fitting the pieces.
pub proof fn lemma_playable_rights(p: Position, m: Move)
    requires
        playable(p),
        pseudo_moves(p).contains(m),
    ensures
        rights_sound(moved(p, m)),
{
    let q = moved(p, m);
    if q.castling.white_long {
        lemma_right_kept(p, m, Color::White, true);
    }
    if q.castling.white_short {
        lemma_right_kept(p, m, Color::White, false);
    }
    if q.castling.black_long {
        lemma_right_kept(p, m, Color::Black, true);
    }
    if q.castling.black_short {
        lemma_right_kept(p, m, Color::Black, false);
    }
}

/// A move that the generator gives in a playable position leaves the
/// en-passant files fitting the pieces.
pub proof fn lemma_playable_en_passant(p: Position, m: Move)
    requires
        playable(p),
        pseudo_moves(p).contains(m),
    ensures
        en_passant_sound(moved(p, m)),
{
    let q = moved(p, m);
    lemma_move_source(p, m);
    lemma_moved_en_passant(p, m);
    assert forall|f: int| #[trigger] file_open(q.en_passant, f) implies bit_at(
        q.opposing().pawns,
        seen_index(q.turn, 32 + f),
    ) && is_empty(q, seen_index(q.turn, 40 + f)) by {
        reveal(moved);
        lemma_seen_squares(m, p.turn);
        lemma_moving_kind(p, m);
        assert(is_double_push(p, m));
        assert(rank_change(m, p.turn) == 2);
        assert(pawn_push_rule(p, m));
        let t = m.to_square.idx();
        let x = crossed_square(p, m);
        assert(m.to_square.relative(p.turn).idx() == 24 + f);
        assert(m.from_square.relative(p.turn).idx() == 8 + f);
        assert(t == seen_index(q.turn, 32 + f));
        assert(x == seen_index(q.turn, 40 + f));
        assert(0 <= x < 64);
        lemma_moved_square(p, m, t);
        lemma_moved_square(p, m, x);
        lemma_companion_squares(p, m, t);
        lemma_companion_squares(p, m, x);
        let own_after = q.pieces(p.turn);
        let opp_after = q.pieces(p.turn.other());
        assert(own_after.pawns == own_after.of_kind(PieceType::Pawn));
        lemma_not_occupied_after(p.own(), own_after, x);
        lemma_not_occupied_after(p.opposing(), opp_after, x);
    }
}

/// A square on which a side has no piece of any kind is not among the
/// squares that it occupies.
pub proof fn lemma_not_occupied_after(before: Pieces, after: Pieces, i: int)
    requires
        0 <= i < 64,
        !bit_at(before.occupied(), i),
        forall|t: PieceType|
            t != PieceType::Null && bit_at(#[trigger] after.of_kind(t), i) ==> bit_at(
                before.of_kind(t),
                i,
            ),
    ensures
        !bit_at(after.occupied(), i),
{
    before.lemma_square(i);
    after.lemma_square(i);
    assert(after.king == after.of_kind(PieceType::King));
    assert(after.queens == after.of_kind(PieceType::Queen));
    assert(after.rooks == after.of_kind(PieceType::Rook));
    assert(after.bishops == after.of_kind(PieceType::Bishop));
    assert(after.knights == after.of_kind(PieceType::Knight));
    assert(after.pawns == after.of_kind(PieceType::Pawn));
    assert(before.king == before.of_kind(PieceType::King));
    assert(before.queens == before.of_kind(PieceType::Queen));
    assert(before.rooks == before.of_kind(PieceType::Rook));
    assert(before.bishops == before.of_kind(PieceType::Bishop));
    assert(before.knights == before.of_kind(PieceType::Knight));
    assert(before.pawns == before.of_kind(PieceType::Pawn));
}

/// Every legal move leads from a playable position to a playable position.
pub proof fn lemma_playable_after_legal_move(p: Position, m: Move)
    requires
        playable(p),
        legal_moves(p).contains(m),
    ensures
        playable(moved(p, m)),
{
    lemma_legal_moves(p, m);
    lemma_moved_consistent(p, m);
    lemma_playable_kings(p, m);
    lemma_playable_rights(p, m);
    lemma_playable_en_passant(p, m);
}

proof fn lemma_initial_bits(i: u64, f: u8)
    by (bit_vector)
    requires
        i < 64,
        f < 8,
    ensures
        bit(SQUARE_E1, i) == (i == 4),
        bit(SQUARE_D1, i) == (i == 3),
        bit(SQUARE_A1 | SQUARE_H1, i) == (i == 0 || i == 7),
        bit(SQUARE_C1 | SQUARE_F1, i) == (i == 2 || i == 5),
        bit(SQUARE_B1 | SQUARE_G1, i) == (i == 1 || i == 6),
        bit(RANK_2, i) == (8 <= i < 16),
        bit(SQUARE_E8, i) == (i == 60),
        bit(SQUARE_D8, i) == (i == 59),
        bit(SQUARE_A8 | SQUARE_H8, i) == (i == 56 || i == 63),
        bit(SQUARE_C8 | SQUARE_F8, i) == (i == 58 || i == 61),
        bit(SQUARE_B8 | SQUARE_G8, i) == (i == 57 || i == 62),
        bit(RANK_7, i) == (48 <= i < 56),
        SQUARE_E1 == 1u64 << 4,
        SQUARE_E8 == 1u64 << 60,
        (0u8 >> f) & 1 == 0,
{
}

/// The squares that the pieces hold before the first move.
pub proof fn lemma_initial_squares(i: int)
    requires
        0 <= i < 64,
    ensures
        ({
            let p = initial_position();
            &&& bit_at(p.white.king, i) == (i == 4)
            &&& bit_at(p.white.queens, i) == (i == 3)
            &&& bit_at(p.white.rooks, i) == (i == 0 || i == 7)
            &&& bit_at(p.white.bishops, i) == (i == 2 || i == 5)
            &&& bit_at(p.white.knights, i) == (i == 1 || i == 6)
            &&& bit_at(p.white.pawns, i) == (8 <= i < 16)
            &&& bit_at(p.black.king, i) == (i == 60)
            &&& bit_at(p.black.queens, i) == (i == 59)
            &&& bit_at(p.black.rooks, i) == (i == 56 || i == 63)
            &&& bit_at(p.black.bishops, i) == (i == 58 || i == 61)
            &&& bit_at(p.black.knights, i) == (i == 57 || i == 62)
            &&& bit_at(p.black.pawns, i) == (48 <= i < 56)
            &&& bit_at(p.white.occupied(), i) == (i < 16)
            &&& bit_at(p.black.occupied(), i) == (i >= 48)
            &&& bit_at(blockers(p), i) ==> i < 16 || i >= 48
            &&& i < 16 ==> bit_at(blockers(p), i)
        }),
{
    let p = initial_position();
    lemma_initial_bits(i as u64, 0);
    p.white.lemma_square(i);
    p.black.lemma_square(i);
    lemma_blockers(p, i);
}

/// A piece on the first rank reaches only the first two ranks with one step,
/// and only ranks up to the third with a knight's jump.
proof fn lemma_initial_ray_blocked(sliders: u64, dir: Direction)
    requires
        forall|i: int| 0 <= i < 64 && bit_at(sliders, i) ==> i < 8,
    ensures
        ray_cover(sliders, dir, !blockers(initial_position()), 7) == 0,
{
    let p = initial_position();
    let free = !blockers(p);
    let first = ray_open(sliders, dir, free, 1);
    assert(ray_open(sliders, dir, free, 0) == sliders);
    assert(first == slid(sliders, dir, 1) & free);
    assert forall|t: int| 0 <= t < 64 implies !bit_at(first, t) by {
        lemma_bit_ops(slid(sliders, dir, 1), free, t as u64, 0);
        lemma_bit_ops(blockers(p), 0, t as u64, 0);
        lemma_slid_square(sliders, dir, 1, t);
        lemma_initial_squares(t);
        assert(dir.dx() * 1 == dir.dx() && dir.dy() * 1 == dir.dy());
        let s = (t / 8 - dir.dy()) * 8 + (t % 8 - dir.dx());
        if bit_at(slid(sliders, dir, 1), t) {
            assert(bit_at(sliders, s));
            assert(s < 8);
            assert(t < 16);
        }
    }
    lemma_empty_bits(first);
    let cover = ray_cover(sliders, dir, free, 7);
    assert forall|t: int| 0 <= t < 64 implies !bit_at(cover, t) by {
        if bit_at(cover, t) {
            let k = lemma_ray_cover_from(sliders, dir, free, 7, t);
            lemma_ray_stays_empty(sliders, dir, free, 1, k);
            lemma_bit_ops(0, 0, t as u64, 0);
        }
    }
    lemma_empty_bits(cover);
}

/// The starting position is playable.
pub proof fn lemma_initial_position_playable()
    ensures
        playable(initial_position()),
{
    let p = initial_position();
    assert forall|i: int| 0 <= i < 64 implies #[trigger] p.pieces_at(i) <= 1 by {
        lemma_initial_squares(i);
    }
    lemma_initial_bits(0, 0);
    assert(p.white.king == single(4));
    assert(p.black.king == single(60));
    lemma_initial_squares(0);
    lemma_initial_squares(4);
    lemma_initial_squares(7);
    lemma_initial_squares(56);
    lemma_initial_squares(60);
    lemma_initial_squares(63);
    assert forall|f: int| !#[trigger] file_open(p.en_passant, f) by {
        if 0 <= f < 8 {
            lemma_initial_bits(0, f as u8);
        }
    }
    // no piece attacks the square of Black's king
    let own = p.white;
    let free = !blockers(p);
    lemma_attacked(p, 60);
    lemma_knight_reach(own.knights, 60);
    assert forall|kh: KnightHop| !#[trigger] bit_at(hopped(own.knights, kh), 60) by {
        lemma_hopped_square(own.knights, kh, 60);
        let s = (7 - kh.dy()) * 8 + (4 - kh.dx());
        if 0 <= s < 64 {
            lemma_initial_squares(s);
        }
    }
    lemma_king_reach(own.king, 60);
    assert forall|dir: Direction| !#[trigger] bit_at(slid(own.king, dir, 1), 60) by {
        lemma_slid_square(own.king, dir, 1, 60);
        assert(dir.dx() * 1 == dir.dx() && dir.dy() * 1 == dir.dy());
        let s = (7 - dir.dy()) * 8 + (4 - dir.dx());
        if 0 <= s < 64 {
            lemma_initial_squares(s);
        }
    }
    lemma_bit_ops(slid(own.pawns, Direction::NW, 1), slid(own.pawns, Direction::NE, 1), 60, 0);
    lemma_slid_square(own.pawns, Direction::NW, 1, 60);
    lemma_slid_square(own.pawns, Direction::NE, 1, 60);
    lemma_initial_squares(53);
    lemma_initial_squares(51);
    let diagonal = own.bishops | own.queens;
    let straight = own.rooks | own.queens;
    assert forall|i: int| 0 <= i < 64 && (bit_at(diagonal, i) || bit_at(straight, i)) implies i
        < 8 by {
        lemma_bit_ops(own.bishops, own.queens, i as u64, 0);
        lemma_bit_ops(own.rooks, own.queens, i as u64, 0);
        lemma_initial_squares(i);
    }
    lemma_slider_reach(diagonal, free, 60);
    lemma_slider_reach(straight, free, 60);
    assert forall|dir: Direction| !#[trigger] bit_at(ray_cover(diagonal, dir, free, 7), 60) by {
        lemma_initial_ray_blocked(diagonal, dir);
        lemma_bit_ops(0, 0, 60, 0);
    }
    assert forall|dir: Direction| !#[trigger] bit_at(ray_cover(straight, dir, free, 7), 60) by {
        lemma_initial_ray_blocked(straight, dir);
        lemma_bit_ops(0, 0, 60, 0);
    }
    assert(!bit_at(attacked(p), 60));
    assert forall|i: int| 0 <= i < 64 implies !bit_at(attacked(p) & p.black.king, i) by {
        lemma_bit_ops(attacked(p), p.black.king, i as u64, 0);
        lemma_initial_squares(i);
    }
    lemma_empty_bits(attacked(p) & p.black.king);
    reveal(position_legal);
}

/// Where no square holds two pieces, the sets of squares are apart: the sets
/// of two kinds of one side share no square, nor do the squares that the two
/// sides occupy.
pub proof fn lemma_sets_apart(p: Position)
    requires
        p.consistent(),
    ensures
        p.white.disjoint(),
        p.black.disjoint(),
        p.white.occupied() & p.black.occupied() == 0,
        forall|s: PieceType, t: PieceType|
            s != t ==> #[trigger] (p.white.of_kind(s) & p.white.of_kind(t)) == 0,
        forall|s: PieceType, t: PieceType|
            s != t ==> #[trigger] (p.black.of_kind(s) & p.black.of_kind(t)) == 0,
{
    assert forall|i: int| 0 <= i < 64 implies #[trigger] p.white.count_at(i) <= 1 by {
        assert(p.pieces_at(i) <= 1);
    }
    assert forall|i: int| 0 <= i < 64 implies #[trigger] p.black.count_at(i) <= 1 by {
        assert(p.pieces_at(i) <= 1);
    }
    assert forall|i: int| 0 <= i < 64 implies !bit_at(
        p.white.occupied() & p.black.occupied(),
        i,
    ) by {
        assert(p.pieces_at(i) <= 1);
        p.white.lemma_square(i);
        p.black.lemma_square(i);
        lemma_bit_ops(p.white.occupied(), p.black.occupied(), i as u64, 0);
    }
    lemma_empty_bits(p.white.occupied() & p.black.occupied());
    lemma_kinds_apart(p.white);
    lemma_kinds_apart(p.black);
}

/// The sets of two kinds of a side whose pieces stand apart share no square.
pub proof fn lemma_kinds_apart(x: Pieces)
    requires
        x.disjoint(),
    ensures
        forall|s: PieceType, t: PieceType| s != t ==> #[trigger] (x.of_kind(s) & x.of_kind(t)) == 0,
{
    assert forall|s: PieceType, t: PieceType| s != t implies #[trigger] (x.of_kind(s) & x.of_kind(
        t,
    )) == 0 by {
        let a = x.of_kind(s);
        let b = x.of_kind(t);
        assert forall|i: int| 0 <= i < 64 implies !bit_at(a & b, i) by {
            assert(x.count_at(i) <= 1);
            lemma_bit_ops(a, b, i as u64, 0);
        }
        lemma_empty_bits(a & b);
    }
}

/// The position after the moves of `moves` have been made, one after the
/// other, from the starting position.
pub open spec fn position_after(moves: Seq<Move>) -> Position {
    moved_along(initial_position(), moves)
}

/// Whether `moves` is a game: each move is legal in the position that the
/// moves before it lead to.
pub open spec fn is_game(moves: Seq<Move>) -> bool
    decreases moves.len(),
{
    moves.len() == 0 || (is_game(moves.drop_last()) && legal_moves(
        position_after(moves.drop_last()),
    ).contains(moves.last()))
}

/// Every position that a game reaches is playable: no square holds two
/// pieces, each side has exactly one king, the castling rights and
/// en-passant files fit the pieces, and the side that has just moved has not
/// left its king where it can be taken.
pub proof fn lemma_game_positions_playable(moves: Seq<Move>)
    requires
        is_game(moves),
    ensures
        playable(position_after(moves)),
        position_after(moves).white.disjoint(),
        position_after(moves).black.disjoint(),
        position_after(moves).white.occupied() & position_after(moves).black.occupied() == 0,
        position_after(moves).white.one_king(),
        position_after(moves).black.one_king(),
    decreases moves.len(),
{
    if moves.len() == 0 {
        lemma_initial_position_playable();
    } else {
        lemma_game_positions_playable(moves.drop_last());
        lemma_playable_after_legal_move(position_after(moves.drop_last()), moves.last());
    }
    lemma_sets_apart(position_after(moves));
}

/// The move that takes the piece on the square with number `s` onto the
/// square with number `u`; a pawn that reaches the last rank becomes a queen.
pub open spec fn capture_of(p: Position, s: int, u: int, pawn: bool) -> Move {
    Move {
        from_square: Square::at(s),
        to_square: Square::at(u),
        promote_type: if pawn && Square::at(u).relative(p.turn).rank() == 7 {
            PieceType::Queen
        } else {
            PieceType::Null
        },
    }
}

/// The changes of file and rank of a move between two squares of the board.
pub proof fn lemma_capture_of(p: Position, s: int, u: int, pawn: bool)
    requires
        0 <= s < 64,
        0 <= u < 64,
    ensures
        ({
            let m = capture_of(p, s, u, pawn);
            &&& m.from_square.idx() == s
            &&& m.to_square.idx() == u
            &&& file_change(m) == u % 8 - s % 8
            &&& rank_change(m, p.turn) == match p.turn {
                Color::White => u / 8 - s / 8,
                Color::Black => s / 8 - u / 8,
            }
            &&& m.from_square.file() == s % 8
            &&& m.from_square.relative(p.turn).rank() == match p.turn {
                Color::White => s / 8,
                Color::Black => 7 - s / 8,
            }
            &&& m.to_square.relative(p.turn).idx() == seen_index(p.turn, u)
            &&& bit_at(p.opposing().king, u) ==> enters_enemy(p, m)
        }),
{
    let m = capture_of(p, s, u, pawn);
    Square::lemma_at_idx(s);
    Square::lemma_at_idx(u);
    lemma_seen_squares(m, p.turn);
    lemma_relative_square(p.turn, s);
    lemma_relative_square(p.turn, u);
    lemma_relative_twice(m.to_square, p.turn);
    lemma_relative_twice(m.from_square, p.turn);
    p.opposing().lemma_square(u);
}

/// The rank that the side to move sees as rank `r`.
pub open spec fn seen_rank(turn: Color, r: int) -> int {
    match turn {
        Color::White => r,
        Color::Black => 7 - r,
    }
}

/// A square along a line on the board is the square along the mirrored line
/// on the board as the side to move sees it.
pub proof fn lemma_along_seen(f: int, r: int, dir: Direction, turn: Color, j: int)
    requires
        0 <= f < 8,
        0 <= r < 8,
        0 <= j <= 7,
        along_on_board(f, r, dir, j),
    ensures
        along_on_board(f, seen_rank(turn, r), dir_seen(dir, turn), j),
        0 <= square_along(f, r, dir, j) < 64,
        0 <= square_along(f, seen_rank(turn, r), dir_seen(dir, turn), j) < 64,
        seen_index(turn, square_along(f, seen_rank(turn, r), dir_seen(dir, turn), j))
            == square_along(f, r, dir, j),
        square_along(f, seen_rank(turn, r), dir_seen(dir, turn), j) == seen_index(
            turn,
            square_along(f, r, dir, j),
        ),
{
    let sx = dir.dx();
    let sy = dir.dy();
    let x = sx * j;
    let y = sy * j;
    let q = square_along(f, r, dir, j);
    assert(q == (r + y) * 8 + (f + x));
    assert(q % 8 == f + x && q / 8 == r + y);
    match turn {
        Color::White => {},
        Color::Black => {
            let other = dir.mirrored();
            assert(other.dx() == sx && other.dy() == -sy);
            assert((-sy) * j == -y) by (nonlinear_arith)
                requires
                    y == sy * j,
            ;
            let v = square_along(f, 7 - r, other, j);
            assert(v == (7 - r - y) * 8 + (f + x));
            assert(v % 8 == f + x && v / 8 == 7 - r - y);
        },
    }
}

/// Squares at different distances along a line are different squares.
pub proof fn lemma_along_distinct(f: int, r: int, dir: Direction, j: int, k: int)
    requires
        0 <= j < k <= 7,
        along_on_board(f, r, dir, j),
        along_on_board(f, r, dir, k),
    ensures
        square_along(f, r, dir, j) != square_along(f, r, dir, k),
{
    let sx = dir.dx();
    let sy = dir.dy();
    let xj = sx * j;
    let xk = sx * k;
    let yj = sy * j;
    let yk = sy * k;
    assert(xj != xk || yj != yk) by (nonlinear_arith)
        requires
            0 <= j < k,
            -1 <= sx <= 1,
            -1 <= sy <= 1,
            sx != 0 || sy != 0,
            xj == sx * j,
            xk == sx * k,
            yj == sy * j,
            yk == sy * k,
    ;
    let a = square_along(f, r, dir, j);
    let b = square_along(f, r, dir, k);
    assert(a % 8 == f + xj && a / 8 == r + yj);
    assert(b % 8 == f + xk && b / 8 == r + yk);
}

/// A square between a sliding piece and the only king of the other side
/// that the piece attacks is empty.
pub proof fn lemma_way_to_king_empty(p: Position, f: int, r: int, dir: Direction, k: int, j: int)
    requires
        p.consistent(),
        p.opposing().one_king(),
        0 <= f < 8,
        0 <= r < 8,
        0 < j < k <= 7,
        along_on_board(f, r, dir, k),
        bit_at(p.opposing().king, square_along(f, r, dir, k)),
        bit_at(!blockers(p), square_along(f, r, dir, j)),
    ensures
        is_empty(p, square_along(f, r, dir, j)),
{
    let q = square_along(f, r, dir, j);
    let u = square_along(f, r, dir, k);
    lemma_along_on_board(f, r, dir, k, j);
    lemma_along_on_board(f, r, dir, k, k);
    lemma_along_distinct(f, r, dir, j, k);
    let king = choose|i: int| 0 <= i < 64 && p.opposing().king == #[trigger] single(i);
    lemma_bit_ops(0, 0, u as u64, king as u64);
    lemma_bit_ops(0, 0, q as u64, king as u64);
    lemma_bit_ops(blockers(p), 0, q as u64, 0);
    lemma_blockers(p, q);
}

/// A square that a sliding piece attacks is entered by a move that the rules
/// allow, if it holds the only king of the other side.
pub proof fn lemma_slider_attack_is_move(p: Position, sliders: u64, dir: Direction, u: int) -> (m:
    Move)
    requires
        p.consistent(),
        p.opposing().one_king(),
        0 <= u < 64,
        bit_at(p.opposing().king, u),
        bit_at(ray_cover(sliders, dir, !blockers(p), 7), u),
    ensures
        m.to_square.idx() == u,
        m.promote_type == PieceType::Null,
        enters_enemy(p, m),
        bit_at(sliders, m.from_square.idx()),
        exists|d: int| #[trigger] slides_along(p, m, dir_seen(dir, p.turn), d),
{
    let free = !blockers(p);
    let k = lemma_ray_cover_from(sliders, dir, free, 7, u);
    lemma_bit_ops(ray_stepped(sliders, dir, free, k), free, u as u64, 0);
    let from = lemma_ray_way(sliders, dir, free, k as int, u);
    let f = from.0;
    let r = from.1;
    let s = r * 8 + f;
    let m = capture_of(p, s, u, false);
    lemma_capture_of(p, s, u, false);
    let seen_dir = dir_seen(dir, p.turn);
    let seen_r = seen_rank(p.turn, r);
    assert(m.from_square.relative(p.turn).rank() == seen_r);
    assert(m.from_square.file() == f);
    lemma_along_seen(f, r, dir, p.turn, k as int);
    assert forall|j: int| 0 < j < k implies is_empty(
        p,
        seen_index(p.turn, #[trigger] square_along(f, seen_r, seen_dir, j)),
    ) by {
        lemma_along_on_board(f, r, dir, k as int, j);
        lemma_along_seen(f, r, dir, p.turn, j);
        assert(bit_at(free, square_along(f, r, dir, j)));
        lemma_way_to_king_empty(p, f, r, dir, k as int, j);
    }
    assert(slides_along(p, m, seen_dir, k as int));
    m
}

/// A square that a knight, a pawn or the king attacks is entered by a move
/// that the rules allow, if it holds a king of the other side.
#[verifier::rlimit(30)]
pub proof fn lemma_step_attack_is_move(p: Position, u: int) -> (m: Move)
    requires
        0 <= u < 64,
        bit_at(p.opposing().king, u),
        bit_at(knight_reach(p.own().knights), u) || bit_at(pawn_reach(p.own().pawns, p.turn), u)
            || bit_at(king_reach(p.own().king), u),
    ensures
        m.to_square.idx() == u,
        allowed(p, m),
{
    let own = p.own();
    if bit_at(knight_reach(own.knights), u) {
        lemma_knight_reach(own.knights, u);
        let kh = choose|kh: KnightHop| #[trigger] bit_at(hopped(own.knights, kh), u);
        lemma_hopped_square(own.knights, kh, u);
        let s = (u / 8 - kh.dy()) * 8 + (u % 8 - kh.dx());
        let m = capture_of(p, s, u, false);
        lemma_capture_of(p, s, u, false);
        assert(s % 8 == u % 8 - kh.dx() && s / 8 == u / 8 - kh.dy());
        assert(piece_rule(p, m));
        m
    } else if bit_at(king_reach(own.king), u) {
        lemma_king_reach(own.king, u);
        let dir = choose|dir: Direction| #[trigger] bit_at(slid(own.king, dir, 1), u);
        lemma_slid_square(own.king, dir, 1, u);
        assert(dir.dx() * 1 == dir.dx() && dir.dy() * 1 == dir.dy());
        let s = (u / 8 - dir.dy()) * 8 + (u % 8 - dir.dx());
        let m = capture_of(p, s, u, false);
        lemma_capture_of(p, s, u, false);
        assert(s % 8 == u % 8 - dir.dx() && s / 8 == u / 8 - dir.dy());
        assert(piece_rule(p, m));
        m
    } else {
        let west = match p.turn {
            Color::White => Direction::NW,
            Color::Black => Direction::SW,
        };
        let east = match p.turn {
            Color::White => Direction::NE,
            Color::Black => Direction::SE,
        };
        lemma_bit_ops(slid(own.pawns, west, 1), slid(own.pawns, east, 1), u as u64, 0);
        let dir = if bit_at(slid(own.pawns, west, 1), u) {
            west
        } else {
            east
        };
        lemma_slid_square(own.pawns, dir, 1, u);
        assert(dir.dx() * 1 == dir.dx() && dir.dy() * 1 == dir.dy());
        let s = (u / 8 - dir.dy()) * 8 + (u % 8 - dir.dx());
        let m = capture_of(p, s, u, true);
        lemma_capture_of(p, s, u, true);
        assert(s % 8 == u % 8 - dir.dx() && s / 8 == u / 8 - dir.dy());
        assert(pawn_capture_rule(p, m));
        m
    }
}

/// A square that the side to move attacks is entered by a move that the
/// rules allow, if it holds the only king of the other side.
pub proof fn lemma_attack_is_move(p: Position, u: int) -> (m: Move)
    requires
        p.consistent(),
        p.opposing().one_king(),
        0 <= u < 64,
        bit_at(p.opposing().king, u),
        bit_at(attacked(p), u),
    ensures
        m.to_square.idx() == u,
        allowed(p, m),
{
    let own = p.own();
    let free = !blockers(p);
    lemma_attacked(p, u);
    if bit_at(diagonal_reach(own.bishops | own.queens, free), u) {
        lemma_slider_reach(own.bishops | own.queens, free, u);
        let dir = choose|dir: Direction|
            is_diagonal(dir) && #[trigger] bit_at(
                ray_cover(own.bishops | own.queens, dir, free, 7),
                u,
            );
        let m = lemma_slider_attack_is_move(p, own.bishops | own.queens, dir, u);
        assert(is_diagonal(dir_seen(dir, p.turn)));
        assert(slides(p, m, true));
        assert(piece_rule(p, m));
        m
    } else if bit_at(straight_reach(own.rooks | own.queens, free), u) {
        lemma_slider_reach(own.rooks | own.queens, free, u);
        let dir = choose|dir: Direction|
            !is_diagonal(dir) && #[trigger] bit_at(
                ray_cover(own.rooks | own.queens, dir, free, 7),
                u,
            );
        let m = lemma_slider_attack_is_move(p, own.rooks | own.queens, dir, u);
        assert(!is_diagonal(dir_seen(dir, p.turn)));
        assert(slides(p, m, false));
        assert(piece_rule(p, m));
        m
    } else {
        lemma_step_attack_is_move(p, u)
    }
}

/// What the king-safety test means: in a position in which no square holds
/// two pieces and the side that is not to move has one king, the side to
/// move is unable to take that king exactly if none of the moves that its
/// pieces allow enters the king's square.
pub proof fn lemma_position_legal_meaning(p: Position)
    requires
        p.consistent(),
        p.opposing().one_king(),
    ensures
        position_legal(p) <==> forall|m: Move|
            pseudo_moves(p).contains(m) ==> !bit_at(p.opposing().king, m.to_square.idx()),
{
    if position_legal(p) {
        assert forall|m: Move| pseudo_moves(p).contains(m) implies !bit_at(
            p.opposing().king,
            m.to_square.idx(),
        ) by {
            lemma_no_king_capture(p, m);
        }
    } else {
        reveal(position_legal);
        let both = attacked(p) & p.opposing().king;
        lemma_empty_bits(both);
        let u = choose|u: int| 0 <= u < 64 && bit_at(both, u);
        lemma_bit_ops(attacked(p), p.opposing().king, u as u64, 0);
        let m = lemma_attack_is_move(p, u);
        crate::complete::lemma_allowed_moves_generated(p, m);
    }
}

} // verus!
