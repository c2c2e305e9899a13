//! The rules of movement, stated square by square, and the proof that every
//! move that the generator gives obeys them.

use crate::bitboard::{
    along_on_board, bit, bit_at, file_open, hopped, lemma_along_on_board, lemma_ray_way,
    square_along, lemma_bit_ops, lemma_flipped_square, lemma_hopped_square, lemma_ray_square,
    lemma_slid_square, mirror_index, ray_stepped, reached, relative, slid, Pieces, RANK_3,
};
use crate::move_search::{
    capture_moves, castle_move, castle_moves, enemy_view, has_source, king_steps, knight_moves,
    legal_moves, lemma_moves_from_contains, lemma_rank_3, may_castle, move_to, occupied_view, own_view,
    pawn_captures, pawn_double_targets, pawn_prey, pawn_push_targets, pawn_pushes, position_legal,
    pseudo_moves, quiet_moves, ray_moves, slider_moves, step_moves,
};
use crate::types::{
    Color, Direction, KnightHop, Move, PieceType, Position, Square, BISHOP_DIRECTIONS,
    KING_DIRECTIONS, KNIGHT_HOPS, ROOK_DIRECTIONS,
};
use crate::bitboard::{lemma_meets_square, single};
use crate::utils::{
    is_double_push, lemma_moved_en_passant, moved, moving_kind, takes_en_passant,
};
use vstd::prelude::*;

verus! {

/// A move is in a list made of two lists exactly if it is in one of them.
pub proof fn lemma_contains_concat(a: Seq<Move>, b: Seq<Move>, m: Move)
    ensures
        (a + b).contains(m) <==> a.contains(m) || b.contains(m),
{
    let all = a + b;
    if all.contains(m) {
        let k = choose|k: int| 0 <= k < all.len() && all[k] == m;
        if k < a.len() {
            assert(a[k] == m);
        } else {
            assert(b[k - a.len()] == m);
        }
    }
    if a.contains(m) {
        let k = choose|k: int| 0 <= k < a.len() && a[k] == m;
        assert(all[k] == m);
    }
    if b.contains(m) {
        let k = choose|k: int| 0 <= k < b.len() && b[k] == m;
        assert(all[k + a.len()] == m);
    }
}

/// The legal moves are the moves that the pieces allow and that leave the
/// mover's king where it cannot be taken.
pub proof fn lemma_legal_moves(p: Position, m: Move)
    ensures
        legal_moves(p).contains(m) <==> pseudo_moves(p).contains(m) && position_legal(moved(p, m)),
{
    reveal(legal_moves);
    let keep = |m: Move| position_legal(moved(p, m));
    let all = pseudo_moves(p);
    if all.filter(keep).contains(m) {
        all.lemma_filter_contains_rev(keep, m);
        let k = choose|k: int| 0 <= k < all.filter(keep).len() && all.filter(keep)[k] == m;
        all.lemma_filter_pred(keep, k);
    }
    if all.contains(m) && keep(m) {
        let k = choose|k: int| 0 <= k < all.len() && all[k] == m;
        all.lemma_filter_contains(keep, k);
    }
}

/// Whether `m` enters a square of `targets` by the step `(dx, dy)`, the
/// squares counted as the side to move sees them.
pub open spec fn steps_onto(
    targets: u64,
    dx: int,
    dy: int,
    turn: Color,
    promote: bool,
    m: Move,
) -> bool {
    exists|t: int|
        0 <= t < 64 && bit_at(targets, t) && m == #[trigger] move_to(t, dx, dy, turn, promote)
}

/// The moves for a set of squares are the moves that enter one of them.
pub proof fn lemma_step_moves(targets: u64, dx: int, dy: int, turn: Color, promote: bool, m: Move)
    ensures
        step_moves(targets, dx, dy, turn, promote).contains(m) <==> steps_onto(
            targets,
            dx,
            dy,
            turn,
            promote,
            m,
        ),
{
    lemma_moves_from_contains(targets, 0, dx, dy, turn, promote, m);
}

/// A knight's move in the list is made by one of the eight jumps.
pub proof fn lemma_knight_moves(knights: u64, mask: u64, turn: Color, n: int, m: Move)
    requires
        0 <= n <= 8,
    ensures
        knight_moves(knights, mask, turn, n).contains(m) <==> exists|i: int|
            0 <= i < n && #[trigger] steps_onto(
                hopped(knights, KNIGHT_HOPS[i]) & mask,
                KNIGHT_HOPS[i].dx(),
                KNIGHT_HOPS[i].dy(),
                turn,
                false,
                m,
            ),
    decreases n,
{
    if n > 0 {
        let kh = KNIGHT_HOPS[n - 1];
        let last = step_moves(hopped(knights, kh) & mask, kh.dx(), kh.dy(), turn, false);
        lemma_knight_moves(knights, mask, turn, n - 1, m);
        lemma_contains_concat(knight_moves(knights, mask, turn, n - 1), last, m);
        lemma_step_moves(hopped(knights, kh) & mask, kh.dx(), kh.dy(), turn, false, m);
        if knight_moves(knights, mask, turn, n).contains(m) {
            if last.contains(m) {
                assert(steps_onto(
                    hopped(knights, KNIGHT_HOPS[n - 1]) & mask,
                    KNIGHT_HOPS[n - 1].dx(),
                    KNIGHT_HOPS[n - 1].dy(),
                    turn,
                    false,
                    m,
                ));
            }
        }
    }
}

/// A king's step in the list is made in one of the eight directions.
pub proof fn lemma_king_steps(king: u64, mask: u64, turn: Color, n: int, m: Move)
    requires
        0 <= n <= 8,
    ensures
        king_steps(king, mask, turn, n).contains(m) <==> exists|i: int|
            0 <= i < n && #[trigger] steps_onto(
                slid(king, KING_DIRECTIONS[i], 1) & mask,
                KING_DIRECTIONS[i].dx(),
                KING_DIRECTIONS[i].dy(),
                turn,
                false,
                m,
            ),
    decreases n,
{
    if n > 0 {
        let dir = KING_DIRECTIONS[n - 1];
        let last = step_moves(slid(king, dir, 1) & mask, dir.dx(), dir.dy(), turn, false);
        lemma_king_steps(king, mask, turn, n - 1, m);
        lemma_contains_concat(king_steps(king, mask, turn, n - 1), last, m);
        lemma_step_moves(slid(king, dir, 1) & mask, dir.dx(), dir.dy(), turn, false, m);
        if king_steps(king, mask, turn, n).contains(m) {
            if last.contains(m) {
                assert(steps_onto(
                    slid(king, KING_DIRECTIONS[n - 1], 1) & mask,
                    KING_DIRECTIONS[n - 1].dx(),
                    KING_DIRECTIONS[n - 1].dy(),
                    turn,
                    false,
                    m,
                ));
            }
        }
    }
}

/// A move along a ray in the list is made with one of the first `n` steps.
pub proof fn lemma_ray_moves(
    origin: u64,
    dir: Direction,
    free: u64,
    mask: u64,
    turn: Color,
    n: int,
    m: Move,
)
    requires
        0 <= n <= 7,
    ensures
        ray_moves(origin, dir, free, mask, turn, n).contains(m) <==> exists|d: int|
            1 <= d <= n && #[trigger] steps_onto(
                ray_stepped(origin, dir, free, d as nat) & mask,
                dir.dx() * d,
                dir.dy() * d,
                turn,
                false,
                m,
            ),
    decreases n,
{
    if n > 0 {
        let targets = ray_stepped(origin, dir, free, n as nat) & mask;
        let last = step_moves(targets, dir.dx() * n, dir.dy() * n, turn, false);
        lemma_ray_moves(origin, dir, free, mask, turn, n - 1, m);
        lemma_contains_concat(ray_moves(origin, dir, free, mask, turn, n - 1), last, m);
        lemma_step_moves(targets, dir.dx() * n, dir.dy() * n, turn, false, m);
        if ray_moves(origin, dir, free, mask, turn, n).contains(m) {
            if last.contains(m) {
                assert(steps_onto(
                    ray_stepped(origin, dir, free, n as nat) & mask,
                    dir.dx() * n,
                    dir.dy() * n,
                    turn,
                    false,
                    m,
                ));
            }
        }
    }
}

/// A move of a sliding piece in the list is made along one of the rays.
pub proof fn lemma_slider_moves(
    origin: u64,
    dirs: [Direction; 4],
    free: u64,
    mask: u64,
    turn: Color,
    n: int,
    m: Move,
)
    requires
        0 <= n <= 4,
    ensures
        slider_moves(origin, dirs, free, mask, turn, n).contains(m) <==> exists|i: int, d: int|
            0 <= i < n && 1 <= d <= 7 && #[trigger] steps_onto(
                ray_stepped(origin, dirs[i], free, d as nat) & mask,
                dirs[i].dx() * d,
                dirs[i].dy() * d,
                turn,
                false,
                m,
            ),
    decreases n,
{
    if n > 0 {
        let last = ray_moves(origin, dirs[n - 1], free, mask, turn, 7);
        lemma_slider_moves(origin, dirs, free, mask, turn, n - 1, m);
        lemma_contains_concat(slider_moves(origin, dirs, free, mask, turn, n - 1), last, m);
        lemma_ray_moves(origin, dirs[n - 1], free, mask, turn, 7, m);
        if slider_moves(origin, dirs, free, mask, turn, n).contains(m) {
            if last.contains(m) {
                let d = choose|d: int|
                    1 <= d <= 7 && #[trigger] steps_onto(
                        ray_stepped(origin, dirs[n - 1], free, d as nat) & mask,
                        dirs[n - 1].dx() * d,
                        dirs[n - 1].dy() * d,
                        turn,
                        false,
                        m,
                    );
                assert(steps_onto(
                    ray_stepped(origin, dirs[n - 1], free, d as nat) & mask,
                    dirs[n - 1].dx() * d,
                    dirs[n - 1].dy() * d,
                    turn,
                    false,
                    m,
                ));
            }
        }
    }
}

/// Whether `m` is a capture by a pawn: a step diagonally ahead onto a
/// square that the other side occupies, or onto the sixth rank of a file
/// open to en-passant capture.
pub open spec fn is_pawn_capture(p: Position, m: Move) -> bool {
    ||| steps_onto(
        slid(own_view(p).pawns, Direction::NW, 1) & pawn_prey(p),
        -1,
        1,
        p.turn,
        true,
        m,
    )
    ||| steps_onto(
        slid(own_view(p).pawns, Direction::NE, 1) & pawn_prey(p),
        1,
        1,
        p.turn,
        true,
        m,
    )
}

/// Whether `m` is an advance of a pawn by one square.
pub open spec fn is_pawn_push(p: Position, m: Move) -> bool {
    steps_onto(pawn_push_targets(p), 0, 1, p.turn, true, m)
}

/// Whether `m` is an advance of a pawn by two squares.
pub open spec fn is_pawn_double_push(p: Position, m: Move) -> bool {
    steps_onto(pawn_double_targets(p), 0, 2, p.turn, false, m)
}

/// Whether `m` is a knight's jump onto a square of `mask`.
pub open spec fn is_knight_move(p: Position, mask: u64, m: Move) -> bool {
    exists|i: int|
        0 <= i < 8 && #[trigger] steps_onto(
            hopped(own_view(p).knights, KNIGHT_HOPS[i]) & mask,
            KNIGHT_HOPS[i].dx(),
            KNIGHT_HOPS[i].dy(),
            p.turn,
            false,
            m,
        )
}

/// Whether `m` takes a piece of `origin` along one of the rays of `dirs`
/// over empty squares onto a square of `mask`.
pub open spec fn is_slider_move(
    p: Position,
    origin: u64,
    dirs: [Direction; 4],
    mask: u64,
    m: Move,
) -> bool {
    exists|i: int, d: int|
        0 <= i < 4 && 1 <= d <= 7 && #[trigger] steps_onto(
            ray_stepped(origin, dirs[i], !occupied_view(p), d as nat) & mask,
            dirs[i].dx() * d,
            dirs[i].dy() * d,
            p.turn,
            false,
            m,
        )
}

/// Whether `m` is a step of the king onto a square of `mask`.
pub open spec fn is_king_step(p: Position, mask: u64, m: Move) -> bool {
    exists|i: int|
        0 <= i < 8 && #[trigger] steps_onto(
            slid(own_view(p).king, KING_DIRECTIONS[i], 1) & mask,
            KING_DIRECTIONS[i].dx(),
            KING_DIRECTIONS[i].dy(),
            p.turn,
            false,
            m,
        )
}

/// Whether `m` is a castling move that may be made.
pub open spec fn is_castling(p: Position, m: Move) -> bool {
    exists|long: bool| #[trigger] may_castle(p, long) && m == castle_move(p.turn, long)
}

/// Whether `m` is a move of a piece other than a pawn onto a square of
/// `mask`.
pub open spec fn is_piece_move(p: Position, mask: u64, m: Move) -> bool {
    ||| is_knight_move(p, mask, m)
    ||| is_slider_move(
        p,
        own_view(p).bishops | own_view(p).queens,
        BISHOP_DIRECTIONS,
        mask,
        m,
    )
    ||| is_slider_move(p, own_view(p).rooks | own_view(p).queens, ROOK_DIRECTIONS, mask, m)
    ||| is_king_step(p, mask, m)
}

/// The moves that the generator gives are the pawn captures and advances,
/// the moves of the other pieces onto squares that the other side occupies
/// or that are empty, and the castling moves that may be made.
pub proof fn lemma_pseudo_moves(p: Position, m: Move)
    ensures
        pseudo_moves(p).contains(m) <==> (is_pawn_capture(p, m) || is_pawn_push(p, m)
            || is_pawn_double_push(p, m) || is_piece_move(p, enemy_view(p), m) || is_piece_move(
            p,
            !occupied_view(p),
            m,
        ) || is_castling(p, m)),
{
    reveal(pseudo_moves);
    let own = own_view(p);
    let e = enemy_view(p);
    let free = !occupied_view(p);
    let t = p.turn;
    let bq = own.bishops | own.queens;
    let rq = own.rooks | own.queens;
    // captures
    let c1 = pawn_captures(p);
    let c2 = knight_moves(own.knights, e, t, 8);
    let c3 = slider_moves(bq, BISHOP_DIRECTIONS, free, e, t, 4);
    let c4 = slider_moves(rq, ROOK_DIRECTIONS, free, e, t, 4);
    let c5 = king_steps(own.king, e, t, 8);
    let c6 = castle_moves(p);
    lemma_contains_concat(c1, c2, m);
    lemma_contains_concat(c1 + c2, c3, m);
    lemma_contains_concat(c1 + c2 + c3, c4, m);
    lemma_contains_concat(c1 + c2 + c3 + c4, c5, m);
    lemma_contains_concat(c1 + c2 + c3 + c4 + c5, c6, m);
    // quiet moves
    let q1 = pawn_pushes(p);
    let q2 = knight_moves(own.knights, free, t, 8);
    let q3 = slider_moves(bq, BISHOP_DIRECTIONS, free, free, t, 4);
    let q4 = slider_moves(rq, ROOK_DIRECTIONS, free, free, t, 4);
    let q5 = king_steps(own.king, free, t, 8);
    lemma_contains_concat(q1, q2, m);
    lemma_contains_concat(q1 + q2, q3, m);
    lemma_contains_concat(q1 + q2 + q3, q4, m);
    lemma_contains_concat(q1 + q2 + q3 + q4, q5, m);
    lemma_contains_concat(capture_moves(p), quiet_moves(p), m);
    // each part
    let west = slid(own.pawns, Direction::NW, 1) & pawn_prey(p);
    let east = slid(own.pawns, Direction::NE, 1) & pawn_prey(p);
    lemma_contains_concat(
        step_moves(west, -1, 1, t, true),
        step_moves(east, 1, 1, t, true),
        m,
    );
    lemma_step_moves(west, -1, 1, t, true, m);
    lemma_step_moves(east, 1, 1, t, true, m);
    lemma_contains_concat(
        step_moves(pawn_push_targets(p), 0, 1, t, true),
        step_moves(pawn_double_targets(p), 0, 2, t, false),
        m,
    );
    lemma_step_moves(pawn_push_targets(p), 0, 1, t, true, m);
    lemma_step_moves(pawn_double_targets(p), 0, 2, t, false, m);
    lemma_knight_moves(own.knights, e, t, 8, m);
    lemma_knight_moves(own.knights, free, t, 8, m);
    lemma_slider_moves(bq, BISHOP_DIRECTIONS, free, e, t, 4, m);
    lemma_slider_moves(bq, BISHOP_DIRECTIONS, free, free, t, 4, m);
    lemma_slider_moves(rq, ROOK_DIRECTIONS, free, e, t, 4, m);
    lemma_slider_moves(rq, ROOK_DIRECTIONS, free, free, t, 4, m);
    lemma_king_steps(own.king, e, t, 8, m);
    lemma_king_steps(own.king, free, t, 8, m);
    let long_part: Seq<Move> = if may_castle(p, true) {
        seq![castle_move(t, true)]
    } else {
        Seq::empty()
    };
    let short_part: Seq<Move> = if may_castle(p, false) {
        seq![castle_move(t, false)]
    } else {
        Seq::empty()
    };
    lemma_contains_concat(long_part, short_part, m);
    if may_castle(p, true) {
        assert(long_part[0] == castle_move(t, true));
    }
    if may_castle(p, false) {
        assert(short_part[0] == castle_move(t, false));
    }
    if is_castling(p, m) {
        let long = choose|long: bool| #[trigger] may_castle(p, long) && m == castle_move(t, long);
        assert(long ==> long_part.contains(m));
        assert(!long ==> short_part.contains(m));
    }
}

/// The number that a square has on the board when the side to move counts
/// it as number `i`.
pub open spec fn seen_index(turn: Color, i: int) -> int {
    match turn {
        Color::White => i,
        Color::Black => mirror_index(i),
    }
}

/// How a square that the side to move counts as number `i` reads on the
/// board.
pub proof fn lemma_relative_square(turn: Color, i: int)
    requires
        0 <= i < 64,
    ensures
        Square::at(i).relative(turn).idx() == seen_index(turn, i),
        0 <= seen_index(turn, i) < 64,
        seen_index(turn, seen_index(turn, i)) == i,
        Square::at(i).relative(turn).relative(turn) == Square::at(i),
        Square::at(i).relative(turn).file() == i % 8,
        Square::at(i).relative(turn).relative(turn).rank() == i / 8,
        Square::at(i).relative(turn).relative(turn).file() == i % 8,
        Square::at(i).relative(turn).relative(turn).idx() == i,
{
    Square::lemma_at_idx(i);
    Square::lemma_at_idx(mirror_index(i));
    Square::lemma_idx_at(Square::at(i));
}

/// Seeing a square twice from the same side gives the square back.
pub proof fn lemma_relative_twice(sq: Square, turn: Color)
    ensures
        sq.relative(turn).relative(turn) == sq,
        sq.relative(turn).idx() == seen_index(turn, sq.idx()),
        sq.relative(turn).file() == sq.file(),
{
    Square::lemma_idx_at(sq);
    lemma_relative_square(turn, sq.idx());
}

/// A set as the side to move sees it holds the squares of the set under the
/// numbers by which that side counts them.
pub proof fn lemma_relative_bit(x: u64, turn: Color, i: int)
    requires
        0 <= i < 64,
    ensures
        bit_at(relative(x, turn), i) == bit_at(x, seen_index(turn, i)),
{
    lemma_flipped_square(x, i);
}

/// What `move_to` says of the squares of the move.
pub proof fn lemma_move_to(t: int, dx: int, dy: int, turn: Color, promote: bool)
    requires
        0 <= t < 64,
        has_source(dx, dy, t),
    ensures
        ({
            let m = move_to(t, dx, dy, turn, promote);
            let s = t - 8 * dy - dx;
            &&& 0 <= s < 64
            &&& s % 8 == t % 8 - dx
            &&& s / 8 == t / 8 - dy
            &&& m.to_square.idx() == seen_index(turn, t)
            &&& m.from_square.idx() == seen_index(turn, s)
            &&& m.to_square.relative(turn).idx() == t
            &&& m.from_square.relative(turn).idx() == s
            &&& m.to_square.relative(turn).file() == t % 8
            &&& m.to_square.relative(turn).rank() == t / 8
            &&& m.from_square.relative(turn).file() == s % 8
            &&& m.from_square.relative(turn).rank() == s / 8
            &&& m.to_square.file() == t % 8
            &&& m.from_square.file() == s % 8
        }),
{
    let s = t - 8 * dy - dx;
    assert(s == (t / 8 - dy) * 8 + (t % 8 - dx));
    lemma_relative_square(turn, t);
    lemma_relative_square(turn, s);
}

/// Where a move belongs to a set of target squares each of which is reached
/// by the step `(dx, dy)` from a piece of `origin`, the move takes a piece of
/// `origin` by that step onto one of the target squares.
pub open spec fn carries(
    origin: u64,
    targets: u64,
    dx: int,
    dy: int,
    turn: Color,
    promote: bool,
    m: Move,
) -> bool {
    &&& bit_at(origin, m.from_square.idx())
    &&& bit_at(targets, m.to_square.relative(turn).idx())
    &&& m.to_square.relative(turn).file() == m.from_square.relative(turn).file() + dx
    &&& m.to_square.relative(turn).rank() == m.from_square.relative(turn).rank() + dy
    &&& m.to_square.file() == m.from_square.file() + dx
    &&& m.promote_type == (if promote && m.to_square.relative(turn).rank() == 7 {
        PieceType::Queen
    } else {
        PieceType::Null
    })
}

/// See [`carries`].
pub proof fn lemma_carries(
    origin: u64,
    targets: u64,
    dx: int,
    dy: int,
    turn: Color,
    promote: bool,
    m: Move,
)
    requires
        steps_onto(targets, dx, dy, turn, promote, m),
        forall|t: int|
            0 <= t < 64 && bit_at(targets, t) ==> #[trigger] reached(
                relative(origin, turn),
                dx,
                dy,
                t,
            ),
    ensures
        carries(origin, targets, dx, dy, turn, promote, m),
{
    let t = choose|t: int|
        0 <= t < 64 && bit_at(targets, t) && m == #[trigger] move_to(t, dx, dy, turn, promote);
    assert(reached(relative(origin, turn), dx, dy, t));
    lemma_move_to(t, dx, dy, turn, promote);
    let s = t - 8 * dy - dx;
    assert(s == (t / 8 - dy) * 8 + (t % 8 - dx));
    lemma_relative_bit(origin, turn, s);
}

/// The change of file that `m` makes.
pub open spec fn file_change(m: Move) -> int {
    m.to_square.file() - m.from_square.file()
}

/// The change of rank that `m` makes, as side `turn` counts the ranks.
pub open spec fn rank_change(m: Move, turn: Color) -> int {
    m.to_square.relative(turn).rank() - m.from_square.relative(turn).rank()
}

/// Whether the other side has a piece on the square that `m` enters.
pub open spec fn enters_enemy(p: Position, m: Move) -> bool {
    bit_at(p.opposing().occupied(), m.to_square.idx())
}

/// Whether the square that `m` enters is empty.
pub open spec fn enters_empty(p: Position, m: Move) -> bool {
    !bit_at(p.own().occupied(), m.to_square.idx()) && !bit_at(
        p.opposing().occupied(),
        m.to_square.idx(),
    )
}

/// The kind that a pawn's move must name: a queen on the last rank, nothing
/// elsewhere.
pub open spec fn promotion_due(p: Position, m: Move) -> PieceType {
    if m.to_square.relative(p.turn).rank() == 7 {
        PieceType::Queen
    } else {
        PieceType::Null
    }
}

/// The rule for a pawn's capture: one step diagonally ahead, onto a piece of
/// the other side or onto the sixth rank of a file open to en-passant
/// capture.
pub open spec fn pawn_capture_rule(p: Position, m: Move) -> bool {
    &&& bit_at(p.own().pawns, m.from_square.idx())
    &&& (file_change(m) == 1 || file_change(m) == -1)
    &&& rank_change(m, p.turn) == 1
    &&& (enters_enemy(p, m) || (file_open(p.en_passant, m.to_square.file())
        && m.to_square.relative(p.turn).rank() == 5))
    &&& m.promote_type == promotion_due(p, m)
}

/// The number of the square that a pawn crosses when it advances two
/// squares by `m`.
pub open spec fn crossed_square(p: Position, m: Move) -> int {
    seen_index(p.turn, m.from_square.relative(p.turn).idx() + 8)
}

/// Whether the square with number `i` holds no piece.
pub open spec fn is_empty(p: Position, i: int) -> bool {
    !bit_at(p.own().occupied(), i) && !bit_at(p.opposing().occupied(), i)
}

/// The rule for a pawn's advance: one square straight ahead onto an empty
/// square, or two from the second rank over an empty square onto an empty
/// square.
pub open spec fn pawn_push_rule(p: Position, m: Move) -> bool {
    &&& bit_at(p.own().pawns, m.from_square.idx())
    &&& file_change(m) == 0
    &&& enters_empty(p, m)
    &&& (rank_change(m, p.turn) == 1 || (rank_change(m, p.turn) == 2
        && m.from_square.relative(p.turn).rank() == 1 && is_empty(p, crossed_square(p, m))))
    &&& m.promote_type == (if rank_change(m, p.turn) == 1 {
        promotion_due(p, m)
    } else {
        PieceType::Null
    })
}

/// Whether `dir` runs along a diagonal.
pub open spec fn is_diagonal(dir: Direction) -> bool {
    dir.dx() != 0 && dir.dy() != 0
}

/// Whether `m` goes `d` steps in direction `dir`, as the side to move sees
/// the board, over empty squares.
pub open spec fn slides_along(p: Position, m: Move, dir: Direction, d: int) -> bool {
    let f = m.from_square.file();
    let r = m.from_square.relative(p.turn).rank();
    &&& 1 <= d <= 7
    &&& along_on_board(f, r, dir, d)
    &&& m.to_square.relative(p.turn).idx() == square_along(f, r, dir, d)
    &&& forall|k: int|
        0 < k < d ==> is_empty(p, seen_index(p.turn, #[trigger] square_along(f, r, dir, k)))
}

/// Whether `m` goes in a straight line over empty squares: along a diagonal
/// if `diagonal`, else along a rank or a file.
pub open spec fn slides(p: Position, m: Move, diagonal: bool) -> bool {
    exists|dir: Direction, d: int|
        is_diagonal(dir) == diagonal && #[trigger] slides_along(p, m, dir, d)
}

/// The rule for a piece other than a pawn: the square entered holds no piece
/// of the mover's side, and lies from the square left as the piece moves; the
/// squares that a bishop, a rook or a queen crosses are empty.
pub open spec fn piece_rule(p: Position, m: Move) -> bool {
    let dx = file_change(m);
    let dy = rank_change(m, p.turn);
    let from = m.from_square.idx();
    &&& m.promote_type == PieceType::Null
    &&& (enters_enemy(p, m) || enters_empty(p, m))
    &&& {
        ||| bit_at(p.own().knights, from) && ((dx == 1 || dx == -1) && (dy == 2 || dy == -2) || (dx
            == 2 || dx == -2) && (dy == 1 || dy == -1))
        ||| bit_at(p.own().bishops | p.own().queens, from) && slides(p, m, true)
        ||| bit_at(p.own().rooks | p.own().queens, from) && slides(p, m, false)
        ||| bit_at(p.own().king, from) && -1 <= dx <= 1 && -1 <= dy <= 1 && (dx != 0 || dy != 0)
    }
}

/// The rules of movement: what every move that the generator gives obeys.
pub open spec fn allowed(p: Position, m: Move) -> bool {
    pawn_capture_rule(p, m) || pawn_push_rule(p, m) || piece_rule(p, m) || is_castling(p, m)
}

proof fn lemma_prey_bits(ep: u8, k: u64, t: u64)
    by (bit_vector)
    requires
        k < 8,
        t < 64,
    ensures
        bit((ep as u64) << 40, (40 + k) as u64) == ((ep >> (k as u8)) & 1 == 1),
        t < 40 || t >= 48 ==> !bit((ep as u64) << 40, t),
{
}

/// The squares on which a pawn may capture, as the side to move sees them:
/// those that the other side occupies, and on the sixth rank those of the
/// files open to en-passant capture.
pub proof fn lemma_prey_squares(p: Position, t: int)
    requires
        0 <= t < 64,
    ensures
        bit_at(pawn_prey(p), t) == (bit_at(enemy_view(p), t) || (40 <= t < 48 && file_open(
            p.en_passant,
            t - 40,
        ))),
{
    lemma_bit_ops(enemy_view(p), (p.en_passant as u64) << 40, t as u64, 0);
    lemma_prey_bits(p.en_passant, 0, t as u64);
    if 40 <= t < 48 {
        lemma_prey_bits(p.en_passant, (t - 40) as u64, t as u64);
    }
}

/// The pieces as the side to move sees them occupy the squares that they
/// occupy on the board, under the numbers by which that side counts them.
pub proof fn lemma_view_square(x: Pieces, turn: Color, i: int)
    requires
        0 <= i < 64,
    ensures
        bit_at(x.relative(turn).occupied(), i) == bit_at(x.occupied(), seen_index(turn, i)),
        x.relative(turn).king == relative(x.king, turn),
        x.relative(turn).queens == relative(x.queens, turn),
        x.relative(turn).rooks == relative(x.rooks, turn),
        x.relative(turn).bishops == relative(x.bishops, turn),
        x.relative(turn).knights == relative(x.knights, turn),
        x.relative(turn).pawns == relative(x.pawns, turn),
        bit_at(x.relative(turn).bishops | x.relative(turn).queens, i) == bit_at(
            x.bishops | x.queens,
            seen_index(turn, i),
        ),
        bit_at(x.relative(turn).rooks | x.relative(turn).queens, i) == bit_at(
            x.rooks | x.queens,
            seen_index(turn, i),
        ),
{
    let j = seen_index(turn, i);
    lemma_relative_square(turn, i);
    x.relative(turn).lemma_square(i);
    x.lemma_square(j);
    lemma_relative_bit(x.king, turn, i);
    lemma_relative_bit(x.queens, turn, i);
    lemma_relative_bit(x.rooks, turn, i);
    lemma_relative_bit(x.bishops, turn, i);
    lemma_relative_bit(x.knights, turn, i);
    lemma_relative_bit(x.pawns, turn, i);
    lemma_bit_ops(x.relative(turn).bishops, x.relative(turn).queens, i as u64, 0);
    lemma_bit_ops(x.bishops, x.queens, j as u64, 0);
    lemma_bit_ops(x.relative(turn).rooks, x.relative(turn).queens, i as u64, 0);
    lemma_bit_ops(x.rooks, x.queens, j as u64, 0);
}

/// A square that the side to move sees as empty is empty on the board.
pub proof fn lemma_view_empty(p: Position, j: int)
    requires
        0 <= j < 64,
    ensures
        bit_at(!occupied_view(p), j) == is_empty(p, seen_index(p.turn, j)),
        bit_at(occupied_view(p), j) == !is_empty(p, seen_index(p.turn, j)),
        0 <= seen_index(p.turn, j) < 64,
{
    lemma_relative_square(p.turn, j);
    lemma_relative_bit(p.opposing().occupied(), p.turn, j);
    lemma_view_square(p.own(), p.turn, j);
    lemma_bit_ops(own_view(p).occupied(), enemy_view(p), j as u64, 0);
    lemma_bit_ops(occupied_view(p), 0, j as u64, 0);
}

/// What it means on the board that the square which `m` enters is among the
/// squares of the other side, or among the empty squares, as the side to
/// move sees them.
pub proof fn lemma_target(p: Position, m: Move)
    ensures
        bit_at(enemy_view(p), m.to_square.relative(p.turn).idx()) == enters_enemy(p, m),
        bit_at(!occupied_view(p), m.to_square.relative(p.turn).idx()) == enters_empty(p, m),
        bit_at(own_view(p).occupied(), m.to_square.relative(p.turn).idx()) == bit_at(
            p.own().occupied(),
            m.to_square.idx(),
        ),
{
    let t = m.to_square.relative(p.turn).idx();
    lemma_relative_twice(m.to_square, p.turn);
    Square::lemma_idx_at(m.to_square);
    lemma_relative_square(p.turn, m.to_square.idx());
    Square::lemma_idx_at(m.to_square.relative(p.turn));
    assert(seen_index(p.turn, t) == m.to_square.idx());
    lemma_relative_bit(p.opposing().occupied(), p.turn, t);
    lemma_view_square(p.own(), p.turn, t);
    lemma_bit_ops(own_view(p).occupied(), enemy_view(p), t as u64, 0);
    lemma_bit_ops(occupied_view(p), 0, t as u64, 0);
}

/// A pawn's capture that the generator gives obeys the rule for it.
pub proof fn lemma_pawn_capture_rule(p: Position, m: Move)
    requires
        is_pawn_capture(p, m),
    ensures
        pawn_capture_rule(p, m),
{
    let pawns = own_view(p).pawns;
    let prey = pawn_prey(p);
    let west = slid(pawns, Direction::NW, 1) & prey;
    let east = slid(pawns, Direction::NE, 1) & prey;
    let is_west = steps_onto(west, -1, 1, p.turn, true, m);
    let targets = if is_west {
        west
    } else {
        east
    };
    let dx: int = if is_west {
        -1
    } else {
        1
    };
    let dir = if is_west {
        Direction::NW
    } else {
        Direction::NE
    };
    lemma_view_square(p.own(), p.turn, 0);
    assert forall|t: int| 0 <= t < 64 && bit_at(targets, t) implies #[trigger] reached(
        relative(p.own().pawns, p.turn),
        dx,
        1,
        t,
    ) by {
        lemma_bit_ops(slid(pawns, dir, 1), prey, t as u64, 0);
        lemma_slid_square(pawns, dir, 1, t);
    }
    lemma_carries(p.own().pawns, targets, dx, 1, p.turn, true, m);
    let t = m.to_square.relative(p.turn).idx();
    lemma_relative_twice(m.to_square, p.turn);
    Square::lemma_idx_at(m.to_square.relative(p.turn));
    lemma_bit_ops(slid(pawns, dir, 1), prey, t as u64, 0);
    lemma_bit_ops(enemy_view(p), (p.en_passant as u64) << 40, t as u64, 0);
    lemma_target(p, m);
    if !enters_enemy(p, m) {
        lemma_prey_bits(p.en_passant, 0, t as u64);
        assert(40 <= t < 48);
        lemma_prey_bits(p.en_passant, (t - 40) as u64, t as u64);
    }
}

/// A pawn's advance that the generator gives obeys the rule for it.
pub proof fn lemma_pawn_push_rule(p: Position, m: Move)
    requires
        is_pawn_push(p, m) || is_pawn_double_push(p, m),
    ensures
        pawn_push_rule(p, m),
{
    let pawns = own_view(p).pawns;
    let free = !occupied_view(p);
    let one = pawn_push_targets(p);
    let two = pawn_double_targets(p);
    lemma_view_square(p.own(), p.turn, 0);
    lemma_relative_twice(m.to_square, p.turn);
    lemma_relative_twice(m.from_square, p.turn);
    Square::lemma_idx_at(m.to_square.relative(p.turn));
    Square::lemma_idx_at(m.from_square.relative(p.turn));
    let t = m.to_square.relative(p.turn).idx();
    lemma_target(p, m);
    if is_pawn_push(p, m) {
        assert forall|t: int| 0 <= t < 64 && bit_at(one, t) implies #[trigger] reached(
            relative(p.own().pawns, p.turn),
            0,
            1,
            t,
        ) by {
            lemma_bit_ops(slid(pawns, Direction::N, 1), free, t as u64, 0);
            lemma_slid_square(pawns, Direction::N, 1, t);
        }
        lemma_carries(p.own().pawns, one, 0, 1, p.turn, true, m);
        lemma_bit_ops(slid(pawns, Direction::N, 1), free, t as u64, 0);
    } else {
        assert forall|t: int| 0 <= t < 64 && #[trigger] bit_at(two, t) implies reached(
            relative(p.own().pawns, p.turn),
            0,
            2,
            t,
        ) && 24 <= t < 32 && bit_at(free, t - 8) by {
            lemma_bit_ops(slid(one & RANK_3, Direction::N, 1), free, t as u64, 0);
            lemma_slid_square(one & RANK_3, Direction::N, 1, t);
            let s = t - 8;
            lemma_bit_ops(one, RANK_3, s as u64, 0);
            lemma_rank_3(s as u64);
            lemma_bit_ops(slid(pawns, Direction::N, 1), free, s as u64, 0);
            lemma_slid_square(pawns, Direction::N, 1, s);
        }
        lemma_carries(p.own().pawns, two, 0, 2, p.turn, false, m);
        assert(bit_at(two, t));
        assert(24 <= t < 32);
        lemma_view_empty(p, t - 8);
        lemma_bit_ops(slid(one & RANK_3, Direction::N, 1), free, t as u64, 0);
    }
}

/// A knight's move that the generator gives obeys the rule for it.
pub proof fn lemma_knight_rule(p: Position, mask: u64, m: Move)
    requires
        is_knight_move(p, mask, m),
        mask == enemy_view(p) || mask == !occupied_view(p),
    ensures
        piece_rule(p, m),
        bit_at(p.own().knights, m.from_square.idx()),
        bit_at(mask, m.to_square.relative(p.turn).idx()),
{
    let knights = own_view(p).knights;
    let i = choose|i: int|
        0 <= i < 8 && #[trigger] steps_onto(
            hopped(knights, KNIGHT_HOPS[i]) & mask,
            KNIGHT_HOPS[i].dx(),
            KNIGHT_HOPS[i].dy(),
            p.turn,
            false,
            m,
        );
    let kh = KNIGHT_HOPS[i];
    let targets = hopped(knights, kh) & mask;
    lemma_view_square(p.own(), p.turn, 0);
    assert forall|t: int| 0 <= t < 64 && bit_at(targets, t) implies #[trigger] reached(
        relative(p.own().knights, p.turn),
        kh.dx(),
        kh.dy(),
        t,
    ) by {
        lemma_bit_ops(hopped(knights, kh), mask, t as u64, 0);
        lemma_hopped_square(knights, kh, t);
    }
    lemma_carries(p.own().knights, targets, kh.dx(), kh.dy(), p.turn, false, m);
    let t = m.to_square.relative(p.turn).idx();
    Square::lemma_idx_at(m.to_square.relative(p.turn));
    lemma_bit_ops(hopped(knights, kh), mask, t as u64, 0);
    lemma_target(p, m);
}

/// A king's step that the generator gives obeys the rule for it.
pub proof fn lemma_king_rule(p: Position, mask: u64, m: Move)
    requires
        is_king_step(p, mask, m),
        mask == enemy_view(p) || mask == !occupied_view(p),
    ensures
        piece_rule(p, m),
        bit_at(p.own().king, m.from_square.idx()),
        bit_at(mask, m.to_square.relative(p.turn).idx()),
        -1 <= file_change(m) <= 1,
{
    let king = own_view(p).king;
    let i = choose|i: int|
        0 <= i < 8 && #[trigger] steps_onto(
            slid(king, KING_DIRECTIONS[i], 1) & mask,
            KING_DIRECTIONS[i].dx(),
            KING_DIRECTIONS[i].dy(),
            p.turn,
            false,
            m,
        );
    let dir = KING_DIRECTIONS[i];
    let targets = slid(king, dir, 1) & mask;
    lemma_view_square(p.own(), p.turn, 0);
    assert forall|t: int| 0 <= t < 64 && bit_at(targets, t) implies #[trigger] reached(
        relative(p.own().king, p.turn),
        dir.dx(),
        dir.dy(),
        t,
    ) by {
        lemma_bit_ops(slid(king, dir, 1), mask, t as u64, 0);
        lemma_slid_square(king, dir, 1, t);
    }
    lemma_carries(p.own().king, targets, dir.dx(), dir.dy(), p.turn, false, m);
    let t = m.to_square.relative(p.turn).idx();
    Square::lemma_idx_at(m.to_square.relative(p.turn));
    lemma_bit_ops(slid(king, dir, 1), mask, t as u64, 0);
    lemma_target(p, m);
}

/// A move along a ray that the generator gives takes a piece of the origin
/// as many steps in the ray's direction as the ray was followed.
pub proof fn lemma_slider_rule(
    p: Position,
    origin: u64,
    dirs: [Direction; 4],
    mask: u64,
    m: Move,
) -> (r: (Direction, int))
    requires
        is_slider_move(p, relative(origin, p.turn), dirs, mask, m),
    ensures
        exists|i: int| 0 <= i < 4 && r.0 == dirs[i],
        1 <= r.1 <= 7,
        carries(
            origin,
            ray_stepped(relative(origin, p.turn), r.0, !occupied_view(p), r.1 as nat) & mask,
            r.0.dx() * r.1,
            r.0.dy() * r.1,
            p.turn,
            false,
            m,
        ),
        bit_at(origin, m.from_square.idx()),
        bit_at(mask, m.to_square.relative(p.turn).idx()),
        file_change(m) == r.0.dx() * r.1,
        rank_change(m, p.turn) == r.0.dy() * r.1,
        m.promote_type == PieceType::Null,
        slides_along(p, m, r.0, r.1),
{
    let seen = relative(origin, p.turn);
    let free = !occupied_view(p);
    let (i, d) = choose|i: int, d: int|
        0 <= i < 4 && 1 <= d <= 7 && #[trigger] steps_onto(
            ray_stepped(seen, dirs[i], free, d as nat) & mask,
            dirs[i].dx() * d,
            dirs[i].dy() * d,
            p.turn,
            false,
            m,
        );
    let dir = dirs[i];
    let stepped = ray_stepped(seen, dir, free, d as nat);
    let targets = stepped & mask;
    assert forall|t: int| 0 <= t < 64 && bit_at(targets, t) implies #[trigger] reached(
        seen,
        dir.dx() * d,
        dir.dy() * d,
        t,
    ) by {
        lemma_bit_ops(stepped, mask, t as u64, 0);
        lemma_ray_square(seen, dir, free, d as nat, t);
    }
    lemma_carries(origin, targets, dir.dx() * d, dir.dy() * d, p.turn, false, m);
    let t = m.to_square.relative(p.turn).idx();
    Square::lemma_idx_at(m.to_square.relative(p.turn));
    Square::lemma_idx_at(m.from_square.relative(p.turn));
    lemma_relative_twice(m.from_square, p.turn);
    lemma_bit_ops(stepped, mask, t as u64, 0);
    let from = lemma_ray_way(seen, dir, free, d, t);
    assert(from.0 == m.from_square.file());
    assert(from.1 == m.from_square.relative(p.turn).rank());
    assert forall|k: int| 0 < k < d implies is_empty(
        p,
        seen_index(p.turn, #[trigger] square_along(from.0, from.1, dir, k)),
    ) by {
        lemma_along_on_board(from.0, from.1, dir, d, k);
        lemma_view_empty(p, square_along(from.0, from.1, dir, k));
    }
    (dir, d)
}

/// A move of a bishop, rook or queen that the generator gives obeys the rule
/// for it.
pub proof fn lemma_sliders_rule(p: Position, mask: u64, m: Move)
    requires
        mask == enemy_view(p) || mask == !occupied_view(p),
        is_slider_move(p, own_view(p).bishops | own_view(p).queens, BISHOP_DIRECTIONS, mask, m)
            || is_slider_move(
            p,
            own_view(p).rooks | own_view(p).queens,
            ROOK_DIRECTIONS,
            mask,
            m,
        ),
    ensures
        piece_rule(p, m),
        bit_at(p.own().bishops | p.own().queens | p.own().rooks, m.from_square.idx()),
        bit_at(mask, m.to_square.relative(p.turn).idx()),
{
    let own = p.own();
    let f = m.from_square.idx();
    Square::lemma_idx_at(m.from_square);
    lemma_view_square(own, p.turn, 0);
    lemma_target(p, m);
    lemma_bit_ops(own.bishops | own.queens, own.rooks, f as u64, 0);
    lemma_bit_ops(own.bishops, own.queens, f as u64, 0);
    lemma_bit_ops(own.rooks, own.queens, f as u64, 0);
    if is_slider_move(p, own_view(p).bishops | own_view(p).queens, BISHOP_DIRECTIONS, mask, m) {
        assert(own_view(p).bishops | own_view(p).queens == relative(
            own.bishops | own.queens,
            p.turn,
        )) by {
            lemma_relative_union(own.bishops, own.queens, p.turn);
        }
        let r = lemma_slider_rule(p, own.bishops | own.queens, BISHOP_DIRECTIONS, mask, m);
        assert(is_diagonal(r.0));
        assert(slides(p, m, true));
    } else {
        assert(own_view(p).rooks | own_view(p).queens == relative(own.rooks | own.queens, p.turn))
            by {
            lemma_relative_union(own.rooks, own.queens, p.turn);
        }
        let r = lemma_slider_rule(p, own.rooks | own.queens, ROOK_DIRECTIONS, mask, m);
        assert(!is_diagonal(r.0));
        assert(slides(p, m, false));
    }
}

proof fn lemma_flipped_union(a: u64, b: u64)
    by (bit_vector)
    ensures
        crate::bitboard::flipped(a) | crate::bitboard::flipped(b) == crate::bitboard::flipped(a | b),
{
}

/// The union of two sets as a side sees them is what that side sees of their
/// union.
pub proof fn lemma_relative_union(a: u64, b: u64, turn: Color)
    ensures
        relative(a, turn) | relative(b, turn) == relative(a | b, turn),
{
    lemma_flipped_union(a, b);
}

/// Every move that the generator gives obeys the rules of movement.
pub proof fn lemma_generated_moves_allowed(p: Position, m: Move)
    requires
        pseudo_moves(p).contains(m),
    ensures
        allowed(p, m),
{
    lemma_pseudo_moves(p, m);
    let e = enemy_view(p);
    let free = !occupied_view(p);
    if is_pawn_capture(p, m) {
        lemma_pawn_capture_rule(p, m);
    } else if is_pawn_push(p, m) || is_pawn_double_push(p, m) {
        lemma_pawn_push_rule(p, m);
    } else if is_piece_move(p, e, m) {
        lemma_piece_rule(p, e, m);
    } else if is_piece_move(p, free, m) {
        lemma_piece_rule(p, free, m);
    }
}

/// A move of a piece other than a pawn that the generator gives obeys the
/// rule for it.
pub proof fn lemma_piece_rule(p: Position, mask: u64, m: Move)
    requires
        is_piece_move(p, mask, m),
        mask == enemy_view(p) || mask == !occupied_view(p),
    ensures
        piece_rule(p, m),
        bit_at(mask, m.to_square.relative(p.turn).idx()),
{
    if is_knight_move(p, mask, m) {
        lemma_knight_rule(p, mask, m);
    } else if is_king_step(p, mask, m) {
        lemma_king_rule(p, mask, m);
    } else {
        lemma_sliders_rule(p, mask, m);
    }
}

/// What the kind of the moving piece says of the square that the move
/// leaves: the set of that kind holds it, and no set of a kind that comes
/// before it in the order king, queen, rook, bishop, knight, pawn.
pub proof fn lemma_moving_kind(p: Position, m: Move)
    ensures
        moving_kind(p, m) != PieceType::Null ==> bit_at(
            p.own().of_kind(moving_kind(p, m)),
            m.from_square.idx(),
        ),
        moving_kind(p, m) == PieceType::Pawn ==> {
            &&& !bit_at(p.own().king, m.from_square.idx())
            &&& !bit_at(p.own().queens, m.from_square.idx())
            &&& !bit_at(p.own().rooks, m.from_square.idx())
            &&& !bit_at(p.own().bishops, m.from_square.idx())
            &&& !bit_at(p.own().knights, m.from_square.idx())
        },
        moving_kind(p, m) == PieceType::King <==> bit_at(p.own().king, m.from_square.idx()),
        p.consistent() ==> forall|t: PieceType|
            t != PieceType::Null ==> (bit_at(#[trigger] p.own().of_kind(t), m.from_square.idx())
                <==> moving_kind(p, m) == t),
{
    let f = m.from_square.idx();
    Square::lemma_idx_at(m.from_square);
    p.own().lemma_square(f);
    lemma_meets_square(p.own().king, f);
    lemma_meets_square(p.own().queens, f);
    lemma_meets_square(p.own().rooks, f);
    lemma_meets_square(p.own().bishops, f);
    lemma_meets_square(p.own().knights, f);
    lemma_meets_square(p.own().pawns, f);
    if p.consistent() {
        assert(p.pieces_at(f) <= 1);
    }
}

/// The squares of a castling move, as the side that castles sees them.
pub proof fn lemma_castle_move(turn: Color, long: bool)
    ensures
        castle_move(turn, long).from_square.relative(turn) == Square::E1,
        castle_move(turn, long).to_square.relative(turn) == (if long {
            Square::C1
        } else {
            Square::G1
        }),
        castle_move(turn, long).from_square.file() == 4,
        castle_move(turn, long).to_square.file() == (if long {
            2int
        } else {
            6int
        }),
        castle_move(turn, long).from_square.idx() == seen_index(turn, 4),
        castle_move(turn, long).to_square.idx() == seen_index(turn, if long { 2 } else { 6 }),
        castle_move(turn, long).promote_type == PieceType::Null,
{
    lemma_relative_twice(Square::E1, turn);
    lemma_relative_twice(Square::C1, turn);
    lemma_relative_twice(Square::G1, turn);
}

/// A pawn that reaches the last rank is promoted to a queen: every move of a
/// pawn onto the last rank that the generator gives names the queen.
pub proof fn lemma_promotion_to_queen(p: Position, m: Move)
    requires
        pseudo_moves(p).contains(m),
        moving_kind(p, m) == PieceType::Pawn,
        m.to_square.relative(p.turn).rank() == 7,
    ensures
        m.promote_type == PieceType::Queen,
{
    lemma_generated_moves_allowed(p, m);
    lemma_moving_kind(p, m);
    let f = m.from_square.idx();
    Square::lemma_idx_at(m.from_square);
    lemma_bit_ops(p.own().bishops, p.own().queens, f as u64, 0);
    lemma_bit_ops(p.own().rooks, p.own().queens, f as u64, 0);
    if is_castling(p, m) {
        let long = choose|long: bool| #[trigger] may_castle(p, long) && m == castle_move(
            p.turn,
            long,
        );
        lemma_castle_move(p.turn, long);
    }
}

/// Castling is generated only when it may be made: a king's move of two
/// files that the generator gives is a castling move, and the side holds the
/// right to it, the squares between king and rook are empty, the king cannot
/// be taken where it stands and could not be taken on the square it crosses.
pub proof fn lemma_castling_only_when_allowed(p: Position, m: Move)
    requires
        p.consistent(),
        pseudo_moves(p).contains(m),
        moving_kind(p, m) == PieceType::King,
        file_change(m) == 2 || file_change(m) == -2,
    ensures
        exists|long: bool| #[trigger] may_castle(p, long) && m == castle_move(p.turn, long),
{
    lemma_generated_moves_allowed(p, m);
    lemma_moving_kind(p, m);
    let f = m.from_square.idx();
    Square::lemma_idx_at(m.from_square);
    lemma_bit_ops(p.own().bishops, p.own().queens, f as u64, 0);
    lemma_bit_ops(p.own().rooks, p.own().queens, f as u64, 0);
    assert(p.own().king == p.own().of_kind(PieceType::King));
    assert(p.own().queens == p.own().of_kind(PieceType::Queen));
    assert(p.own().rooks == p.own().of_kind(PieceType::Rook));
    assert(p.own().bishops == p.own().of_kind(PieceType::Bishop));
    assert(p.own().knights == p.own().of_kind(PieceType::Knight));
    assert(p.own().pawns == p.own().of_kind(PieceType::Pawn));
}

/// The castling rights fit the pieces: a side holds a right only while its
/// king and the rook of that side of the board stand on their first squares.
pub open spec fn rights_sound(p: Position) -> bool {
    &&& p.castling.white_long ==> bit_at(p.white.king, 4) && bit_at(p.white.rooks, 0)
    &&& p.castling.white_short ==> bit_at(p.white.king, 4) && bit_at(p.white.rooks, 7)
    &&& p.castling.black_long ==> bit_at(p.black.king, 60) && bit_at(p.black.rooks, 56)
    &&& p.castling.black_short ==> bit_at(p.black.king, 60) && bit_at(p.black.rooks, 63)
}

/// En-passant capture is generated only for a file that is open to it: a
/// pawn's move to another file onto a square that holds no piece of the
/// other side is generated only onto the sixth rank of such a file.
pub proof fn lemma_en_passant_only_on_open_file(p: Position, m: Move)
    requires
        p.consistent(),
        rights_sound(p),
        pseudo_moves(p).contains(m),
        moving_kind(p, m) == PieceType::Pawn,
        file_change(m) != 0,
        !enters_enemy(p, m),
    ensures
        takes_en_passant(p, m),
        file_open(p.en_passant, m.to_square.file()),
{
    lemma_generated_moves_allowed(p, m);
    lemma_moving_kind(p, m);
    let f = m.from_square.idx();
    Square::lemma_idx_at(m.from_square);
    lemma_bit_ops(p.own().bishops, p.own().queens, f as u64, 0);
    lemma_bit_ops(p.own().rooks, p.own().queens, f as u64, 0);
    if is_castling(p, m) {
        let long = choose|long: bool| #[trigger] may_castle(p, long) && m == castle_move(
            p.turn,
            long,
        );
        lemma_castle_move(p.turn, long);
    }
}

/// En-passant capture is generated only on the ply that follows the matching
/// advance: if the position after move `n` allows a pawn to capture onto a
/// square that holds no piece, then `n` took a pawn of the other side two
/// squares ahead on the file of that square.
pub proof fn lemma_en_passant_follows_double_push(q: Position, n: Move, m: Move)
    requires
        moving_kind(q, n) != PieceType::Null,
        moved(q, n).consistent(),
        rights_sound(moved(q, n)),
        pseudo_moves(moved(q, n)).contains(m),
        moving_kind(moved(q, n), m) == PieceType::Pawn,
        file_change(m) != 0,
        !enters_enemy(moved(q, n), m),
    ensures
        is_double_push(q, n),
        n.from_square.file() == m.to_square.file(),
{
    lemma_en_passant_only_on_open_file(moved(q, n), m);
    lemma_moved_en_passant(q, n);
}

/// Whether the side to move is in check: the other side, were it to move,
/// could take its king.
pub open spec fn in_check(p: Position) -> bool {
    !position_legal(p.passed())
}

/// After a legal move the mover is not in check: with the mover to move
/// again, its king could not be taken.
pub proof fn lemma_mover_not_in_check(p: Position, m: Move)
    requires
        legal_moves(p).contains(m),
    ensures
        position_legal(moved(p, m)),
        !in_check(moved(p, m).passed()),
{
    lemma_legal_moves(p, m);
    assert(moved(p, m).passed().passed() == moved(p, m));
}

/// A move that the generator gives promotes to a queen or not at all, and is
/// read back from its notation.
pub proof fn lemma_generated_move_round_trip(p: Position, m: Move)
    requires
        pseudo_moves(p).contains(m),
    ensures
        m.promote_type == PieceType::Null || m.promote_type == PieceType::Queen,
        Move::parse(m.uci()) == Some(m),
{
    lemma_generated_moves_allowed(p, m);
    if is_castling(p, m) {
        let long = choose|long: bool| #[trigger] may_castle(p, long) && m == castle_move(
            p.turn,
            long,
        );
    }
    crate::notation::lemma_uci_round_trip(m);
}

} // verus!
