use chess_engine::bitboard::{
    bitboard_from_index, flip_bitboard, flip_bitboard_pieces, get_bitboard_pieces_rel,
    get_bitboard_rel, get_pieces_material_value, knight_hop, lowest_square, ray_reach, slide,
    slide1, square_to_bitboard, without_square, Pieces, ALL_SQUARES, FILE_A, FILE_H, RANK_1,
    RANK_2, RANK_7, RANK_8, SQUARE_A1, SQUARE_E1, SQUARE_H8,
};
use chess_engine::types::{Color, Direction, GamePhase, KnightHop, PieceType, Square};

fn white_start() -> Pieces {
    Pieces {
        king: 0x10,
        queens: 0x08,
        rooks: 0x81,
        bishops: 0x24,
        knights: 0x42,
        pawns: 0xFF00,
    }
}

#[test]
fn square_to_bitboard_gives_one_bit() {
    assert_eq!(square_to_bitboard(Square::A1), 1);
    assert_eq!(square_to_bitboard(Square::H1), 0x80);
    assert_eq!(square_to_bitboard(Square::E4), 1u64 << 28);
    assert_eq!(square_to_bitboard(Square::A8), 1u64 << 56);
    assert_eq!(square_to_bitboard(Square::H8), 1u64 << 63);
}

#[test]
fn bitboard_from_index_gives_one_bit() {
    for i in 0..64u32 {
        let b = bitboard_from_index(i);
        assert_eq!(b, 1u64 << i);
        assert_eq!(b.count_ones(), 1);
        assert_eq!(b, square_to_bitboard(Square::from_index(i).unwrap()));
    }
}

#[test]
fn flip_bitboard_swaps_ranks() {
    assert_eq!(flip_bitboard(RANK_1), RANK_8);
    assert_eq!(flip_bitboard(RANK_2), RANK_7);
    assert_eq!(flip_bitboard(SQUARE_A1), 1u64 << 56);
    assert_eq!(flip_bitboard(SQUARE_H8), 0x80);
    assert_eq!(flip_bitboard(0x0000_0000_0000_0201), 0x0102_0000_0000_0000);
    assert_eq!(flip_bitboard(0x0123_4567_89AB_CDEF), 0xEFCD_AB89_6745_2301);
    assert_eq!(flip_bitboard(FILE_A), FILE_A);
    assert_eq!(flip_bitboard(0), 0);
    assert_eq!(flip_bitboard(ALL_SQUARES), ALL_SQUARES);
}

#[test]
fn flip_bitboard_twice_is_identity() {
    let mut x: u64 = 0x9E37_79B9_7F4A_7C15;
    for _ in 0..200 {
        assert_eq!(flip_bitboard(flip_bitboard(x)), x);
        assert_eq!(flip_bitboard(x), x.swap_bytes());
        x = x.wrapping_mul(6364136223846793005).wrapping_add(1442695040888963407);
    }
}

#[test]
fn relative_view_mirrors_for_black_only() {
    assert_eq!(get_bitboard_rel(RANK_2, Color::White), RANK_2);
    assert_eq!(get_bitboard_rel(RANK_2, Color::Black), RANK_7);
    let p = white_start();
    assert_eq!(get_bitboard_pieces_rel(p, Color::White), p);
    let f = get_bitboard_pieces_rel(p, Color::Black);
    assert_eq!(f, flip_bitboard_pieces(p));
    assert_eq!(f.king, 0x10u64 << 56);
    assert_eq!(f.queens, 0x08u64 << 56);
    assert_eq!(f.rooks, 0x81u64 << 56);
    assert_eq!(f.bishops, 0x24u64 << 56);
    assert_eq!(f.knights, 0x42u64 << 56);
    assert_eq!(f.pawns, RANK_7);
    assert_eq!(flip_bitboard_pieces(f), p);
}

#[test]
fn slide_drops_what_leaves_the_board() {
    assert_eq!(slide(FILE_H, Direction::E, 1), 0);
    assert_eq!(slide(FILE_A, Direction::W, 1), 0);
    assert_eq!(slide(RANK_8, Direction::N, 1), 0);
    assert_eq!(slide(RANK_1, Direction::S, 1), 0);
    assert_eq!(slide(FILE_H, Direction::NE, 1), 0);
    assert_eq!(slide(FILE_A, Direction::NW, 1), 0);
    assert_eq!(slide(FILE_A, Direction::SW, 1), 0);
    assert_eq!(slide(FILE_H, Direction::SE, 1), 0);
    assert_eq!(slide(RANK_8, Direction::NE, 1), 0);
    assert_eq!(slide(RANK_1, Direction::SW, 1), 0);
    assert_eq!(slide(ALL_SQUARES, Direction::E, 1), !FILE_A);
    assert_eq!(slide(ALL_SQUARES, Direction::N, 7), RANK_8);
    assert_eq!(slide(ALL_SQUARES, Direction::NE, 7), SQUARE_H8);
    assert_eq!(slide(ALL_SQUARES, Direction::N, 8), 0);
    assert_eq!(slide(ALL_SQUARES, Direction::E, 8), 0);
    assert_eq!(slide(ALL_SQUARES, Direction::SW, 9), 0);
    assert_eq!(slide(ALL_SQUARES, Direction::W, 64), 0);
    assert_eq!(slide(ALL_SQUARES, Direction::S, i32::MAX), 0);
}

#[test]
fn slide_moves_squares_by_the_distance() {
    let e4 = square_to_bitboard(Square::E4);
    assert_eq!(slide(e4, Direction::N, 1), square_to_bitboard(Square::E5));
    assert_eq!(slide(e4, Direction::S, 3), square_to_bitboard(Square::E1));
    assert_eq!(slide(e4, Direction::E, 3), square_to_bitboard(Square::H4));
    assert_eq!(slide(e4, Direction::E, 4), 0);
    assert_eq!(slide(e4, Direction::W, 4), square_to_bitboard(Square::A4));
    assert_eq!(slide(e4, Direction::W, 5), 0);
    assert_eq!(slide(e4, Direction::NW, 2), square_to_bitboard(Square::C6));
    assert_eq!(slide(e4, Direction::NE, 3), square_to_bitboard(Square::H7));
    assert_eq!(slide(e4, Direction::SW, 3), square_to_bitboard(Square::B1));
    assert_eq!(slide(e4, Direction::SE, 3), square_to_bitboard(Square::H1));
    assert_eq!(slide(e4, Direction::SE, 4), 0);
    assert_eq!(slide(SQUARE_A1, Direction::NE, 7), SQUARE_H8);
    assert_eq!(slide(RANK_2, Direction::N, 2), 0xFF00_0000);
    assert_eq!(slide(0x1234_5678_9ABC_DEF0, Direction::N, 0), 0x1234_5678_9ABC_DEF0);
    assert_eq!(slide(0x1234_5678_9ABC_DEF0, Direction::SW, 0), 0x1234_5678_9ABC_DEF0);
}

#[test]
fn slide_equals_repeated_single_steps() {
    let dirs = [
        Direction::N,
        Direction::S,
        Direction::E,
        Direction::W,
        Direction::NW,
        Direction::NE,
        Direction::SW,
        Direction::SE,
    ];
    let mut x: u64 = 0x0123_4567_89AB_CDEF;
    for _ in 0..50 {
        for dir in dirs {
            let mut stepped = x;
            for dist in 0..12 {
                assert_eq!(slide(x, dir, dist), stepped);
                assert_eq!(slide(slide(x, dir, 2), dir, dist), slide(x, dir, dist + 2));
                stepped = slide1(stepped, dir);
            }
        }
        x = x.wrapping_mul(6364136223846793005).wrapping_add(1442695040888963407);
    }
}

#[test]
fn knight_hop_respects_the_edges() {
    let a1 = SQUARE_A1;
    assert_eq!(knight_hop(a1, KnightHop::NNE), square_to_bitboard(Square::B3));
    assert_eq!(knight_hop(a1, KnightHop::NEE), square_to_bitboard(Square::C2));
    assert_eq!(knight_hop(a1, KnightHop::NNW), 0);
    assert_eq!(knight_hop(a1, KnightHop::NWW), 0);
    assert_eq!(knight_hop(a1, KnightHop::SSW), 0);
    assert_eq!(knight_hop(a1, KnightHop::SSE), 0);
    assert_eq!(knight_hop(a1, KnightHop::SWW), 0);
    assert_eq!(knight_hop(a1, KnightHop::SEE), 0);
    let e4 = square_to_bitboard(Square::E4);
    assert_eq!(knight_hop(e4, KnightHop::NNW), square_to_bitboard(Square::D6));
    assert_eq!(knight_hop(e4, KnightHop::NNE), square_to_bitboard(Square::F6));
    assert_eq!(knight_hop(e4, KnightHop::NWW), square_to_bitboard(Square::C5));
    assert_eq!(knight_hop(e4, KnightHop::NEE), square_to_bitboard(Square::G5));
    assert_eq!(knight_hop(e4, KnightHop::SSW), square_to_bitboard(Square::D2));
    assert_eq!(knight_hop(e4, KnightHop::SSE), square_to_bitboard(Square::F2));
    assert_eq!(knight_hop(e4, KnightHop::SWW), square_to_bitboard(Square::C3));
    assert_eq!(knight_hop(e4, KnightHop::SEE), square_to_bitboard(Square::G3));
    let h8 = SQUARE_H8;
    assert_eq!(knight_hop(h8, KnightHop::SSW), square_to_bitboard(Square::G6));
    assert_eq!(knight_hop(h8, KnightHop::SWW), square_to_bitboard(Square::F7));
    assert_eq!(knight_hop(h8, KnightHop::SEE), 0);
    assert_eq!(knight_hop(h8, KnightHop::NNW), 0);
    assert_eq!(knight_hop(FILE_H, KnightHop::NEE), 0);
    assert_eq!(knight_hop(FILE_A, KnightHop::SWW), 0);
}

#[test]
fn knight_hop_agrees_with_square_hops() {
    let hops = [
        KnightHop::NNW,
        KnightHop::NNE,
        KnightHop::NWW,
        KnightHop::NEE,
        KnightHop::SSW,
        KnightHop::SSE,
        KnightHop::SWW,
        KnightHop::SEE,
    ];
    for i in 0..64u32 {
        let sq = Square::from_index(i).unwrap();
        for kh in hops {
            let expected = match sq.knight_hop(kh) {
                Some(t) => square_to_bitboard(t),
                None => 0,
            };
            assert_eq!(knight_hop(square_to_bitboard(sq), kh), expected);
        }
    }
}

#[test]
fn material_value_of_the_starting_pieces() {
    // king 50000, queen 940, rooks 2 x 510, bishops 2 x 325, knights 2 x 265,
    // pawns 90 + 90 + 100 + 45 + 45 + 100 + 90 + 90
    assert_eq!(get_pieces_material_value(white_start(), GamePhase::Middlegame), 53790);
    // in the endgame the king on E1 counts 49970
    assert_eq!(get_pieces_material_value(white_start(), GamePhase::Endgame), 53760);
}

#[test]
fn material_value_of_single_pieces() {
    let none = Pieces { king: 0, queens: 0, rooks: 0, bishops: 0, knights: 0, pawns: 0 };
    assert_eq!(get_pieces_material_value(none, GamePhase::Middlegame), 0);
    let knight_d4 = Pieces { knights: 1u64 << 27, ..none };
    assert_eq!(get_pieces_material_value(knight_d4, GamePhase::Middlegame), 345);
    let pawn_e7 = Pieces { pawns: 1u64 << 52, ..none };
    assert_eq!(get_pieces_material_value(pawn_e7, GamePhase::Endgame), 170);
    let king_a1 = Pieces { king: SQUARE_A1, ..none };
    assert_eq!(get_pieces_material_value(king_a1, GamePhase::Middlegame), 50050);
    assert_eq!(get_pieces_material_value(king_a1, GamePhase::Endgame), 49940);
    // of two kings only the one on the lowest square counts
    let two_kings = Pieces { king: SQUARE_E1 | SQUARE_A1, ..none };
    assert_eq!(get_pieces_material_value(two_kings, GamePhase::Middlegame), 50050);
    let all_queens = Pieces { queens: ALL_SQUARES, ..none };
    assert_eq!(get_pieces_material_value(all_queens, GamePhase::Middlegame), 64 * 940);
}

#[test]
fn lowest_square_and_its_removal() {
    assert_eq!(lowest_square(1), 0);
    assert_eq!(lowest_square(0x8000_0000_0000_0000), 63);
    assert_eq!(lowest_square(0b1011000), 3);
    assert_eq!(without_square(0b1011000, 3), 0b1010000);
    assert_eq!(without_square(0b1011000, 0), 0b1011000);
    assert_eq!(without_square(ALL_SQUARES, 63), ALL_SQUARES >> 1);
}

#[test]
fn pieces_helpers_find_clear_and_place() {
    let p = white_start();
    assert_eq!(p.all(), 0xFFFF);
    assert_eq!(p.piece_type_at(0x10), PieceType::King);
    assert_eq!(p.piece_type_at(0x08), PieceType::Queen);
    assert_eq!(p.piece_type_at(0x01), PieceType::Rook);
    assert_eq!(p.piece_type_at(0x04), PieceType::Bishop);
    assert_eq!(p.piece_type_at(0x02), PieceType::Knight);
    assert_eq!(p.piece_type_at(0x100), PieceType::Pawn);
    assert_eq!(p.piece_type_at(0x10000), PieceType::Null);
    let c = p.cleared(0x0110);
    assert_eq!(c.king, 0);
    assert_eq!(c.pawns, 0xFE00);
    assert_eq!(c.queens, p.queens);
    let q = c.placed(PieceType::Queen, 0x10000);
    assert_eq!(q.queens, 0x10008);
    assert_eq!(c.placed(PieceType::Null, 0x10000), c);
    assert_eq!(c.placed(PieceType::King, 0x40).king, 0x40);
    assert_eq!(c.placed(PieceType::Rook, 0x20).rooks, 0xA1);
    assert_eq!(c.placed(PieceType::Bishop, 0x40).bishops, 0x64);
    assert_eq!(c.placed(PieceType::Knight, 0x20).knights, 0x62);
    assert_eq!(c.placed(PieceType::Pawn, 0x10000).pawns, 0x1FE00);
}

#[test]
fn ray_reach_stops_at_blockers() {
    // a rook on A1 with a blocker on A4 reaches A2 and A3
    let free = !((1u64 << 24) | 1);
    assert_eq!(ray_reach(1, Direction::N, free), (1u64 << 8) | (1u64 << 16));
    // on an empty board it reaches the whole file
    assert_eq!(ray_reach(1, Direction::N, !1u64), FILE_A & !1);
    assert_eq!(ray_reach(1, Direction::NE, !1u64), 0x8040_2010_0804_0200);
    assert_eq!(ray_reach(1, Direction::S, !1u64), 0);
    assert_eq!(ray_reach(0, Direction::N, ALL_SQUARES), 0);
}
