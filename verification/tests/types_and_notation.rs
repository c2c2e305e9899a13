use chess_engine::types::{
    Color, Direction, KnightHop, Move, PieceType, Square, BISHOP_DIRECTIONS, KING_DIRECTIONS,
    KNIGHT_HOPS, ROOK_DIRECTIONS,
};

#[test]
fn squares_are_numbered_from_a1() {
    assert_eq!(Square::A1.index(), 0);
    assert_eq!(Square::H1.index(), 7);
    assert_eq!(Square::A2.index(), 8);
    assert_eq!(Square::E4.index(), 28);
    assert_eq!(Square::A8.index(), 56);
    assert_eq!(Square::H8.index(), 63);
    assert_eq!(Square::from_index(0), Some(Square::A1));
    assert_eq!(Square::from_index(28), Some(Square::E4));
    assert_eq!(Square::from_index(63), Some(Square::H8));
    assert_eq!(Square::from_index(64), None);
    assert_eq!(Square::from_index(u32::MAX), None);
    for i in 0..64u32 {
        assert_eq!(Square::from_index(i).unwrap().index(), i);
    }
}

#[test]
fn square_slide_stays_on_the_board() {
    assert_eq!(Square::E4.slide(Direction::N, 1), Some(Square::E5));
    assert_eq!(Square::E4.slide(Direction::S, 3), Some(Square::E1));
    assert_eq!(Square::E4.slide(Direction::S, 4), None);
    assert_eq!(Square::E4.slide(Direction::E, 3), Some(Square::H4));
    assert_eq!(Square::E4.slide(Direction::E, 4), None);
    assert_eq!(Square::E4.slide(Direction::NW, 4), Some(Square::A8));
    assert_eq!(Square::E4.slide(Direction::NW, 5), None);
    assert_eq!(Square::E4.slide(Direction::SE, 3), Some(Square::H1));
    assert_eq!(Square::E4.slide(Direction::SW, 3), Some(Square::B1));
    assert_eq!(Square::E4.slide(Direction::NE, 0), Some(Square::E4));
    assert_eq!(Square::E4.slide(Direction::N, -1), Some(Square::E3));
    assert_eq!(Square::A1.slide(Direction::NE, 7), Some(Square::H8));
    assert_eq!(Square::A1.slide(Direction::NE, 8), None);
    assert_eq!(Square::A1.slide(Direction::N, i32::MAX), None);
    assert_eq!(Square::A1.slide(Direction::N, i32::MIN), None);
    assert_eq!(Square::A1.slide(Direction::W, 1), None);
    assert_eq!(Square::H8.slide(Direction::N, 1), None);
}

#[test]
fn square_offset_and_knight_hops() {
    assert_eq!(Square::E4.offset(1, 2), Some(Square::F6));
    assert_eq!(Square::E4.offset(-4, -3), Some(Square::A1));
    assert_eq!(Square::E4.offset(4, 0), None);
    assert_eq!(Square::E4.offset(0, 100), None);
    assert_eq!(Square::E4.offset(i32::MIN, i32::MAX), None);
    assert_eq!(Square::G1.knight_hop(KnightHop::NNW), Some(Square::F3));
    assert_eq!(Square::G1.knight_hop(KnightHop::NNE), Some(Square::H3));
    assert_eq!(Square::G1.knight_hop(KnightHop::NEE), None);
    assert_eq!(Square::G1.knight_hop(KnightHop::NWW), Some(Square::E2));
    assert_eq!(Square::G1.knight_hop(KnightHop::SSW), None);
    assert_eq!(Square::B8.knight_hop(KnightHop::SSE), Some(Square::C6));
    assert_eq!(Square::B8.knight_hop(KnightHop::SWW), None);
    assert_eq!(Square::B8.knight_hop(KnightHop::SEE), Some(Square::D7));
}

#[test]
fn relative_squares_mirror_for_black() {
    assert_eq!(Square::E2.rel(Color::White), Square::E2);
    assert_eq!(Square::E2.rel(Color::Black), Square::E7);
    assert_eq!(Square::A1.rel(Color::Black), Square::A8);
    assert_eq!(Square::H8.rel(Color::Black), Square::H1);
    assert_eq!(Square::C4.rel(Color::Black), Square::C5);
    for i in 0..64u32 {
        let sq = Square::from_index(i).unwrap();
        assert_eq!(sq.rel(Color::Black).rel(Color::Black), sq);
        assert_eq!(sq.rel(Color::Black).index(), i ^ 56);
    }
}

#[test]
fn directions_and_hops_reverse() {
    assert_eq!(Direction::N.reverse(), Direction::S);
    assert_eq!(Direction::E.reverse(), Direction::W);
    assert_eq!(Direction::NW.reverse(), Direction::SE);
    assert_eq!(Direction::NE.reverse(), Direction::SW);
    for dir in KING_DIRECTIONS {
        assert_eq!(dir.reverse().reverse(), dir);
        assert_eq!(dir.reverse().file_step(), -dir.file_step());
        assert_eq!(dir.reverse().rank_step(), -dir.rank_step());
        assert_eq!(Square::D4.slide(dir, 2).unwrap().slide(dir.reverse(), 2), Some(Square::D4));
    }
    assert_eq!(KnightHop::NNW.reverse(), KnightHop::SSE);
    assert_eq!(KnightHop::NEE.reverse(), KnightHop::SWW);
    for kh in KNIGHT_HOPS {
        assert_eq!(kh.reverse().reverse(), kh);
        assert_eq!(kh.file_step().abs() * kh.rank_step().abs(), 2);
        assert_eq!(Square::D4.knight_hop(kh).unwrap().knight_hop(kh.reverse()), Some(Square::D4));
    }
    assert_eq!(BISHOP_DIRECTIONS.len(), 4);
    assert_eq!(ROOK_DIRECTIONS.len(), 4);
    for dir in BISHOP_DIRECTIONS {
        assert!(dir.file_step() != 0 && dir.rank_step() != 0);
    }
    for dir in ROOK_DIRECTIONS {
        assert!((dir.file_step() == 0) != (dir.rank_step() == 0));
    }
    assert_eq!(Color::White.opposite(), Color::Black);
    assert_eq!(Color::Black.opposite(), Color::White);
}

fn mv(from: Square, to: Square, promote: PieceType) -> Move {
    Move { from_square: from, to_square: to, promote_type: promote }
}

#[test]
fn moves_are_written_in_long_algebraic_notation() {
    assert_eq!(mv(Square::E2, Square::E4, PieceType::Null).to_uci(), "e2e4");
    assert_eq!(mv(Square::A1, Square::H8, PieceType::Null).to_uci(), "a1h8");
    assert_eq!(mv(Square::E1, Square::G1, PieceType::Null).to_uci(), "e1g1");
    assert_eq!(mv(Square::E7, Square::E8, PieceType::Queen).to_uci(), "e7e8q");
    assert_eq!(mv(Square::A2, Square::B1, PieceType::Rook).to_uci(), "a2b1r");
    assert_eq!(mv(Square::G7, Square::H8, PieceType::Bishop).to_uci(), "g7h8b");
    assert_eq!(mv(Square::C7, Square::C8, PieceType::Knight).to_uci(), "c7c8n");
    // a king or a pawn is nothing to promote to
    assert_eq!(mv(Square::C7, Square::C8, PieceType::King).to_uci(), "c7c8");
    assert_eq!(mv(Square::C7, Square::C8, PieceType::Pawn).to_uci(), "c7c8");
}

#[test]
fn moves_are_read_from_long_algebraic_notation() {
    assert_eq!(Move::from_uci("e2e4"), Some(mv(Square::E2, Square::E4, PieceType::Null)));
    assert_eq!(Move::from_uci("a1h8"), Some(mv(Square::A1, Square::H8, PieceType::Null)));
    assert_eq!(Move::from_uci("e7e8q"), Some(mv(Square::E7, Square::E8, PieceType::Queen)));
    assert_eq!(Move::from_uci("e7e8r"), Some(mv(Square::E7, Square::E8, PieceType::Rook)));
    assert_eq!(Move::from_uci("e7e8b"), Some(mv(Square::E7, Square::E8, PieceType::Bishop)));
    assert_eq!(Move::from_uci("e7e8n"), Some(mv(Square::E7, Square::E8, PieceType::Knight)));
    assert_eq!(Move::from_uci("e1c1"), Some(mv(Square::E1, Square::C1, PieceType::Null)));
}

#[test]
fn other_texts_are_no_moves() {
    for text in [
        "", "e", "e2", "e2e", "e2e4qq", "e2e4 ", " e2e4", "e2e9", "e0e4", "i2e4", "e2i4", "E2E4",
        "e2e4k", "e2e4p", "e2e4Q", "e2-e4", "2e4e", "e2e4\u{e9}", "\u{e9}2e4", "0000",
    ] {
        assert_eq!(Move::from_uci(text), None, "{:?}", text);
    }
}

#[test]
fn reading_what_was_written_gives_the_move_back() {
    let kinds = [
        PieceType::Null,
        PieceType::Queen,
        PieceType::Rook,
        PieceType::Bishop,
        PieceType::Knight,
    ];
    for i in 0..64u32 {
        for j in 0..64u32 {
            for kind in kinds {
                let m = mv(Square::from_index(i).unwrap(), Square::from_index(j).unwrap(), kind);
                assert_eq!(Move::from_uci(&m.to_uci()), Some(m));
            }
        }
    }
}
