use chess_engine::bitboard::{Pieces, RANK_2, RANK_7};
use chess_engine::move_search::{calc_moves, calc_pmoves};
use chess_engine::types::{Board, CastlingRights, Color, Move, PieceType, Square};
use chess_engine::utils::{apply_move, apply_moves, apply_null_move, start_position};

fn empty_pieces() -> Pieces {
    Pieces { king: 0, queens: 0, rooks: 0, bishops: 0, knights: 0, pawns: 0 }
}

/// Builds a board from the first four fields of a position in Forsyth-Edwards
/// notation.
fn board(fen: &str) -> Board {
    let fields: Vec<&str> = fen.split(' ').collect();
    let mut white = empty_pieces();
    let mut black = empty_pieces();
    let mut rank: u32 = 7;
    let mut file: u32 = 0;
    for c in fields[0].chars() {
        if c == '/' {
            rank -= 1;
            file = 0;
        } else if let Some(d) = c.to_digit(10) {
            file += d;
        } else {
            let bit = 1u64 << (rank * 8 + file);
            let side = if c.is_ascii_uppercase() { &mut white } else { &mut black };
            match c.to_ascii_lowercase() {
                'k' => side.king |= bit,
                'q' => side.queens |= bit,
                'r' => side.rooks |= bit,
                'b' => side.bishops |= bit,
                'n' => side.knights |= bit,
                'p' => side.pawns |= bit,
                _ => panic!("piece {}", c),
            }
            file += 1;
        }
    }
    let en_passant = match fields[3].chars().next() {
        Some(c) if c != '-' => 1u8 << (c as u32 - 'a' as u32),
        _ => 0,
    };
    Board {
        white_bitboard_pieces: white,
        black_bitboard_pieces: black,
        turn: if fields[1] == "w" { Color::White } else { Color::Black },
        castling_rights: CastlingRights {
            white_long: fields[2].contains('Q'),
            white_short: fields[2].contains('K'),
            black_long: fields[2].contains('q'),
            black_short: fields[2].contains('k'),
        },
        enpassant_files: en_passant,
        all_piece_history: [0; 16],
        all_ptr: 0,
    }
}

fn after(moves: &[&str]) -> Board {
    let parsed: Vec<Move> = moves.iter().map(|t| Move::from_uci(t).unwrap()).collect();
    apply_moves(&start_position(), &parsed)
}

fn names(moves: &[Move]) -> Vec<String> {
    moves.iter().map(|m| m.to_uci()).collect()
}

fn has_move(moves: &[Move], text: &str) -> bool {
    moves.iter().any(|m| m.to_uci() == text)
}

fn mv(text: &str) -> Move {
    Move::from_uci(text).unwrap()
}

fn occupancy(b: &Board) -> u64 {
    b.white_bitboard_pieces.all() | b.black_bitboard_pieces.all()
}

fn sets(b: &Board) -> [u64; 12] {
    let w = b.white_bitboard_pieces;
    let k = b.black_bitboard_pieces;
    [
        w.king, w.queens, w.rooks, w.bishops, w.knights, w.pawns, k.king, k.queens, k.rooks,
        k.bishops, k.knights, k.pawns,
    ]
}

fn assert_pieces_apart(b: &Board) {
    let s = sets(b);
    for i in 0..12 {
        for j in (i + 1)..12 {
            assert_eq!(s[i] & s[j], 0);
        }
    }
    assert_eq!(b.white_bitboard_pieces.king.count_ones(), 1);
    assert_eq!(b.black_bitboard_pieces.king.count_ones(), 1);
}

#[test]
fn the_starting_position() {
    let b = start_position();
    assert_eq!(b.turn, Color::White);
    assert_eq!(b.white_bitboard_pieces.king, 0x10);
    assert_eq!(b.white_bitboard_pieces.queens, 0x08);
    assert_eq!(b.white_bitboard_pieces.rooks, 0x81);
    assert_eq!(b.white_bitboard_pieces.bishops, 0x24);
    assert_eq!(b.white_bitboard_pieces.knights, 0x42);
    assert_eq!(b.white_bitboard_pieces.pawns, RANK_2);
    assert_eq!(b.black_bitboard_pieces.king, 0x10u64 << 56);
    assert_eq!(b.black_bitboard_pieces.queens, 0x08u64 << 56);
    assert_eq!(b.black_bitboard_pieces.rooks, 0x81u64 << 56);
    assert_eq!(b.black_bitboard_pieces.bishops, 0x24u64 << 56);
    assert_eq!(b.black_bitboard_pieces.knights, 0x42u64 << 56);
    assert_eq!(b.black_bitboard_pieces.pawns, RANK_7);
    assert!(b.castling_rights.white_long && b.castling_rights.white_short);
    assert!(b.castling_rights.black_long && b.castling_rights.black_short);
    assert_eq!(b.enpassant_files, 0);
    assert_eq!(b.all_ptr, 0);
    let fen = board("rnbqkbnr/pppppppp/8/8/8/8/PPPPPPPP/RNBQKBNR w KQkq -");
    assert_eq!(fen.white_bitboard_pieces, b.white_bitboard_pieces);
    assert_eq!(fen.black_bitboard_pieces, b.black_bitboard_pieces);
    assert_pieces_apart(&b);
}

#[test]
fn null_move_flips_the_side_and_nothing_else() {
    let b = after(&["e2e4", "c7c5", "e4e5", "d7d5"]);
    let n = apply_null_move(&b);
    assert_eq!(n.turn, Color::Black);
    assert_eq!(n.white_bitboard_pieces, b.white_bitboard_pieces);
    assert_eq!(n.black_bitboard_pieces, b.black_bitboard_pieces);
    assert_eq!(n.castling_rights, b.castling_rights);
    assert_eq!(n.enpassant_files, b.enpassant_files);
    assert_eq!(n.all_piece_history, b.all_piece_history);
    assert_eq!(n.all_ptr, b.all_ptr);
    assert_ne!(n, b);
}

#[test]
fn null_move_twice_gives_the_board_back() {
    let b = start_position();
    assert_eq!(apply_null_move(&apply_null_move(&b)), b);
    let c = after(&["e2e4", "c7c5", "e4e5", "d7d5"]);
    assert_eq!(apply_null_move(&apply_null_move(&c)), c);
}

#[test]
fn a_pawn_advance_of_two_squares_opens_its_file() {
    let b = apply_move(&start_position(), mv("e2e4"));
    assert_eq!(b.turn, Color::Black);
    assert_eq!(b.white_bitboard_pieces.pawns, (RANK_2 & !(1 << 12)) | (1 << 28));
    assert_eq!(b.enpassant_files, 1 << 4);
    assert_eq!(b.castling_rights, start_position().castling_rights);
    assert_eq!(b.all_ptr, 1);
    assert_eq!(b.all_piece_history[0], occupancy(&b));
    let c = apply_move(&b, mv("a7a5"));
    assert_eq!(c.enpassant_files, 1);
    assert_eq!(c.turn, Color::White);
    assert_eq!(c.black_bitboard_pieces.pawns, (RANK_7 & !(1 << 48)) | (1 << 32));
    let d = apply_move(&c, mv("h2h4"));
    assert_eq!(d.enpassant_files, 1 << 7);
}

#[test]
fn every_other_move_closes_the_files() {
    let b = after(&["e2e4"]);
    assert_eq!(b.enpassant_files, 1 << 4);
    assert_eq!(apply_move(&b, mv("g8f6")).enpassant_files, 0);
    assert_eq!(apply_move(&b, mv("e7e6")).enpassant_files, 0);
    assert_eq!(after(&["e2e3"]).enpassant_files, 0);
    assert_eq!(after(&["e2e4", "e7e5", "g1f3"]).enpassant_files, 0);
    // a pawn that goes from its third to its fifth rank does not exist; a step
    // of one square from the second rank opens nothing
    assert_eq!(after(&["e2e3", "e7e6", "e3e4"]).enpassant_files, 0);
}

#[test]
fn at_most_one_file_is_open_after_any_legal_move() {
    let mut b = start_position();
    let mut seed: u64 = 7;
    for _ in 0..300 {
        let moves = calc_moves(&b);
        if moves.is_empty() {
            b = start_position();
            continue;
        }
        seed = seed.wrapping_mul(6364136223846793005).wrapping_add(1442695040888963407);
        let m = moves[(seed >> 33) as usize % moves.len()];
        let pawn = (b.white_bitboard_pieces.pawns | b.black_bitboard_pieces.pawns)
            & (1u64 << m.from_square.index())
            != 0;
        let two = (m.to_square.index() as i32 - m.from_square.index() as i32).abs() == 16;
        let next = apply_move(&b, m);
        assert!(next.enpassant_files.count_ones() <= 1);
        assert_eq!(next.enpassant_files != 0, pawn && two);
        if pawn && two {
            assert_eq!(next.enpassant_files, 1 << (m.from_square.index() % 8));
        }
        b = next;
    }
}

#[test]
fn a_capture_removes_the_piece_taken() {
    let b = after(&["e2e4", "d7d5", "e4d5"]);
    assert_eq!(b.white_bitboard_pieces.pawns, (RANK_2 & !(1 << 12)) | (1 << 35));
    assert_eq!(b.black_bitboard_pieces.pawns, RANK_7 & !(1 << 51));
    assert_eq!(b.turn, Color::Black);
    let c = apply_move(&b, mv("d8d5"));
    assert_eq!(c.black_bitboard_pieces.queens, 1 << 35);
    assert_eq!(c.white_bitboard_pieces.pawns, RANK_2 & !(1 << 12));
    assert_pieces_apart(&c);
}

#[test]
fn en_passant_capture_removes_the_pawn_passed() {
    let b = after(&["e2e4", "a7a6", "e4e5", "d7d5"]);
    assert_eq!(b.enpassant_files, 1 << 3);
    let c = apply_move(&b, mv("e5d6"));
    assert_eq!(c.white_bitboard_pieces.pawns, (RANK_2 & !(1 << 12)) | (1 << 43));
    assert_eq!(c.black_bitboard_pieces.pawns, (RANK_7 & !(1 << 48) & !(1 << 51)) | (1 << 40));
    assert_eq!(c.enpassant_files, 0);
    assert_pieces_apart(&c);
    // for Black
    let d = after(&["a2a3", "e7e5", "a3a4", "e5e4", "d2d4"]);
    assert_eq!(d.enpassant_files, 1 << 3);
    let e = apply_move(&d, mv("e4d3"));
    assert_eq!(e.black_bitboard_pieces.pawns, (RANK_7 & !(1 << 52)) | (1 << 19));
    assert_eq!(e.white_bitboard_pieces.pawns, (RANK_2 & !(1 << 8) & !(1 << 11)) | (1 << 24));
    assert_pieces_apart(&e);
}

#[test]
fn a_pawn_on_the_sixth_rank_of_a_closed_file_takes_nothing_in_passing() {
    // the d-file was open one move earlier only
    let b = after(&["e2e4", "a7a6", "e4e5", "d7d5", "h2h3", "h7h6"]);
    assert_eq!(b.enpassant_files, 0);
    assert!(!has_move(&calc_moves(&b), "e5d6"));
    let c = apply_move(&b, mv("e5e6"));
    assert_eq!(c.black_bitboard_pieces.pawns.count_ones(), 8);
}

#[test]
fn promotion_puts_the_new_piece_on_the_last_rank() {
    let b = board("8/4P1k1/8/8/8/8/6K1/8 w - -");
    let q = apply_move(&b, Move::from_uci("e7e8q").unwrap());
    assert_eq!(q.white_bitboard_pieces.queens, 1 << 60);
    assert_eq!(q.white_bitboard_pieces.pawns, 0);
    let r = apply_move(&b, mv("e7e8r"));
    assert_eq!(r.white_bitboard_pieces.rooks, 1 << 60);
    assert_eq!(r.white_bitboard_pieces.pawns, 0);
    let n = apply_move(&b, mv("e7e8n"));
    assert_eq!(n.white_bitboard_pieces.knights, 1 << 60);
    let s = apply_move(&b, mv("e7e8b"));
    assert_eq!(s.white_bitboard_pieces.bishops, 1 << 60);
    // without a kind the pawn stays a pawn
    let p = apply_move(&b, mv("e7e8"));
    assert_eq!(p.white_bitboard_pieces.pawns, 1 << 60);
    // a piece that is no pawn is not promoted
    let k = apply_move(
        &b,
        Move { from_square: Square::G2, to_square: Square::G3, promote_type: PieceType::Queen },
    );
    assert_eq!(k.white_bitboard_pieces.king, 1 << 22);
    assert_eq!(k.white_bitboard_pieces.queens, 0);
    // for Black
    let c = board("8/6k1/8/8/8/8/p5K1/1N6 b - -");
    let t = apply_move(&c, mv("a2b1q"));
    assert_eq!(t.black_bitboard_pieces.queens, 1 << 1);
    assert_eq!(t.black_bitboard_pieces.pawns, 0);
    assert_eq!(t.white_bitboard_pieces.knights, 0);
}

#[test]
fn a_marched_pawn_is_promoted_to_a_queen_by_the_generator() {
    // the a-pawn marches, taking on b7 and on a8
    let b = after(&[
        "a2a4", "h7h6", "a4a5", "h6h5", "a5a6", "h5h4", "a6b7", "h4h3", "b7a8q",
    ]);
    assert_eq!(b.white_bitboard_pieces.queens, (1 << 3) | (1 << 56));
    assert_eq!(b.white_bitboard_pieces.pawns, RANK_2 & !(1 << 8));
    assert_eq!(b.black_bitboard_pieces.rooks, 1 << 63);
    assert!(!b.castling_rights.black_long);
    assert!(b.castling_rights.black_short);
    let before = after(&["a2a4", "h7h6", "a4a5", "h6h5", "a5a6", "h5h4", "a6b7", "h4h3"]);
    let moves = calc_moves(&before);
    let promotions: Vec<&Move> =
        moves.iter().filter(|m| m.from_square == Square::B7 && m.to_square.index() >= 56).collect();
    assert_eq!(promotions.len(), 2);
    for m in promotions {
        assert_eq!(m.promote_type, PieceType::Queen);
        let next = apply_move(&before, *m);
        assert_eq!(next.white_bitboard_pieces.pawns & (0xFFu64 << 56), 0);
        assert_ne!(next.white_bitboard_pieces.queens & (0xFFu64 << 56), 0);
    }
    assert!(has_move(&moves, "b7a8q"));
    assert!(has_move(&moves, "b7c8q"));
}

#[test]
fn castling_moves_the_rook_along() {
    let b = board("r3k2r/pppppppp/8/8/8/8/PPPPPPPP/R3K2R w KQkq -");
    let short = apply_move(&b, mv("e1g1"));
    assert_eq!(short.white_bitboard_pieces.king, 1 << 6);
    assert_eq!(short.white_bitboard_pieces.rooks, (1 << 0) | (1 << 5));
    assert!(!short.castling_rights.white_long && !short.castling_rights.white_short);
    assert!(short.castling_rights.black_long && short.castling_rights.black_short);
    assert_eq!(short.turn, Color::Black);
    assert_eq!(short.all_ptr, 1);
    assert_eq!(short.all_piece_history[0], occupancy(&short));
    let long = apply_move(&b, mv("e1c1"));
    assert_eq!(long.white_bitboard_pieces.king, 1 << 2);
    assert_eq!(long.white_bitboard_pieces.rooks, (1 << 3) | (1 << 7));
    assert_eq!(long.turn, Color::Black);
    let k = apply_null_move(&b);
    let short = apply_move(&k, mv("e8g8"));
    assert_eq!(short.black_bitboard_pieces.king, 1 << 62);
    assert_eq!(short.black_bitboard_pieces.rooks, (1 << 56) | (1 << 61));
    assert!(!short.castling_rights.black_long && !short.castling_rights.black_short);
    assert!(short.castling_rights.white_long && short.castling_rights.white_short);
    assert_eq!(short.turn, Color::White);
    let long = apply_move(&k, mv("e8c8"));
    assert_eq!(long.black_bitboard_pieces.king, 1 << 58);
    assert_eq!(long.black_bitboard_pieces.rooks, (1 << 59) | (1 << 63));
    assert_pieces_apart(&long);
}

#[test]
fn castling_without_a_piece_on_the_corner_moves_the_king_alone() {
    let b = board("4k3/8/8/8/8/8/8/4K3 w - -");
    let c = apply_move(&b, mv("e1g1"));
    assert_eq!(c.white_bitboard_pieces.king, 1 << 6);
    assert_eq!(c.white_bitboard_pieces.rooks, 0);
    assert_eq!(c.turn, Color::Black);
}

#[test]
fn moving_king_or_rook_gives_up_castling_rights() {
    let b = board("r3k2r/pppppppp/8/8/8/8/PPPPPPPP/R3K2R w KQkq -");
    let king = apply_move(&b, mv("e1d1"));
    assert!(!king.castling_rights.white_long && !king.castling_rights.white_short);
    assert!(king.castling_rights.black_long && king.castling_rights.black_short);
    let rook_a = apply_move(&b, mv("a1b1"));
    assert!(!rook_a.castling_rights.white_long && rook_a.castling_rights.white_short);
    let rook_h = apply_move(&b, mv("h1g1"));
    assert!(rook_h.castling_rights.white_long && !rook_h.castling_rights.white_short);
    let k = apply_null_move(&b);
    let king = apply_move(&k, mv("e8f8"));
    assert!(!king.castling_rights.black_long && !king.castling_rights.black_short);
    let rook_a = apply_move(&k, mv("a8b8"));
    assert!(!rook_a.castling_rights.black_long && rook_a.castling_rights.black_short);
    let rook_h = apply_move(&k, mv("h8g8"));
    assert!(rook_h.castling_rights.black_long && !rook_h.castling_rights.black_short);
    assert!(rook_h.castling_rights.white_long && rook_h.castling_rights.white_short);
}

#[test]
fn taking_a_rook_on_its_corner_takes_the_right_too() {
    let b = board("r3k2r/8/8/8/8/8/8/R3K2R w KQkq -");
    let a = apply_move(&b, mv("a1a8"));
    assert!(!a.castling_rights.black_long && a.castling_rights.black_short);
    assert!(!a.castling_rights.white_long && a.castling_rights.white_short);
    let h = apply_move(&b, mv("h1h8"));
    assert!(a.castling_rights.black_short && !h.castling_rights.black_short);
    assert!(h.castling_rights.black_long);
    assert!(h.castling_rights.white_long && !h.castling_rights.white_short);
    let k = apply_null_move(&b);
    let a = apply_move(&k, mv("a8a1"));
    assert!(!a.castling_rights.white_long && a.castling_rights.white_short);
    let h = apply_move(&k, mv("h8h1"));
    assert!(h.castling_rights.white_long && !h.castling_rights.white_short);
    // a piece that is no rook, taken on a corner, costs no right
    let n = board("r3k2r/8/8/8/8/8/6n1/R3K2B b KQkq -");
    let t = apply_move(&n, mv("g2h1"));
    assert!(t.castling_rights.white_short);
}

#[test]
fn castling_rights_never_come_back() {
    let mut b = start_position();
    let mut seed: u64 = 99;
    for _ in 0..400 {
        let moves = calc_moves(&b);
        if moves.is_empty() {
            b = start_position();
            continue;
        }
        seed = seed.wrapping_mul(6364136223846793005).wrapping_add(1442695040888963407);
        let next = apply_move(&b, moves[(seed >> 33) as usize % moves.len()]);
        let (old, new) = (b.castling_rights, next.castling_rights);
        assert!(old.white_long || !new.white_long);
        assert!(old.white_short || !new.white_short);
        assert!(old.black_long || !new.black_long);
        assert!(old.black_short || !new.black_short);
        b = next;
    }
}

#[test]
fn a_move_from_an_empty_square_changes_nothing() {
    let b = start_position();
    assert_eq!(apply_move(&b, mv("e4e5")), b);
    // nor does a move of a piece of the side that is not to move
    assert_eq!(apply_move(&b, mv("e7e5")), b);
    let c = after(&["e2e4"]);
    assert_eq!(apply_move(&c, mv("d2d4")), c);
    assert_eq!(c.enpassant_files, 1 << 4);
}

#[test]
fn the_ring_of_occupied_squares_wraps_after_sixteen_moves() {
    let mut b = start_position();
    let line = ["g1f3", "g8f6", "f3g1", "f6g8"];
    for i in 0..18 {
        let before = b;
        b = apply_move(&b, mv(line[i % 4]));
        assert_eq!(b.all_ptr, (i + 1) % 16);
        assert_eq!(b.all_piece_history[i % 16], occupancy(&b));
        for j in 0..16 {
            if j != i % 16 {
                assert_eq!(b.all_piece_history[j], before.all_piece_history[j]);
            }
        }
    }
    assert_eq!(b.all_ptr, 2);
}

#[test]
fn apply_moves_makes_the_moves_in_order() {
    let a = after(&["e2e4", "e7e5", "g1f3"]);
    let b = apply_move(&apply_move(&apply_move(&start_position(), mv("e2e4")), mv("e7e5")), mv("g1f3"));
    assert_eq!(a, b);
    assert_eq!(apply_moves(&start_position(), &Vec::new()), start_position());
}

#[test]
fn pieces_stay_apart_and_kings_stay_single_in_play() {
    let mut b = start_position();
    let mut seed: u64 = 2024;
    let mut games = 0;
    for _ in 0..1500 {
        assert_pieces_apart(&b);
        let moves = calc_moves(&b);
        if moves.is_empty() || occupancy(&b).count_ones() <= 2 {
            b = start_position();
            games += 1;
            continue;
        }
        seed = seed.wrapping_mul(6364136223846793005).wrapping_add(1442695040888963407);
        b = apply_move(&b, moves[(seed >> 33) as usize % moves.len()]);
    }
    assert!(games < 1500);
}

#[test]
fn pieces_stay_apart_after_any_move_whatever() {
    // also after moves that no rule allows
    let b = after(&["e2e4", "e7e5"]);
    let mut seed: u64 = 5;
    for _ in 0..2000 {
        seed = seed.wrapping_mul(6364136223846793005).wrapping_add(1442695040888963407);
        let from = Square::from_index((seed >> 20) as u32 % 64).unwrap();
        let to = Square::from_index((seed >> 40) as u32 % 64).unwrap();
        let next = apply_move(&b, Move { from_square: from, to_square: to, promote_type: PieceType::Null });
        let s = sets(&next);
        for i in 0..12 {
            for j in (i + 1)..12 {
                assert_eq!(s[i] & s[j], 0);
            }
        }
    }
    let _ = names(&calc_pmoves(&b));
}
