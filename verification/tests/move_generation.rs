use chess_engine::bitboard::Pieces;
use chess_engine::move_search::{calc_moves, calc_pmoves, test_pmove_valid};
use chess_engine::types::{Board, CastlingRights, Color, Move, PieceType, Square};
use chess_engine::utils::{apply_move, apply_moves, apply_null_move, start_position};

fn empty_pieces() -> Pieces {
    Pieces { king: 0, queens: 0, rooks: 0, bishops: 0, knights: 0, pawns: 0 }
}

/// Builds a board from the first four fields of a position in Forsyth-Edwards
/// notation.
fn board(fen: &str) -> Board {
    let fields: Vec<&str> = fen.split(' ').collect();
    let mut white = empty_pieces();
    let mut black = empty_pieces();
    let mut rank: u32 = 7;
    let mut file: u32 = 0;
    for c in fields[0].chars() {
        if c == '/' {
            rank -= 1;
            file = 0;
        } else if let Some(d) = c.to_digit(10) {
            file += d;
        } else {
            let bit = 1u64 << (rank * 8 + file);
            let side = if c.is_ascii_uppercase() { &mut white } else { &mut black };
            match c.to_ascii_lowercase() {
                'k' => side.king |= bit,
                'q' => side.queens |= bit,
                'r' => side.rooks |= bit,
                'b' => side.bishops |= bit,
                'n' => side.knights |= bit,
                'p' => side.pawns |= bit,
                _ => panic!("piece {}", c),
            }
            file += 1;
        }
    }
    let en_passant = match fields[3].chars().next() {
        Some(c) if c != '-' => 1u8 << (c as u32 - 'a' as u32),
        _ => 0,
    };
    Board {
        white_bitboard_pieces: white,
        black_bitboard_pieces: black,
        turn: if fields[1] == "w" { Color::White } else { Color::Black },
        castling_rights: CastlingRights {
            white_long: fields[2].contains('Q'),
            white_short: fields[2].contains('K'),
            black_long: fields[2].contains('q'),
            black_short: fields[2].contains('k'),
        },
        enpassant_files: en_passant,
        all_piece_history: [0; 16],
        all_ptr: 0,
    }
}

fn after(moves: &[&str]) -> Board {
    let parsed: Vec<Move> = moves.iter().map(|t| Move::from_uci(t).unwrap()).collect();
    apply_moves(&start_position(), &parsed)
}

fn names(moves: &[Move]) -> Vec<String> {
    moves.iter().map(|m| m.to_uci()).collect()
}

fn has_move(moves: &[Move], text: &str) -> bool {
    moves.iter().any(|m| m.to_uci() == text)
}

fn perft(b: &Board, depth: u32) -> u64 {
    if depth == 0 {
        return 1;
    }
    let mut n = 0;
    for m in calc_moves(b) {
        n += perft(&apply_move(b, m), depth - 1);
    }
    n
}

fn is_capture(b: &Board, m: &Move) -> bool {
    let enemy = match b.turn {
        Color::White => b.black_bitboard_pieces.all(),
        Color::Black => b.white_bitboard_pieces.all(),
    };
    let own = match b.turn {
        Color::White => b.white_bitboard_pieces,
        Color::Black => b.black_bitboard_pieces,
    };
    let from = 1u64 << m.from_square.index();
    let to = 1u64 << m.to_square.index();
    let en_passant = own.pawns & from != 0 && m.from_square.index() % 8 != m.to_square.index() % 8;
    let castle = own.king & from != 0
        && (m.from_square.index() as i32 - m.to_square.index() as i32).abs() == 2;
    enemy & to != 0 || en_passant || castle
}

#[test]
fn start_position_has_twenty_moves() {
    let b = start_position();
    let moves = calc_moves(&b);
    assert_eq!(moves.len(), 20);
    assert_eq!(calc_pmoves(&b).len(), 20);
    let mut got = names(&moves);
    got.sort();
    let mut expected: Vec<String> = Vec::new();
    for f in "abcdefgh".chars() {
        expected.push(format!("{}2{}3", f, f));
        expected.push(format!("{}2{}4", f, f));
    }
    for t in ["b1a3", "b1c3", "g1f3", "g1h3"] {
        expected.push(t.to_string());
    }
    expected.sort();
    assert_eq!(got, expected);
}

#[test]
fn moves_come_in_the_order_of_generation() {
    let b = start_position();
    assert_eq!(
        names(&calc_pmoves(&b)),
        vec![
            "a2a3", "b2b3", "c2c3", "d2d3", "e2e3", "f2f3", "g2g3", "h2h3", "a2a4", "b2b4", "c2c4",
            "d2d4", "e2e4", "f2f4", "g2g4", "h2h4", "b1a3", "g1f3", "b1c3", "g1h3",
        ]
    );
    // Black's moves are found on the mirrored board and named on the real one
    let k = apply_null_move(&b);
    assert_eq!(
        names(&calc_pmoves(&k)),
        vec![
            "a7a6", "b7b6", "c7c6", "d7d6", "e7e6", "f7f6", "g7g6", "h7h6", "a7a5", "b7b5", "c7c5",
            "d7d5", "e7e5", "f7f5", "g7g5", "h7h5", "b8a6", "g8f6", "b8c6", "g8h6",
        ]
    );
}

#[test]
fn perft_from_the_start() {
    let b = start_position();
    assert_eq!(perft(&b, 1), 20);
    assert_eq!(perft(&b, 2), 400);
    assert_eq!(perft(&b, 3), 8902);
    assert_eq!(perft(&b, 4), 197281);
}

#[test]
fn perft_with_castling_and_pins() {
    let b = board("r3k2r/p1ppqpb1/bn2pnp1/3PN3/1p2P3/2N2Q1p/PPPBBPPP/R3K2R w KQkq -");
    assert_eq!(perft(&b, 1), 48);
    assert_eq!(perft(&b, 2), 2039);
    assert_eq!(perft(&b, 3), 97862);
}

#[test]
fn perft_of_a_rook_endgame() {
    let b = board("8/2p5/3p4/KP5r/1R3p1k/8/4P1P1/8 w - -");
    assert_eq!(perft(&b, 1), 14);
    assert_eq!(perft(&b, 2), 191);
    assert_eq!(perft(&b, 3), 2812);
    assert_eq!(perft(&b, 4), 43238);
}

#[test]
fn perft_with_black_to_move() {
    let b = board("r2q1rk1/pP1p2pp/Q4n2/bbp1p3/Np6/1B3NBn/pPPP1PPP/R3K2R b KQ -");
    assert_eq!(perft(&b, 1), 6);
    // 264 with every kind of promotion; 48 of them are promotions, of which
    // the 12 to a queen are generated
    assert_eq!(perft(&b, 2), 228);
}

#[test]
fn perft_of_a_middlegame() {
    let b = board("r4rk1/1pp1qppp/p1np1n2/2b1p1B1/2B1P1b1/P1NP1N2/1PP1QPPP/R4RK1 w - -");
    assert_eq!(perft(&b, 1), 46);
    assert_eq!(perft(&b, 2), 2079);
    assert_eq!(perft(&b, 3), 89890);
}

#[test]
fn captures_and_castling_come_before_quiet_moves() {
    for b in [
        after(&["e2e4", "d7d5"]),
        after(&["e2e4", "d7d5", "g1f3", "d5e4", "f3g5"]),
        board("r3k2r/p1ppqpb1/bn2pnp1/3PN3/1p2P3/2N2Q1p/PPPBBPPP/R3K2R w KQkq -"),
        board("r3k2r/p1ppqpb1/bn2pnp1/3PN3/1p2P3/2N2Q1p/PPPBBPPP/R3K2R b KQkq -"),
        after(&["e2e4", "a7a6", "e4e5", "d7d5"]),
    ] {
        let moves = calc_pmoves(&b);
        let first_quiet = moves.iter().position(|m| !is_capture(&b, m)).unwrap();
        assert!(first_quiet > 0);
        for m in &moves[first_quiet..] {
            assert!(!is_capture(&b, m), "{}", m.to_uci());
        }
    }
    let b = after(&["e2e4", "d7d5"]);
    assert_eq!(calc_pmoves(&b)[0].to_uci(), "e4d5");
}

#[test]
fn legal_moves_are_among_the_moves_that_the_pieces_allow() {
    let mut b = start_position();
    let mut seed: u64 = 11;
    for _ in 0..300 {
        let pseudo = calc_pmoves(&b);
        let legal = calc_moves(&b);
        assert!(legal.len() <= pseudo.len());
        let mut at = 0;
        for m in &legal {
            // in the same order
            while pseudo[at] != *m {
                at += 1;
            }
            at += 1;
            assert!(test_pmove_valid(&apply_move(&b, *m)));
        }
        for m in &pseudo {
            assert_eq!(legal.contains(m), test_pmove_valid(&apply_move(&b, *m)));
        }
        if legal.is_empty() {
            b = start_position();
            continue;
        }
        seed = seed.wrapping_mul(6364136223846793005).wrapping_add(1442695040888963407);
        b = apply_move(&b, legal[(seed >> 33) as usize % legal.len()]);
    }
}

#[test]
fn no_legal_move_leaves_the_own_king_attacked() {
    // the queen on h5 pins the pawn on f7 and bears on e5
    let b = after(&["e2e4", "e7e5", "d1h5"]);
    let moves = calc_moves(&b);
    assert!(has_move(&moves, "g7g6"));
    assert!(!has_move(&moves, "f7f6"));
    assert!(!has_move(&moves, "f7f5"));
    assert!(has_move(&calc_pmoves(&b), "f7f6"));
    assert!(has_move(&moves, "e8e7"));
    for m in &moves {
        let next = apply_move(&b, *m);
        // White, who is to move now, cannot take the king
        assert!(test_pmove_valid(&next), "{}", m.to_uci());
    }
    assert_eq!(calc_pmoves(&b).len() - moves.len(), 2);
}

#[test]
fn a_move_that_gives_check_is_legal() {
    // after the move the mover attacks the king: the test fails for the mover's turn
    let b = after(&["f2f3", "e7e5", "g2g4"]);
    let check = Move::from_uci("d8h4").unwrap();
    assert!(calc_moves(&b).contains(&check));
    let next = apply_move(&b, check);
    assert!(test_pmove_valid(&next));
    assert!(!test_pmove_valid(&apply_null_move(&next)));
}

#[test]
fn short_castling_is_found_once_the_way_is_free() {
    let b = after(&["e2e4", "e7e5", "g1f3", "b8c6", "f1c4", "g8f6"]);
    let moves = calc_moves(&b);
    assert!(has_move(&moves, "e1g1"));
    assert!(!has_move(&moves, "e1c1"));
    let castled = apply_move(&b, Move::from_uci("e1g1").unwrap());
    assert_eq!(castled.white_bitboard_pieces.king, 1 << 6);
    assert_eq!(castled.white_bitboard_pieces.rooks, (1 << 0) | (1 << 5));
    // one move earlier the bishop stood in the way
    assert!(!has_move(&calc_moves(&after(&["e2e4", "e7e5", "g1f3", "b8c6"])), "e1g1"));
}

#[test]
fn castling_needs_the_right() {
    let with = board("r3k2r/8/8/8/8/8/8/R3K2R w KQkq -");
    assert!(has_move(&calc_moves(&with), "e1g1"));
    assert!(has_move(&calc_moves(&with), "e1c1"));
    let k = apply_null_move(&with);
    assert!(has_move(&calc_moves(&k), "e8g8"));
    assert!(has_move(&calc_moves(&k), "e8c8"));
    let short_only = board("r3k2r/8/8/8/8/8/8/R3K2R w Kk -");
    assert!(has_move(&calc_moves(&short_only), "e1g1"));
    assert!(!has_move(&calc_moves(&short_only), "e1c1"));
    let none = board("r3k2r/8/8/8/8/8/8/R3K2R w - -");
    assert!(!has_move(&calc_moves(&none), "e1g1"));
    assert!(!has_move(&calc_moves(&none), "e1c1"));
    // the right is lost for good once the king has moved and come back
    let back = after(&[
        "e2e4", "e7e5", "g1f3", "b8c6", "f1c4", "g8f6", "e1e2", "a7a6", "e2e1", "a6a5",
    ]);
    assert!(!has_move(&calc_moves(&back), "e1g1"));
}

#[test]
fn castling_needs_empty_squares_between_king_and_rook() {
    let b = board("r3k2r/8/8/8/8/8/8/RN2K1NR w KQkq -");
    let moves = calc_moves(&b);
    assert!(!has_move(&moves, "e1g1"));
    assert!(!has_move(&moves, "e1c1"));
    // an enemy piece bars the way too
    let c = board("r3k2r/8/8/8/8/8/8/R2bK1nR w KQkq -");
    let moves = calc_pmoves(&c);
    assert!(!has_move(&moves, "e1g1"));
    assert!(!has_move(&moves, "e1c1"));
}

#[test]
fn castling_is_not_allowed_out_of_or_through_check() {
    // the rook on e8 gives check
    let check = board("4r1k1/8/8/8/8/8/8/R3K2R w KQ -");
    assert!(!has_move(&calc_pmoves(&check), "e1g1"));
    assert!(!has_move(&calc_pmoves(&check), "e1c1"));
    // the rook on f8 bears on f1, the square that the king crosses
    let through = board("5rk1/8/8/8/8/8/8/R3K2R w KQ -");
    assert!(!has_move(&calc_pmoves(&through), "e1g1"));
    assert!(has_move(&calc_pmoves(&through), "e1c1"));
    // the rook on g8 bears on g1: the generator gives the move, the legality
    // test removes it
    let onto = board("6rk/8/8/8/8/8/8/R3K2R w KQ -");
    assert!(has_move(&calc_pmoves(&onto), "e1g1"));
    assert!(!has_move(&calc_moves(&onto), "e1g1"));
    assert!(has_move(&calc_moves(&onto), "e1c1"));
    // an attack on b1 does not hinder castling long
    let b_file = board("1r4k1/8/8/8/8/8/8/R3K2R w KQ -");
    assert!(has_move(&calc_moves(&b_file), "e1c1"));
    // the same for Black
    let black = board("r3k2r/8/8/8/8/8/8/3R2K1 b kq -");
    assert!(has_move(&calc_moves(&black), "e8g8"));
    assert!(!has_move(&calc_pmoves(&black), "e8c8"));
}

#[test]
fn en_passant_is_found_right_after_the_advance() {
    let b = after(&["e2e4", "a7a6", "e4e5", "d7d5"]);
    let moves = calc_moves(&b);
    assert!(has_move(&moves, "e5d6"));
    assert!(!has_move(&moves, "e5f6"));
    // every move closes the file, and only an advance of two squares opens
    // one anew
    for m in &moves {
        let next = apply_move(&b, *m);
        let two = (m.to_square.index() as i32 - m.from_square.index() as i32).abs() == 16;
        let pawn = b.white_bitboard_pieces.pawns & (1 << m.from_square.index()) != 0;
        assert_eq!(next.enpassant_files != 0, pawn && two, "{}", m.to_uci());
    }
    assert_eq!(apply_move(&b, Move::from_uci("g1f3").unwrap()).enpassant_files, 0);
    assert_eq!(apply_move(&b, Move::from_uci("e5d6").unwrap()).enpassant_files, 0);
    // and one move pair later the capture is gone
    let later = after(&["e2e4", "a7a6", "e4e5", "d7d5", "a2a3", "a6a5"]);
    assert!(!has_move(&calc_moves(&later), "e5d6"));
    // a pawn that came to d5 in two steps cannot be taken in passing
    let slow = after(&["e2e4", "d7d6", "e4e5", "d6d5"]);
    assert!(!has_move(&calc_moves(&slow), "e5d6"));
    // for Black
    let black = after(&["a2a3", "e7e5", "a3a4", "e5e4", "d2d4"]);
    assert!(has_move(&calc_moves(&black), "e4d3"));
    assert!(!has_move(&calc_moves(&black), "e4f3"));
}

#[test]
fn a_pawn_that_reaches_the_last_rank_becomes_a_queen() {
    let b = board("1n2k3/P3P3/8/8/8/8/p6p/4K1N1 w - -");
    let moves = calc_pmoves(&b);
    let to_last: Vec<&Move> = moves.iter().filter(|m| m.to_square.index() >= 56).collect();
    assert_eq!(names(&to_last.iter().map(|m| **m).collect::<Vec<Move>>()), vec!["a7b8q", "a7a8q"]);
    for m in &moves {
        let pawn = b.white_bitboard_pieces.pawns & (1 << m.from_square.index()) != 0;
        let expected =
            if pawn && m.to_square.index() >= 56 { PieceType::Queen } else { PieceType::Null };
        assert_eq!(m.promote_type, expected);
    }
    let k = apply_null_move(&b);
    let moves = calc_pmoves(&k);
    let mut to_last = names(
        &moves.iter().filter(|m| m.to_square.index() < 8).map(|m| *m).collect::<Vec<Move>>(),
    );
    to_last.sort();
    assert_eq!(to_last, vec!["a2a1q", "h2g1q", "h2h1q"]);
    for m in &moves {
        let pawn = k.black_bitboard_pieces.pawns & (1 << m.from_square.index()) != 0;
        let expected =
            if pawn && m.to_square.index() < 8 { PieceType::Queen } else { PieceType::Null };
        assert_eq!(m.promote_type, expected);
    }
}

#[test]
fn the_king_safety_test_sees_every_kind_of_attack() {
    // the side to move is the attacker
    assert!(test_pmove_valid(&start_position()));
    assert!(!test_pmove_valid(&board("4k3/8/8/8/8/8/8/4RK2 w - -")));
    assert!(test_pmove_valid(&board("4k3/4p3/8/8/8/8/8/4RK2 w - -")));
    assert!(!test_pmove_valid(&board("4k3/8/8/8/B7/8/8/5K2 w - -")));
    assert!(test_pmove_valid(&board("4k3/3n4/8/8/B7/8/8/5K2 w - -")));
    // with Black to move the attacker is Black, who has nothing to attack with
    assert!(test_pmove_valid(&board("4k3/8/8/8/8/8/8/Q3K3 b - -")));
    assert!(!test_pmove_valid(&board("4k3/8/8/7Q/8/8/8/4K3 w - -")));
    assert!(!test_pmove_valid(&board("4k3/8/3N4/8/8/8/8/4K3 w - -")));
    assert!(test_pmove_valid(&board("4k3/8/4N3/8/8/8/8/4K3 w - -")));
    assert!(!test_pmove_valid(&board("4k3/3P4/8/8/8/8/8/4K3 w - -")));
    assert!(!test_pmove_valid(&board("4k3/5P2/8/8/8/8/8/4K3 w - -")));
    assert!(test_pmove_valid(&board("4k3/4P3/8/8/8/8/8/4K3 w - -")));
    assert!(!test_pmove_valid(&board("8/8/8/8/8/8/4k3/4K3 w - -")));
    // Black's pawns capture downwards
    assert!(!test_pmove_valid(&board("4k3/8/8/8/8/8/3p4/4K3 b - -")));
    assert!(test_pmove_valid(&board("4k3/8/8/8/8/8/4p3/4K3 b - -")));
    assert!(test_pmove_valid(&board("4k3/8/8/8/8/4K3/3p4/8 b - -")));
    // a pawn on the h-file does not reach round the edge to the a-file
    assert!(test_pmove_valid(&board("8/8/8/8/k7/7P/8/4K3 w - -")));
    // the king of the attacked side does not shield the squares behind it,
    // but it is only its own square that counts
    assert!(!test_pmove_valid(&board("8/8/8/8/8/8/8/R3k2K w - -")));
}

#[test]
fn stalemate_and_mate_leave_no_legal_move() {
    let stalemate = board("k7/2K5/1Q6/8/8/8/8/8 b - -");
    assert_eq!(calc_moves(&stalemate).len(), 0);
    assert!(test_pmove_valid(&apply_null_move(&stalemate)));
    assert_eq!(calc_pmoves(&stalemate).len(), 3);
    let mate = board("k7/1QK5/8/8/8/8/8/8 b - -");
    assert_eq!(calc_moves(&mate).len(), 0);
    assert!(!test_pmove_valid(&apply_null_move(&mate)));
}

#[test]
fn generated_moves_are_read_back_from_their_notation() {
    let mut b = start_position();
    let mut seed: u64 = 3;
    for _ in 0..200 {
        let moves = calc_pmoves(&b);
        for m in &moves {
            assert_eq!(Move::from_uci(&m.to_uci()), Some(*m));
            assert!(m.promote_type == PieceType::Null || m.promote_type == PieceType::Queen);
            assert_ne!(m.from_square, m.to_square);
        }
        let legal = calc_moves(&b);
        if legal.is_empty() {
            b = start_position();
            continue;
        }
        seed = seed.wrapping_mul(6364136223846793005).wrapping_add(1442695040888963407);
        b = apply_move(&b, legal[(seed >> 33) as usize % legal.len()]);
    }
    let _ = Square::A1;
}

#[test]
fn the_king_can_be_taken_exactly_if_a_generated_move_takes_it() {
    let mut b = start_position();
    let mut seed: u64 = 17;
    let mut unsafe_seen = 0;
    for _ in 0..400 {
        // every move that the pieces allow, legal or not, leads to a position
        // to test
        let pseudo = calc_pmoves(&b);
        for m in &pseudo {
            let next = apply_move(&b, *m);
            let king = match next.turn {
                Color::White => next.black_bitboard_pieces.king,
                Color::Black => next.white_bitboard_pieces.king,
            };
            let takes = calc_pmoves(&next).iter().any(|r| king & (1 << r.to_square.index()) != 0);
            assert_eq!(test_pmove_valid(&next), !takes);
            if takes {
                unsafe_seen += 1;
            }
        }
        let legal = calc_moves(&b);
        if legal.is_empty() {
            b = start_position();
            continue;
        }
        seed = seed.wrapping_mul(6364136223846793005).wrapping_add(1442695040888963407);
        b = apply_move(&b, legal[(seed >> 33) as usize % legal.len()]);
    }
    assert!(unsafe_seen > 0);
}
