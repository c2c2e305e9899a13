use chess_engine::bitboard::Pieces;
use chess_engine::eval::{
    eval_move, eval_move_max, eval_move_min, eval_pos_quick, eval_pos_quick_color, sum_over_squares,
    EVAL_MATE, KNIGHT_EVAL, PAWN_EVAL,
};
use chess_engine::types::{Board, CastlingRights, Color, Move};
use chess_engine::utils::{apply_moves, apply_null_move, start_position};

fn empty_pieces() -> Pieces {
    Pieces { king: 0, queens: 0, rooks: 0, bishops: 0, knights: 0, pawns: 0 }
}

/// Builds a board from the first four fields of a position in Forsyth-Edwards
/// notation.
fn board(fen: &str) -> Board {
    let fields: Vec<&str> = fen.split(' ').collect();
    let mut white = empty_pieces();
    let mut black = empty_pieces();
    let mut rank: u32 = 7;
    let mut file: u32 = 0;
    for c in fields[0].chars() {
        if c == '/' {
            rank -= 1;
            file = 0;
        } else if let Some(d) = c.to_digit(10) {
            file += d;
        } else {
            let bit = 1u64 << (rank * 8 + file);
            let side = if c.is_ascii_uppercase() { &mut white } else { &mut black };
            match c.to_ascii_lowercase() {
                'k' => side.king |= bit,
                'q' => side.queens |= bit,
                'r' => side.rooks |= bit,
                'b' => side.bishops |= bit,
                'n' => side.knights |= bit,
                'p' => side.pawns |= bit,
                _ => panic!("piece {}", c),
            }
            file += 1;
        }
    }
    let en_passant = match fields[3].chars().next() {
        Some(c) if c != '-' => 1u8 << (c as u32 - 'a' as u32),
        _ => 0,
    };
    Board {
        white_bitboard_pieces: white,
        black_bitboard_pieces: black,
        turn: if fields[1] == "w" { Color::White } else { Color::Black },
        castling_rights: CastlingRights {
            white_long: fields[2].contains('Q'),
            white_short: fields[2].contains('K'),
            black_long: fields[2].contains('q'),
            black_short: fields[2].contains('k'),
        },
        enpassant_files: en_passant,
        all_piece_history: [0; 16],
        all_ptr: 0,
    }
}

fn after(moves: &[&str]) -> Board {
    let parsed: Vec<Move> = moves.iter().map(|t| Move::from_uci(t).unwrap()).collect();
    apply_moves(&start_position(), &parsed)
}

fn names(moves: &[Move]) -> Vec<String> {
    moves.iter().map(|m| m.to_uci()).collect()
}

fn has_move(moves: &[Move], text: &str) -> bool {
    moves.iter().any(|m| m.to_uci() == text)
}

#[test]
fn the_starting_position_is_level() {
    let b = start_position();
    // rights 50 + 75, one island -30, pieces 53790, no shield for a king on e1
    assert_eq!(eval_pos_quick_color(&b, Color::White), 53885);
    assert_eq!(eval_pos_quick_color(&b, Color::Black), 53885);
    assert_eq!(eval_pos_quick(&b), 0);
    // the side to move does not matter
    assert_eq!(eval_pos_quick(&apply_null_move(&b)), 0);
}

#[test]
fn a_pawn_in_the_centre_is_worth_more() {
    // e2 counts 45, e4 counts 115
    assert_eq!(eval_pos_quick(&after(&["e2e4"])), 70);
    assert_eq!(eval_pos_quick(&after(&["e2e4", "e7e5"])), 0);
    // d7 counts 45 and d6 counts 110 for Black, whose squares are mirrored
    assert_eq!(eval_pos_quick(&after(&["e2e4", "d7d6"])), 5);
}

#[test]
fn castling_rights_add_to_the_score_of_their_side() {
    let all = board("4k3/8/8/8/8/8/8/4K3 w KQkq -");
    let none = board("4k3/8/8/8/8/8/8/4K3 w - -");
    let white_short = board("4k3/8/8/8/8/8/8/4K3 w K -");
    let white_long = board("4k3/8/8/8/8/8/8/4K3 w Q -");
    let black_both = board("4k3/8/8/8/8/8/8/4K3 w kq -");
    // kings alone: the endgame table gives 49970 on e1
    assert_eq!(eval_pos_quick_color(&none, Color::White), 49970);
    assert_eq!(eval_pos_quick_color(&none, Color::Black), 49970);
    assert_eq!(eval_pos_quick_color(&all, Color::White), 49970 + 125);
    assert_eq!(eval_pos_quick_color(&white_short, Color::White), 49970 + 75);
    assert_eq!(eval_pos_quick_color(&white_long, Color::White), 49970 + 50);
    assert_eq!(eval_pos_quick_color(&white_short, Color::Black), 49970);
    assert_eq!(eval_pos_quick_color(&black_both, Color::Black), 49970 + 125);
    assert_eq!(eval_pos_quick(&white_short), 75);
    assert_eq!(eval_pos_quick(&black_both), -125);
    // whoever is to move
    assert_eq!(eval_pos_quick(&apply_null_move(&white_short)), 75);
}

#[test]
fn doubled_pawns_and_islands_cost() {
    // pawns a2 b2 | d2 d3 d4 | h2: three islands, two pawns too many on the d-file
    let b = board("4k3/8/8/8/3P4/3P4/PP1P3P/4K3 w - -");
    let pawns = 90 + 90 + 45 + 110 + 115 + 90;
    assert_eq!(eval_pos_quick_color(&b, Color::White), 49970 + pawns - 80 - 90);
    // one pawn: one island
    let one = board("4k3/8/8/8/8/8/7P/4K3 w - -");
    assert_eq!(eval_pos_quick_color(&one, Color::White), 49970 + 90 - 30);
    // eight pawns on one file
    let file = board("4k3/8/7P/7P/7P/7P/7P/4K3 w - -");
    assert_eq!(
        eval_pos_quick_color(&file, Color::White),
        49970 + (90 + 90 + 95 + 100 + 105) - 4 * 40 - 30
    );
    // for Black the same pawns, mirrored
    let black = board("4k3/pp1p3p/3p4/3p4/8/8/8/4K3 w - -");
    assert_eq!(eval_pos_quick_color(&black, Color::Black), 49970 + pawns - 80 - 90);
    assert_eq!(eval_pos_quick(&black), 49970 - (49970 + pawns - 170));
}

#[test]
fn the_endgame_begins_when_both_sides_have_few_pieces() {
    // two rooks each: queens and rooks count two, the endgame table applies
    let end = board("r3k2r/8/8/8/8/8/8/R3K2R w - -");
    assert_eq!(eval_pos_quick_color(&end, Color::White), 49970 + 1020);
    // two rooks and two knights: 2 + 2 / 2 is more than two
    let middle = board("r3k2r/8/8/8/8/8/8/RN2K1NR w - -");
    assert_eq!(eval_pos_quick_color(&middle, Color::White), 50000 + 1020 + 265 + 265);
    // Black has few pieces, but White has not: no endgame for either
    assert_eq!(eval_pos_quick_color(&middle, Color::Black), 50000 + 1020);
    // a rook and two bishops: 1 + 2 / 2 is two
    let minor = board("4k3/8/8/8/8/8/8/R1B1KB2 w - -");
    assert_eq!(eval_pos_quick_color(&minor, Color::White), 49970 + 510 + 325 + 325);
    // a rook and three knights: 1 + 3 / 2 is two
    let three = board("4k3/8/8/8/8/8/8/RN2KNN1 w - -");
    assert_eq!(eval_pos_quick_color(&three, Color::White), 49970 + 510 + 265 + 280 + 265);
}

#[test]
fn a_castled_king_gains_from_the_pawns_before_it() {
    // king g1, pawns f2 g2 h2, with queens and rooks on to keep the middlegame
    let b = board("r2qk2r/8/8/8/8/8/5PPP/R2Q1RK1 w - -");
    let pieces = 50050 + 940 + 2 * 510 + (100 + 90 + 90);
    assert_eq!(eval_pos_quick_color(&b, Color::White), pieces - 30 + 2 * 35 + 50);
    // pawns f3 g3 h3 stand two squares ahead: only the one on g3 counts, 30;
    // those two squares diagonally ahead would stand on e3 and on the board's
    // edge
    let c = board("r2qk2r/8/8/8/8/5PPP/8/R2Q1RK1 w - -");
    let pieces = 50050 + 940 + 2 * 510 + (100 + 90 + 90);
    assert_eq!(eval_pos_quick_color(&c, Color::White), pieces - 30 + 30);
    let d = board("r2qk2r/8/8/8/8/4P3/8/R2Q1RK1 w - -");
    assert_eq!(eval_pos_quick_color(&d, Color::White), 50050 + 940 + 1020 + 110 - 30 + 20);
    // a king on e1 has no shield
    let e = board("r2qk2r/8/8/8/8/8/3PPP2/R2QK2R w - -");
    assert_eq!(eval_pos_quick_color(&e, Color::White), 50000 + 940 + 1020 + (45 + 45 + 100) - 30);
    // nor has any king in the endgame
    let f = board("4k3/8/8/8/8/8/5PPP/6K1 w - -");
    assert_eq!(eval_pos_quick_color(&f, Color::White), 49950 + 280 - 30);
    // Black's king on g8 behind f7 g7 h7
    let g = board("r2q1rk1/5ppp/8/8/8/8/8/R2QK2R w - -");
    assert_eq!(
        eval_pos_quick_color(&g, Color::Black),
        50050 + 940 + 2 * 510 + 280 - 30 + 2 * 35 + 50
    );
}

#[test]
fn sums_over_squares_add_the_table_entries() {
    assert_eq!(sum_over_squares(0, &PAWN_EVAL), 0);
    assert_eq!(sum_over_squares(0xFF00, &PAWN_EVAL), 650);
    assert_eq!(sum_over_squares(1 | (1 << 63), &KNIGHT_EVAL), 250 + 280);
    assert_eq!(sum_over_squares(u64::MAX, &PAWN_EVAL), PAWN_EVAL.iter().sum::<i32>());
}

#[test]
fn a_search_of_one_ply_gives_the_static_score() {
    let b = start_position();
    assert_eq!(eval_move(&b, Move::from_uci("e2e4").unwrap(), 1), 70);
    assert_eq!(eval_move(&b, Move::from_uci("e2e3").unwrap(), 1), 65);
    assert_eq!(eval_move(&b, Move::from_uci("g1f3").unwrap(), 1), 50);
    // for Black the score is negated, so that higher is better for the mover
    let k = after(&["e2e4"]);
    assert_eq!(eval_move(&k, Move::from_uci("e7e5").unwrap(), 1), 0);
    assert_eq!(eval_move(&k, Move::from_uci("a7a6").unwrap(), 1), -70);
    assert_eq!(eval_move_min(&b, Move::from_uci("e2e4").unwrap(), 0, -5, 5), 70);
    assert_eq!(eval_move_max(&b, Move::from_uci("e2e4").unwrap(), 0, -5, 5), 70);
}

#[test]
fn a_search_of_two_plies_counts_the_best_reply() {
    let b = start_position();
    // after e2e4 Black's best reply by the static score is a pawn to the
    // centre, d7d5 or e7e5, which levels the score
    assert_eq!(eval_move(&b, Move::from_uci("e2e4").unwrap(), 2), 0);
    // the window cuts the value off
    let m = Move::from_uci("e2e4").unwrap();
    assert_eq!(eval_move_min(&b, m, 1, -1000, 1000), 0);
    assert_eq!(eval_move_min(&b, m, 1, 10, 1000), 10);
    assert_eq!(eval_move_min(&b, m, 1, -1000, -10), -10);
    assert_eq!(eval_move_min(&b, m, 1, -1, 1), 0);
    // after a7a6 White's best reply by the static score takes the pawn with
    // the bishop, which adds 90 to the 70 of the pawn on e4
    let k = after(&["e2e4"]);
    let reply = Move::from_uci("a7a6").unwrap();
    assert_eq!(eval_move_max(&k, reply, 1, -1000, 1000), 160);
    assert_eq!(eval_move_max(&k, reply, 1, -1000, 100), 100);
    assert_eq!(eval_move_max(&k, reply, 1, 200, 1000), 200);
    assert_eq!(eval_move(&k, reply, 2), -160);
}

#[test]
fn an_empty_window_gives_one_of_its_bounds() {
    let b = start_position();
    let m = Move::from_uci("e2e4").unwrap();
    // a leaf is scored whatever the window
    assert_eq!(eval_move_min(&b, m, 0, 10, 10), 70);
    assert_eq!(eval_move_max(&b, m, 0, 100, -100), 70);
    // the replies are leaves worth 0 and more: one of them is as low as 10
    assert_eq!(eval_move_min(&b, m, 1, 10, 10), 10);
    // none is as low as -100
    assert_eq!(eval_move_min(&b, m, 1, -100, -200), -200);
    assert_eq!(eval_move_min(&b, m, 1, -100, -100), -100);
    // a reply that is no leaf cuts the search off
    assert_eq!(eval_move_min(&b, m, 2, 5, 5), 5);
    assert_eq!(eval_move_min(&b, m, 2, -1000, -2000), -1000);
    assert_eq!(eval_move_max(&b, m, 2, 2000, 1000), 1000);
    // for the side that seeks the highest score: the replies to a7a6 are
    // worth up to 160
    let k = after(&["e2e4"]);
    let reply = Move::from_uci("a7a6").unwrap();
    assert_eq!(eval_move_max(&k, reply, 1, 160, 160), 160);
    assert_eq!(eval_move_max(&k, reply, 1, 161, 161), 161);
    assert_eq!(eval_move_max(&k, reply, 1, 300, 161), 300);
    assert_eq!(eval_move_max(&k, reply, 1, 300, 160), 160);
}

#[test]
fn stalemate_scores_nothing() {
    // Qb5-b6 leaves Black without a move and not in check
    let b = board("k7/2K5/8/1Q6/8/8/8/8 w - -");
    let stalemate = Move::from_uci("b5b6").unwrap();
    assert_eq!(eval_move(&b, stalemate, 2), 0);
    assert_eq!(eval_move(&b, stalemate, 4), 0);
    assert_eq!(eval_move_min(&b, stalemate, 1, -1_000_000_000, 1_000_000_000), 0);
    assert_eq!(eval_move_min(&b, stalemate, 3, -1_000_000_000, 1_000_000_000), 0);
    // at depth 0 the position is only scored: the queen 940, the king on c7
    // 49970, Black's king in the corner 49940
    assert_eq!(eval_move_min(&b, stalemate, 0, -1, 1), 49970 + 940 - 49940);
    // Qb5-b7 is mate
    let mate = Move::from_uci("b5b7").unwrap();
    assert_eq!(eval_move(&b, mate, 2), EVAL_MATE + 1);
    assert_eq!(eval_move(&b, mate, 4), EVAL_MATE + 3);
    // a stalemated side that is to seek the highest score gets 0 as well
    let w = board("K7/2k5/8/1q6/8/8/8/8 b - -");
    assert_eq!(eval_move(&w, Move::from_uci("b5b6").unwrap(), 2), 0);
    assert_eq!(eval_move_max(&w, Move::from_uci("b5b6").unwrap(), 1, -50, 50), 0);
    assert_eq!(eval_move_max(&w, Move::from_uci("b5b7").unwrap(), 1, -50, 50), -EVAL_MATE - 1);
    assert_eq!(eval_move(&w, Move::from_uci("b5b7").unwrap(), 2), EVAL_MATE + 1);
}

#[test]
fn a_mate_in_two_is_seen_at_depth_four() {
    // 1. Ra7-a8+ is no mate; the ladder: rooks on a7 and b1, Black king on h8
    let b = board("7k/R7/8/8/8/8/8/1R4K1 w - -");
    let first = Move::from_uci("b1b8").unwrap();
    assert_eq!(eval_move(&b, first, 2), EVAL_MATE + 1);
    // a quiet move first, and the mate comes a move pair later, with less
    // depth left
    let quiet = Move::from_uci("g1g2").unwrap();
    assert_eq!(eval_move(&b, quiet, 4), EVAL_MATE + 1);
    assert!(eval_move(&b, quiet, 2) < EVAL_MATE);
}
