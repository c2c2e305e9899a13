use chess_engine::engine::{best_move, describe_score, rank_moves, report, search, Score};
use chess_engine::eval::{eval_move, EVAL_MATE};
use chess_engine::move_search::{calc_moves, test_pmove_valid};
use chess_engine::types::{Board, Move};
use chess_engine::utils::{apply_move, apply_moves, apply_null_move, start_position};

fn after(moves: &[&str]) -> Board {
    let parsed: Vec<Move> = moves.iter().map(|t| Move::from_uci(t).unwrap()).collect();
    apply_moves(&start_position(), &parsed)
}

#[test]
fn fools_mate_is_found_at_depth_six() {
    let b = after(&["f2f3", "e7e5", "g2g4"]);
    let ranked = search(&b, 6);
    let best = best_move(&ranked).unwrap();
    assert_eq!(best.to_uci(), "d8h4");
    let (score, _) = ranked[ranked.len() - 1];
    assert!(score >= EVAL_MATE);
    assert_eq!(score, EVAL_MATE + 5);
    assert_eq!(ranked.len(), calc_moves(&b).len());
    // no other move mates at once
    assert!(ranked[ranked.len() - 2].0 < EVAL_MATE + 5);
}

#[test]
fn fools_mate_move_scores_mate_for_black() {
    let b = after(&["f2f3", "e7e5", "g2g4"]);
    let mate = Move::from_uci("d8h4").unwrap();
    assert_eq!(eval_move(&b, mate, 6), EVAL_MATE + 5);
    assert_eq!(eval_move(&b, mate, 2), EVAL_MATE + 1);
    // White is mated: no legal move, and the king can be taken
    let mated = apply_move(&b, mate);
    assert_eq!(calc_moves(&mated).len(), 0);
    assert!(!test_pmove_valid(&apply_null_move(&mated)));
}

#[test]
fn ranked_moves_rise_in_score() {
    let b = after(&["e2e4", "d7d5"]);
    let moves = calc_moves(&b);
    let ranked = rank_moves(&b, &moves, 2);
    assert_eq!(ranked.len(), moves.len());
    for i in 1..ranked.len() {
        assert!(ranked[i - 1].0 <= ranked[i].0);
    }
    for (score, m) in &ranked {
        assert_eq!(*score, eval_move(&b, *m, 2));
        assert!(moves.contains(m));
    }
    for m in &moves {
        assert_eq!(ranked.iter().filter(|(_, r)| r == m).count(), 1);
    }
    // moves of equal score keep the order in which they were given
    for i in 1..ranked.len() {
        if ranked[i - 1].0 == ranked[i].0 {
            let a = moves.iter().position(|m| *m == ranked[i - 1].1).unwrap();
            let b = moves.iter().position(|m| *m == ranked[i].1).unwrap();
            assert!(a < b);
        }
    }
    assert_eq!(best_move(&ranked), Some(ranked[ranked.len() - 1].1));
}

#[test]
fn ranking_at_depth_one_goes_by_the_static_score() {
    let b = start_position();
    let moves: Vec<Move> =
        ["g1f3", "e2e4", "a2a3", "e2e3", "d2d4"].iter().map(|t| Move::from_uci(t).unwrap()).collect();
    let ranked = rank_moves(&b, &moves, 1);
    let got: Vec<(i32, String)> = ranked.iter().map(|(s, m)| (*s, m.to_uci())).collect();
    assert_eq!(
        got,
        vec![
            (0, "a2a3".to_string()),
            (50, "g1f3".to_string()),
            (65, "e2e3".to_string()),
            (70, "e2e4".to_string()),
            (70, "d2d4".to_string()),
        ]
    );
    assert_eq!(best_move(&ranked).unwrap().to_uci(), "d2d4");
    assert_eq!(rank_moves(&b, &Vec::new(), 3).len(), 0);
}

#[test]
fn the_best_move_is_the_last_of_the_list() {
    assert_eq!(best_move(&Vec::new()), None);
    let a = Move::from_uci("e2e4").unwrap();
    let b = Move::from_uci("d2d4").unwrap();
    assert_eq!(best_move(&vec![(5, a)]), Some(a));
    assert_eq!(best_move(&vec![(5, a), (7, b)]), Some(b));
    assert_eq!(best_move(&vec![(5, b), (5, a)]), Some(a));
}

#[test]
fn the_search_scores_every_legal_move_once() {
    let b = after(&["e2e4", "e7e5", "g1f3", "b8c6", "f1c4", "g8f6"]);
    let moves = calc_moves(&b);
    let ranked = search(&b, 2);
    assert_eq!(ranked.len(), moves.len());
    for m in &moves {
        assert_eq!(ranked.iter().filter(|(_, r)| r == m).count(), 1);
    }
    for i in 1..ranked.len() {
        assert!(ranked[i - 1].0 <= ranked[i].0);
    }
    for (score, m) in &ranked {
        assert_eq!(*score, eval_move(&b, *m, 2));
    }
    // castling can be played
    assert!(ranked.iter().any(|(_, m)| m.to_uci() == "e1g1"));
}

#[test]
fn moves_of_equal_score_come_in_an_order_that_chance_decides() {
    // at depth 1 a2a3 and h2h3 score the same, as do many others
    let b = start_position();
    let first: Vec<String> = search(&b, 1).iter().map(|(_, m)| m.to_uci()).collect();
    let mut differs = false;
    for _ in 0..40 {
        let next: Vec<String> = search(&b, 1).iter().map(|(_, m)| m.to_uci()).collect();
        if next != first {
            differs = true;
        }
        let mut x = first.clone();
        let mut y = next.clone();
        x.sort();
        y.sort();
        assert_eq!(x, y);
    }
    assert!(differs);
}

#[test]
fn a_side_without_a_move_gets_no_best_move() {
    let mated = after(&["f2f3", "e7e5", "g2g4", "d8h4"]);
    let ranked = search(&mated, 3);
    assert_eq!(ranked.len(), 0);
    assert_eq!(best_move(&ranked), None);
}

#[test]
fn scores_are_shown_as_mate_or_in_centipawns() {
    assert_eq!(describe_score(0, 6), Score::Centipawns(0));
    assert_eq!(describe_score(70, 6), Score::Centipawns(70));
    assert_eq!(describe_score(-140, 6), Score::Centipawns(-140));
    assert_eq!(describe_score(EVAL_MATE - 1, 6), Score::Centipawns(EVAL_MATE - 1));
    assert_eq!(describe_score(-EVAL_MATE + 1, 6), Score::Centipawns(-EVAL_MATE + 1));
    // (depth - (score - EVAL_MATE)) / 2
    assert_eq!(describe_score(EVAL_MATE + 5, 6), Score::Mate(0));
    assert_eq!(describe_score(EVAL_MATE + 3, 6), Score::Mate(1));
    assert_eq!(describe_score(EVAL_MATE + 1, 6), Score::Mate(2));
    assert_eq!(describe_score(EVAL_MATE, 6), Score::Mate(3));
    assert_eq!(describe_score(EVAL_MATE + 9, 6), Score::Mate(-1));
    // -(depth + (score + EVAL_MATE)) / 2, rounded towards zero
    assert_eq!(describe_score(-EVAL_MATE, 6), Score::Mate(-3));
    assert_eq!(describe_score(-EVAL_MATE - 1, 6), Score::Mate(-2));
    assert_eq!(describe_score(-EVAL_MATE - 4, 6), Score::Mate(-1));
    assert_eq!(describe_score(-EVAL_MATE - 5, 6), Score::Mate(0));
    assert_eq!(describe_score(-EVAL_MATE - 9, 6), Score::Mate(1));
    assert_eq!(describe_score(i32::MAX, i32::MIN), Score::Mate(-2146983647));
    assert_eq!(describe_score(i32::MIN, i32::MIN), Score::Mate(2146983648));
    assert_eq!(describe_score(i32::MAX, i32::MAX), Score::Mate(500000));
}

#[test]
fn the_report_shows_each_move_with_its_score() {
    let a = Move::from_uci("e2e4").unwrap();
    let b = Move::from_uci("d8h4").unwrap();
    let c = Move::from_uci("a7a6").unwrap();
    let ranked = vec![(-EVAL_MATE - 2, c), (70, a), (EVAL_MATE + 5, b)];
    assert_eq!(
        report(&ranked, 6),
        vec![(Score::Mate(-2), c), (Score::Centipawns(70), a), (Score::Mate(0), b)]
    );
    assert_eq!(report(&Vec::new(), 6), vec![]);
}
