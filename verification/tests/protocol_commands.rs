use chess_engine::protocol::{
    is_white_space, parse_command, position_from, split_words, Command, DebugCommand, MoveFault,
    MoveText,
};
use chess_engine::types::{Move, PieceType, Square};
use chess_engine::utils::{apply_move, start_position};

fn kind(line: &str) -> &'static str {
    match parse_command(line) {
        Command::Quit => "quit",
        Command::Uci => "uci",
        Command::IsReady => "isready",
        Command::PositionFen => "fen",
        Command::Position(_) => "position",
        Command::Go => "go",
        Command::Clock => "clock",
        Command::Debug(_) => "debug",
        Command::Other => "other",
    }
}

fn move_texts(line: &str) -> Vec<(String, Option<String>)> {
    match parse_command(line) {
        Command::Position(items) => {
            items.iter().map(|x| (x.text.clone(), x.parsed.map(|m| m.to_uci()))).collect()
        }
        _ => panic!("no position command"),
    }
}

fn items(texts: &[&str]) -> Vec<MoveText> {
    texts.iter().map(|t| MoveText { text: t.to_string(), parsed: Move::from_uci(t) }).collect()
}

#[test]
fn white_space_is_what_separates_words() {
    for c in [' ', '\t', '\n', '\r', '\u{b}', '\u{c}', '\u{85}', '\u{a0}', '\u{2003}', '\u{3000}'] {
        assert!(is_white_space(c));
    }
    for c in ['a', '0', '_', '-', '\u{0}', '\u{200b}', '\u{feff}', '\u{e9}'] {
        assert!(!is_white_space(c));
    }
    for code in 0..0x11000u32 {
        if let Some(c) = char::from_u32(code) {
            assert_eq!(is_white_space(c), c.is_whitespace());
        }
    }
}

#[test]
fn lines_are_split_into_words() {
    assert_eq!(split_words(""), vec![]);
    assert_eq!(split_words("   \t\n"), vec![]);
    assert_eq!(split_words("go"), vec![(0, 2)]);
    assert_eq!(split_words("  go  "), vec![(2, 4)]);
    assert_eq!(split_words("a bc  def\n"), vec![(0, 1), (2, 4), (6, 9)]);
    // places count characters, not bytes
    assert_eq!(split_words("\u{e9}\u{e9} x"), vec![(0, 2), (3, 4)]);
    let line = "position startpos moves e2e4  e7e5\r\n";
    let words: Vec<&str> = line.split_whitespace().collect();
    let found = split_words(line);
    assert_eq!(found.len(), words.len());
    for (i, (a, b)) in found.iter().enumerate() {
        assert_eq!(&line[*a..*b], words[i]);
    }
}

#[test]
fn commands_are_read_whole() {
    assert_eq!(parse_command("quit\n"), Command::Quit);
    assert_eq!(parse_command("go infinite"), Command::Go);
    assert_eq!(parse_command("DEBUG color"), Command::Debug(DebugCommand::Color));
    assert_eq!(
        parse_command("position startpos moves e2e4 x"),
        Command::Position(vec![
            MoveText {
                text: "e2e4".to_string(),
                parsed: Some(Move {
                    from_square: Square::E2,
                    to_square: Square::E4,
                    promote_type: PieceType::Null,
                }),
            },
            MoveText { text: "x".to_string(), parsed: None },
        ])
    );
}

#[test]
fn commands_that_stand_alone() {
    assert_eq!(kind("quit"), "quit");
    assert_eq!(kind("quit\n"), "quit");
    assert_eq!(kind("  quit \r\n"), "quit");
    assert_eq!(kind("uci"), "uci");
    assert_eq!(kind("isready\n"), "isready");
    assert_eq!(kind("quit now"), "other");
    assert_eq!(kind("quitx"), "other");
    assert_eq!(kind("QUIT"), "other");
    assert_eq!(kind("uci ok"), "other");
    assert_eq!(kind("ucinewgame"), "other");
    assert_eq!(kind("isready?"), "other");
    assert_eq!(kind(""), "other");
    assert_eq!(kind("\n"), "other");
    assert_eq!(kind("   "), "other");
    assert_eq!(kind("stop"), "other");
}

#[test]
fn commands_known_by_their_beginning() {
    assert_eq!(kind("position fen 8/8/8/8/8/8/8/8 w - - 0 1"), "fen");
    assert_eq!(kind("position fen"), "fen");
    assert_eq!(kind("position fenced"), "fen");
    assert_eq!(kind("position startpos"), "position");
    assert_eq!(kind("position startpos moves e2e4"), "position");
    assert_eq!(kind("  position startpos\n"), "position");
    assert_eq!(kind("position  startpos"), "other");
    assert_eq!(kind("position"), "other");
    assert_eq!(kind("Position startpos"), "other");
    assert_eq!(kind("go"), "go");
    assert_eq!(kind("go depth 4"), "go");
    assert_eq!(kind("go wtime 1000 btime 1000\n"), "go");
    assert_eq!(kind("gone"), "go");
    assert_eq!(kind("g o"), "other");
    assert_eq!(kind("time 100"), "clock");
    assert_eq!(kind("otim 100"), "clock");
    assert_eq!(kind("timer"), "clock");
    assert_eq!(kind("tim"), "other");
    assert_eq!(kind("DEBUG showboard"), "debug");
    assert_eq!(kind("DEBUG"), "debug");
    assert_eq!(kind("DEBUGGING"), "debug");
    assert_eq!(kind("debug showboard"), "other");
}

#[test]
fn the_moves_of_a_position_command() {
    assert_eq!(move_texts("position startpos"), vec![]);
    assert_eq!(move_texts("position startpos moves"), vec![]);
    assert_eq!(
        move_texts("position startpos moves e2e4 e7e5\n"),
        vec![
            ("e2e4".to_string(), Some("e2e4".to_string())),
            ("e7e5".to_string(), Some("e7e5".to_string())),
        ]
    );
    assert_eq!(
        move_texts("  position startpos   moves  a7a8q  nonsense e2e9 e1g1 "),
        vec![
            ("a7a8q".to_string(), Some("a7a8q".to_string())),
            ("nonsense".to_string(), None),
            ("e2e9".to_string(), None),
            ("e1g1".to_string(), Some("e1g1".to_string())),
        ]
    );
    // without the word `moves` in the third place there are no moves
    assert_eq!(move_texts("position startpos e2e4 e7e5"), vec![]);
    assert_eq!(move_texts("position startpos Moves e2e4"), vec![]);
    assert_eq!(move_texts("position startpos moves: e2e4"), vec![]);
    // the second word is not looked at beyond its beginning
    assert_eq!(
        move_texts("position startposition moves e2e4"),
        vec![("e2e4".to_string(), Some("e2e4".to_string()))]
    );
}

#[test]
fn what_a_debug_command_shows() {
    let what = |line: &str| match parse_command(line) {
        Command::Debug(d) => d,
        _ => panic!("no debug command"),
    };
    assert_eq!(what("DEBUG showmoves"), DebugCommand::ShowMoves);
    assert_eq!(what("DEBUG showpmoves"), DebugCommand::ShowPseudoMoves);
    assert_eq!(what("DEBUG showboard\n"), DebugCommand::ShowBoard);
    assert_eq!(what("DEBUG   color"), DebugCommand::Color);
    assert_eq!(what("DEBUG showbitboards now"), DebugCommand::ShowBitboards);
    assert_eq!(what("DEBUG"), DebugCommand::Nothing);
    assert_eq!(what("DEBUG showeverything"), DebugCommand::Nothing);
    assert_eq!(what("DEBUG Color"), DebugCommand::Nothing);
    assert_eq!(what("DEBUGshowboard color"), DebugCommand::Color);
}

#[test]
fn a_position_is_set_up_move_by_move() {
    let (board, faults) = position_from(&items(&[]));
    assert_eq!(board, start_position());
    assert_eq!(faults.len(), 0);
    let (board, faults) = position_from(&items(&["e2e4", "e7e5", "g1f3"]));
    let mut expected = start_position();
    for t in ["e2e4", "e7e5", "g1f3"] {
        expected = apply_move(&expected, Move::from_uci(t).unwrap());
    }
    assert_eq!(board, expected);
    assert_eq!(faults.len(), 0);
}

#[test]
fn words_at_fault_are_listed_and_left_out() {
    // the second word is no move, the fourth is a move from an empty square
    let list = items(&["e2e4", "castle", "e7e5", "e4e5", "d2d5", "g8f6"]);
    let (board, faults) = position_from(&list);
    assert_eq!(faults.len(), 2);
    assert_eq!(faults[0], MoveFault::Unreadable(1));
    // e4e5 is made, though no rule allows it: moves are not checked
    let mut expected = start_position();
    for t in ["e2e4", "e7e5", "e4e5"] {
        expected = apply_move(&expected, Move::from_uci(t).unwrap());
    }
    assert_eq!(faults[1], MoveFault::NoPiece(4, expected));
    // the board is unchanged by the fault: Black is still to move
    expected = apply_move(&expected, Move::from_uci("g8f6").unwrap());
    assert_eq!(board, expected);
}
