//! The commands of the Universal Chess Interface that the engine knows: how
//! a line of input is read as a command, and how the moves of a `position`
//! command lead from the starting position to the position to search.

use crate::types::{Board, Move, PieceType, Position};
use crate::utils::{apply_move, initial_position, moved, moving_kind, piece_to_move, start_position};
use vstd::prelude::*;
use vstd::string::{StrSliceExecFns, StringExecFns};

verus! {

/// Whether `c` is white space: one of the characters that separate words.
pub open spec fn is_space(c: char) -> bool {
    ||| c == '\u{9}'
    ||| c == '\u{a}'
    ||| c == '\u{b}'
    ||| c == '\u{c}'
    ||| c == '\u{d}'
    ||| c == ' '
    ||| c == '\u{85}'
    ||| c == '\u{a0}'
    ||| c == '\u{1680}'
    ||| c == '\u{2000}'
    ||| c == '\u{2001}'
    ||| c == '\u{2002}'
    ||| c == '\u{2003}'
    ||| c == '\u{2004}'
    ||| c == '\u{2005}'
    ||| c == '\u{2006}'
    ||| c == '\u{2007}'
    ||| c == '\u{2008}'
    ||| c == '\u{2009}'
    ||| c == '\u{200a}'
    ||| c == '\u{2028}'
    ||| c == '\u{2029}'
    ||| c == '\u{202f}'
    ||| c == '\u{205f}'
    ||| c == '\u{3000}'
}

/// Tells whether `c` is white space.
pub fn is_white_space(c: char) -> (r: bool)
    ensures
        r == is_space(c),
{
    c == '\u{9}' || c == '\u{a}' || c == '\u{b}' || c == '\u{c}' || c == '\u{d}' || c == ' ' || c
        == '\u{85}' || c == '\u{a0}' || c == '\u{1680}' || c == '\u{2000}' || c == '\u{2001}' || c
        == '\u{2002}' || c == '\u{2003}' || c == '\u{2004}' || c == '\u{2005}' || c == '\u{2006}'
        || c == '\u{2007}' || c == '\u{2008}' || c == '\u{2009}' || c == '\u{200a}' || c
        == '\u{2028}' || c == '\u{2029}' || c == '\u{202f}' || c == '\u{205f}' || c == '\u{3000}'
}

/// Where the run of white space (if `spaces`) or of other characters (if
/// not) that begins at `from` ends: the first place from `from` on that
/// holds a character of the other kind, or the end of the text.
pub open spec fn run_end(s: Seq<char>, from: int, spaces: bool) -> int
    decreases s.len() - from,
{
    if from < 0 || from >= s.len() || is_space(s[from]) != spaces {
        from
    } else {
        run_end(s, from + 1, spaces)
    }
}

/// A run ends within the text, and holds characters of one kind only.
pub proof fn lemma_run_end(s: Seq<char>, from: int, spaces: bool)
    requires
        0 <= from <= s.len(),
    ensures
        from <= run_end(s, from, spaces) <= s.len(),
        forall|i: int| from <= i < run_end(s, from, spaces) ==> is_space(s[i]) == spaces,
        run_end(s, from, spaces) < s.len() ==> is_space(s[run_end(s, from, spaces)]) != spaces,
        from < s.len() && is_space(s[from]) == spaces ==> run_end(s, from, spaces) > from,
    decreases s.len() - from,
{
    if from < s.len() && is_space(s[from]) == spaces {
        lemma_run_end(s, from + 1, spaces);
    }
}

/// Where the word that begins at `from` ends.
pub open spec fn word_end(s: Seq<char>, from: int) -> int {
    if from < run_end(s, from + 1, false) <= s.len() {
        run_end(s, from + 1, false)
    } else {
        from + 1
    }
}

/// The words of the text from `from` on, each as the places where it begins
/// and ends: the runs of characters that are no white space.
pub open spec fn words_from(s: Seq<char>, from: int) -> Seq<(int, int)>
    decreases s.len() - from,
{
    if from < 0 || from >= s.len() {
        Seq::empty()
    } else if is_space(s[from]) {
        words_from(s, from + 1)
    } else {
        seq![(from, word_end(s, from))] + words_from(s, word_end(s, from))
    }
}

/// The words of the text.
pub open spec fn words(s: Seq<char>) -> Seq<Seq<char>> {
    Seq::new(words_from(s, 0).len(), |i: int| s.subrange(words_from(s, 0)[i].0, words_from(s, 0)[i].1))
}

/// White space before the first word adds no words.
pub proof fn lemma_words_skip_spaces(s: Seq<char>, from: int, to: int)
    requires
        0 <= from <= to <= s.len(),
        forall|i: int| from <= i < to ==> is_space(s[i]),
    ensures
        words_from(s, from) == words_from(s, to),
    decreases to - from,
{
    if from < to {
        lemma_words_skip_spaces(s, from + 1, to);
    }
}

/// Every word lies within the text and is not empty.
pub proof fn lemma_words_within(s: Seq<char>, from: int, i: int)
    requires
        0 <= from <= s.len(),
        0 <= i < words_from(s, from).len(),
    ensures
        from <= words_from(s, from)[i].0 < words_from(s, from)[i].1 <= s.len(),
    decreases s.len() - from,
{
    if from < s.len() {
        if is_space(s[from]) {
            lemma_words_within(s, from + 1, i);
        } else {
            let end = word_end(s, from);
            lemma_run_end(s, from + 1, false);
            if i > 0 {
                lemma_words_within(s, end, i - 1);
                assert(words_from(s, from)[i] == words_from(s, end)[i - 1]);
            }
        }
    }
}

/// No word begins before the first.
pub proof fn lemma_first_word_first(s: Seq<char>, from: int, i: int)
    requires
        0 <= from <= s.len(),
        0 <= i < words_from(s, from).len(),
    ensures
        words_from(s, from)[0].0 <= words_from(s, from)[i].0,
    decreases s.len() - from,
{
    if from < s.len() {
        if is_space(s[from]) {
            lemma_first_word_first(s, from + 1, i);
        } else if i > 0 {
            let end = word_end(s, from);
            lemma_run_end(s, from + 1, false);
            lemma_words_within(s, end, i - 1);
            assert(words_from(s, from)[i] == words_from(s, end)[i - 1]);
        }
    }
}

/// Whether `found` holds the places of the words of `s`.
pub open spec fn marks(found: Seq<(usize, usize)>, s: Seq<char>) -> bool {
    &&& found.len() == words(s).len()
    &&& forall|i: int|
        0 <= i < found.len() ==> (#[trigger] found[i]).0 < found[i].1 <= s.len() && s.subrange(
            found[i].0 as int,
            found[i].1 as int,
        ) == words(s)[i]
}

/// The places of words as whole numbers.
pub open spec fn places(found: Seq<(usize, usize)>) -> Seq<(int, int)> {
    Seq::new(found.len(), |i: int| (found[i].0 as int, found[i].1 as int))
}

/// Finds the end of the run that begins at `from`.
fn skip_run(line: &str, n: usize, from: usize, spaces: bool) -> (r: usize)
    requires
        n == line@.len(),
        from <= n,
    ensures
        r == run_end(line@, from as int, spaces),
        from <= r <= n,
{
    let mut i: usize = from;
    while i < n && is_white_space(line.get_char(i)) == spaces
        invariant
            from <= i <= n,
            n == line@.len(),
            run_end(line@, from as int, spaces) == run_end(line@, i as int, spaces),
        decreases n - i,
    {
        i = i + 1;
    }
    i
}

/// Finds the words of `line`: for each the places where it begins and ends.
pub fn split_words(line: &str) -> (r: Vec<(usize, usize)>)
    ensures
        places(r@) == words_from(line@, 0),
        marks(r@, line@),
{
    let n = line.unicode_len();
    let ghost s = line@;
    let mut found: Vec<(usize, usize)> = Vec::new();
    let mut i: usize = 0;
    while i < n
        invariant
            0 <= i <= n,
            n == s.len(),
            s == line@,
            forall|k: int|
                0 <= k < found@.len() ==> (#[trigger] found@[k]).0 as int == words_from(s, 0)[k].0
                    && found@[k].1 as int == words_from(s, 0)[k].1 && found@[k].0 < found@[k].1
                    <= n,
            found@.len() + words_from(s, i as int).len() == words_from(s, 0).len(),
            forall|k: int|
                0 <= k < words_from(s, i as int).len() ==> words_from(s, i as int)[k]
                    == words_from(s, 0)[found@.len() + k],
        decreases n - i,
    {
        let start = skip_run(line, n, i, true);
        proof {
            lemma_run_end(s, i as int, true);
            lemma_words_skip_spaces(s, i as int, start as int);
        }
        if start >= n {
            i = n;
        } else {
            let end = skip_run(line, n, start + 1, false);
            proof {
                lemma_run_end(s, start + 1, false);
                assert(end == word_end(s, start as int));
                let rest = words_from(s, end as int);
                assert(words_from(s, start as int) == seq![(start as int, end as int)] + rest);
                assert forall|k: int| 0 <= k < rest.len() implies rest[k] == words_from(s, 0)[
                    found@.len() + 1 + k] by {
                    assert(words_from(s, start as int)[k + 1] == rest[k]);
                }
                assert(words_from(s, start as int)[0] == (start as int, end as int));
                assert(words_from(s, 0)[found@.len() as int] == (start as int, end as int));
            }
            let ghost before = found@;
            found.push((start, end));
            assert forall|k: int| 0 <= k < found@.len() implies (#[trigger] found@[k]).0 as int
                == words_from(s, 0)[k].0 && found@[k].1 as int == words_from(s, 0)[k].1
                && found@[k].0 < found@[k].1 <= n by {
                if k < before.len() {
                    assert(found@[k] == before[k]);
                }
            }
            i = end;
        }
    }
    proof {
        assert(words_from(s, n as int).len() == 0);
        assert(found@.len() == words(s).len());
        assert(places(found@) =~= words_from(s, 0));
        assert forall|k: int| 0 <= k < found@.len() implies (#[trigger] found@[k]).0
            < found@[k].1 <= s.len() && s.subrange(found@[k].0 as int, found@[k].1 as int)
            == words(s)[k] by {
            assert(found@[k].0 as int == words_from(s, 0)[k].0);
        }
    }
    found
}

/// The text without the white space before its first and after its last
/// word.
pub open spec fn trimmed(s: Seq<char>) -> Seq<char> {
    let w = words_from(s, 0);
    if w.len() == 0 {
        Seq::empty()
    } else {
        s.subrange(w[0].0, w.last().1)
    }
}

/// Tells whether the part of `line` from `a` to `b` begins with `lit`, and
/// whether it is `lit`.
fn compare(line: &str, a: usize, b: usize, lit: &str) -> (r: (bool, bool))
    requires
        a <= b <= line@.len(),
    ensures
        r.0 == lit@.is_prefix_of(line@.subrange(a as int, b as int)),
        r.1 == (line@.subrange(a as int, b as int) == lit@),
{
    let m = lit.unicode_len();
    let ghost part = line@.subrange(a as int, b as int);
    if b - a < m {
        return (false, false);
    }
    let mut j: usize = 0;
    while j < m
        invariant
            0 <= j <= m,
            m == lit@.len(),
            a <= b <= line@.len(),
            m <= b - a,
            part == line@.subrange(a as int, b as int),
            forall|k: int| 0 <= k < j ==> part[k] == lit@[k],
        decreases m - j,
    {
        if line.get_char(a + j) != lit.get_char(j) {
            assert(part[j as int] != lit@[j as int]);
            assert(part.subrange(0, m as int)[j as int] == part[j as int]);
            return (false, false);
        }
        j = j + 1;
    }
    assert(part.subrange(0, m as int) =~= lit@);
    if b - a == m {
        assert(part =~= lit@);
    }
    (true, b - a == m)
}

/// What a line of input asks for.
#[derive(Clone, Copy, Debug, PartialEq, Eq, Structural)]
pub enum CommandKind {
    /// `quit`: end the program.
    Quit,
    /// `uci`: name the engine.
    Uci,
    /// `isready`: answer that the engine is ready.
    IsReady,
    /// `position fen ...`: a position in a notation that is not read.
    PositionFen,
    /// `position startpos ...`: set up the starting position and make moves.
    PositionStart,
    /// `go ...`: search the position.
    Go,
    /// `time ...` or `otim ...`: the clocks, which are not used.
    Clock,
    /// `DEBUG ...`: show something of the engine's state.
    Debug,
    /// Anything else: nothing is done.
    Other,
}

/// What a `DEBUG` command asks to show.
#[derive(Clone, Copy, Debug, PartialEq, Eq, Structural)]
pub enum DebugCommand {
    ShowMoves,
    ShowPseudoMoves,
    ShowBoard,
    Color,
    ShowBitboards,
    Nothing,
}

/// What the line `s` asks for. The commands `quit`, `uci` and `isready`
/// stand alone on their line; the others are known by the way the line
/// begins. White space before and behind does not count.
pub open spec fn kind_of(s: Seq<char>) -> CommandKind {
    let t = trimmed(s);
    if t == "quit"@ {
        CommandKind::Quit
    } else if t == "uci"@ {
        CommandKind::Uci
    } else if t == "isready"@ {
        CommandKind::IsReady
    } else if "position fen"@.is_prefix_of(t) {
        CommandKind::PositionFen
    } else if "position startpos"@.is_prefix_of(t) {
        CommandKind::PositionStart
    } else if "go"@.is_prefix_of(t) {
        CommandKind::Go
    } else if "time"@.is_prefix_of(t) || "otim"@.is_prefix_of(t) {
        CommandKind::Clock
    } else if "DEBUG"@.is_prefix_of(t) {
        CommandKind::Debug
    } else {
        CommandKind::Other
    }
}

/// The words of a `position startpos` line that name moves: those behind the
/// word `moves`, if that is the third word of the line; none else.
pub open spec fn move_words(s: Seq<char>) -> Seq<Seq<char>> {
    if words(s).len() > 2 && words(s)[2] == "moves"@ {
        words(s).skip(3)
    } else {
        Seq::empty()
    }
}

/// What a `DEBUG` line asks to show: its second word says it.
pub open spec fn debug_of(s: Seq<char>) -> DebugCommand {
    if words(s).len() < 2 {
        DebugCommand::Nothing
    } else if words(s)[1] == "showmoves"@ {
        DebugCommand::ShowMoves
    } else if words(s)[1] == "showpmoves"@ {
        DebugCommand::ShowPseudoMoves
    } else if words(s)[1] == "showboard"@ {
        DebugCommand::ShowBoard
    } else if words(s)[1] == "color"@ {
        DebugCommand::Color
    } else if words(s)[1] == "showbitboards"@ {
        DebugCommand::ShowBitboards
    } else {
        DebugCommand::Nothing
    }
}

/// A word that stands for a move, and the move that it denotes, if it
/// denotes one.
#[derive(Clone, Debug, PartialEq, Eq)]
pub struct MoveText {
    pub text: String,
    pub parsed: Option<Move>,
}

/// A command with what belongs to it.
#[derive(Clone, Debug, PartialEq, Eq)]
pub enum Command {
    Quit,
    Uci,
    IsReady,
    PositionFen,
    Position(Vec<MoveText>),
    Go,
    Clock,
    Debug(DebugCommand),
    Other,
}

impl Command {
    /// The kind of the command.
    pub open spec fn kind(self) -> CommandKind {
        match self {
            Command::Quit => CommandKind::Quit,
            Command::Uci => CommandKind::Uci,
            Command::IsReady => CommandKind::IsReady,
            Command::PositionFen => CommandKind::PositionFen,
            Command::Position(_) => CommandKind::PositionStart,
            Command::Go => CommandKind::Go,
            Command::Clock => CommandKind::Clock,
            Command::Debug(_) => CommandKind::Debug,
            Command::Other => CommandKind::Other,
        }
    }
}

/// Whether `items` are the words of `texts`, each with the move that it
/// denotes.
pub open spec fn reads(items: Seq<MoveText>, texts: Seq<Seq<char>>) -> bool {
    &&& items.len() == texts.len()
    &&& forall|i: int|
        0 <= i < items.len() ==> (#[trigger] items[i]).text@ == texts[i] && items[i].parsed
            == Move::parse(texts[i])
}

/// Reads the kind of the command on `line`.
fn read_kind(line: &str, found: &Vec<(usize, usize)>) -> (r: CommandKind)
    requires
        places(found@) == words_from(line@, 0),
    ensures
        r == kind_of(line@),
{
    proof {
        reveal_strlit("quit");
        reveal_strlit("uci");
        reveal_strlit("isready");
        reveal_strlit("position fen");
        reveal_strlit("position startpos");
        reveal_strlit("go");
        reveal_strlit("time");
        reveal_strlit("otim");
        reveal_strlit("DEBUG");
    }
    assert(words_from(line@, 0).len() == places(found@).len());
    if found.len() == 0 {
        proof {
            let t = trimmed(line@);
            assert(t.len() == 0);
            assert("quit"@.len() == 4 && "uci"@.len() == 3 && "isready"@.len() == 7);
            assert("position fen"@.len() == 12 && "position startpos"@.len() == 17);
            assert("go"@.len() == 2 && "time"@.len() == 4 && "otim"@.len() == 4 && "DEBUG"@.len()
                == 5);
        }
        return CommandKind::Other;
    }
    let a = found[0].0;
    let b = found[found.len() - 1].1;
    proof {
        let w = words_from(line@, 0);
        let last = found@.len() - 1;
        assert(places(found@)[0] == w[0] && places(found@)[last] == w[last]);
        lemma_first_word_first(line@, 0, last);
        lemma_words_within(line@, 0, last);
        lemma_words_within(line@, 0, 0);
    }
    assert(trimmed(line@) == line@.subrange(a as int, b as int));
    if compare(line, a, b, "quit").1 {
        CommandKind::Quit
    } else if compare(line, a, b, "uci").1 {
        CommandKind::Uci
    } else if compare(line, a, b, "isready").1 {
        CommandKind::IsReady
    } else if compare(line, a, b, "position fen").0 {
        CommandKind::PositionFen
    } else if compare(line, a, b, "position startpos").0 {
        CommandKind::PositionStart
    } else if compare(line, a, b, "go").0 {
        CommandKind::Go
    } else if compare(line, a, b, "time").0 || compare(line, a, b, "otim").0 {
        CommandKind::Clock
    } else if compare(line, a, b, "DEBUG").0 {
        CommandKind::Debug
    } else {
        CommandKind::Other
    }
}

/// Reads the words that name the moves of a `position startpos` line.
fn read_moves(line: &str, found: &Vec<(usize, usize)>) -> (items: Vec<MoveText>)
    requires
        marks(found@, line@),
    ensures
        reads(items@, move_words(line@)),
{
    let mut items: Vec<MoveText> = Vec::new();
    if found.len() <= 2 {
        return items;
    }
    assert(found@[2].0 < found@[2].1 && words(line@)[2] == line@.subrange(
        found@[2].0 as int,
        found@[2].1 as int,
    ));
    if !compare(line, found[2].0, found[2].1, "moves").1 {
        return items;
    }
    let ghost texts = move_words(line@);
    let mut i: usize = 3;
    while i < found.len()
        invariant
            3 <= i <= found@.len(),
            marks(found@, line@),
            texts == words(line@).skip(3),
            items@.len() == i - 3,
            forall|k: int|
                0 <= k < items@.len() ==> (#[trigger] items@[k]).text@ == texts[k]
                    && items@[k].parsed == Move::parse(texts[k]),
        decreases found@.len() - i,
    {
        assert(found@[i as int].0 < found@[i as int].1 <= line@.len());
        let text = line.substring_char(found[i].0, found[i].1);
        assert(text@ == words(line@)[i as int]);
        let parsed = Move::from_uci(text);
        let item = MoveText { text: String::from_str(text), parsed };
        let ghost before = items@;
        items.push(item);
        assert forall|k: int| 0 <= k < items@.len() implies (#[trigger] items@[k]).text@ == texts[k]
            && items@[k].parsed == Move::parse(texts[k]) by {
            if k < before.len() {
                assert(items@[k] == before[k]);
            }
        }
        i = i + 1;
    }
    items
}

/// Reads what a `DEBUG` line asks to show.
fn read_debug(line: &str, found: &Vec<(usize, usize)>) -> (r: DebugCommand)
    requires
        marks(found@, line@),
    ensures
        r == debug_of(line@),
{
    if found.len() < 2 {
        return DebugCommand::Nothing;
    }
    assert(found@[1].0 < found@[1].1 <= line@.len());
    let a = found[1].0;
    let b = found[1].1;
    assert(words(line@)[1] == line@.subrange(a as int, b as int));
    if compare(line, a, b, "showmoves").1 {
        DebugCommand::ShowMoves
    } else if compare(line, a, b, "showpmoves").1 {
        DebugCommand::ShowPseudoMoves
    } else if compare(line, a, b, "showboard").1 {
        DebugCommand::ShowBoard
    } else if compare(line, a, b, "color").1 {
        DebugCommand::Color
    } else if compare(line, a, b, "showbitboards").1 {
        DebugCommand::ShowBitboards
    } else {
        DebugCommand::Nothing
    }
}

/// Reads a line of input as a command.
pub fn parse_command(line: &str) -> (c: Command)
    ensures
        c.kind() == kind_of(line@),
        c matches Command::Position(items) ==> reads(items@, move_words(line@)),
        c matches Command::Debug(what) ==> what == debug_of(line@),
{
    let found = split_words(line);
    match read_kind(line, &found) {
        CommandKind::Quit => Command::Quit,
        CommandKind::Uci => Command::Uci,
        CommandKind::IsReady => Command::IsReady,
        CommandKind::PositionFen => Command::PositionFen,
        CommandKind::PositionStart => Command::Position(read_moves(line, &found)),
        CommandKind::Go => Command::Go,
        CommandKind::Clock => Command::Clock,
        CommandKind::Debug => Command::Debug(read_debug(line, &found)),
        CommandKind::Other => Command::Other,
    }
}

/// The moves that the words denote, `None` for a word that denotes none.
pub open spec fn parsed_moves(items: Seq<MoveText>) -> Seq<Option<Move>> {
    Seq::new(items.len(), |i: int| items[i].parsed)
}

/// The position that a `position startpos` command sets up: the starting
/// position with the moves made in order, the words that denote no move left
/// out.
pub open spec fn set_up(parsed: Seq<Option<Move>>) -> Position
    decreases parsed.len(),
{
    if parsed.len() == 0 {
        initial_position()
    } else {
        match parsed.last() {
            Some(m) => moved(set_up(parsed.drop_last()), m),
            None => set_up(parsed.drop_last()),
        }
    }
}

/// Whether the word with number `i` is at fault: it denotes no move, or a
/// move from a square on which the side to move has no piece.
pub open spec fn is_fault(parsed: Seq<Option<Move>>, i: int) -> bool {
    match parsed[i] {
        Some(m) => moving_kind(set_up(parsed.take(i)), m) == PieceType::Null,
        None => true,
    }
}

/// The numbers of the words at fault among the first `n`, in rising order.
pub open spec fn faults_upto(parsed: Seq<Option<Move>>, n: int) -> Seq<int>
    decreases n,
{
    if n <= 0 {
        Seq::empty()
    } else if is_fault(parsed, n - 1) {
        faults_upto(parsed, n - 1).push(n - 1)
    } else {
        faults_upto(parsed, n - 1)
    }
}

/// What is wrong with a word of a `position` command.
#[derive(Clone, Debug, PartialEq, Eq)]
pub enum MoveFault {
    /// The word with this number denotes no move.
    Unreadable(usize),
    /// The word with this number denotes a move from a square on which the
    /// side to move has no piece; the board is the board at that time, which
    /// the move leaves as it is.
    NoPiece(usize, Board),
}

impl MoveFault {
    /// The number of the word at fault.
    pub open spec fn index(self) -> int {
        match self {
            MoveFault::Unreadable(i) => i as int,
            MoveFault::NoPiece(i, _) => i as int,
        }
    }

    /// Whether the fault is the fault of the word with number `i`.
    pub open spec fn reports(self, parsed: Seq<Option<Move>>, i: int) -> bool {
        &&& self.index() == i
        &&& match self {
            MoveFault::Unreadable(_) => parsed[i] is None,
            MoveFault::NoPiece(_, b) => parsed[i] is Some && b@ == set_up(parsed.take(i)),
        }
    }
}

/// Sets up the position of a `position startpos` command: makes the moves
/// in order from the starting position and lists the words at fault.
pub fn position_from(items: &Vec<MoveText>) -> (r: (Board, Vec<MoveFault>))
    ensures
        r.0@ == set_up(parsed_moves(items@)),
        r.0.wf(),
        r.1@.len() == faults_upto(parsed_moves(items@), items@.len() as int).len(),
        forall|k: int|
            0 <= k < r.1@.len() ==> (#[trigger] r.1@[k]).reports(
                parsed_moves(items@),
                faults_upto(parsed_moves(items@), items@.len() as int)[k],
            ),
{
    let ghost parsed = parsed_moves(items@);
    let mut board = start_position();
    let mut faults: Vec<MoveFault> = Vec::new();
    let mut i: usize = 0;
    assert(parsed.take(0) =~= Seq::empty());
    while i < items.len()
        invariant
            0 <= i <= items@.len(),
            parsed == parsed_moves(items@),
            board.wf(),
            board@ == set_up(parsed.take(i as int)),
            faults@.len() == faults_upto(parsed, i as int).len(),
            forall|k: int|
                0 <= k < faults@.len() ==> (#[trigger] faults@[k]).reports(
                    parsed,
                    faults_upto(parsed, i as int)[k],
                ),
        decreases items@.len() - i,
    {
        let ghost before = faults@;
        proof {
            assert(parsed.take(i + 1).drop_last() =~= parsed.take(i as int));
            assert(parsed.take(i + 1).last() == parsed[i as int]);
            assert(parsed[i as int] == items@[i as int].parsed);
        }
        match items[i].parsed {
            Some(m) => {
                if let PieceType::Null = piece_to_move(&board, m) {
                    faults.push(MoveFault::NoPiece(i, board));
                }
                board = apply_move(&board, m);
            },
            None => {
                faults.push(MoveFault::Unreadable(i));
            },
        }
        proof {
            let now = faults_upto(parsed, i + 1);
            assert forall|k: int| 0 <= k < faults@.len() implies (#[trigger] faults@[k]).reports(
                parsed,
                now[k],
            ) by {
                if k < before.len() {
                    assert(faults@[k] == before[k]);
                    assert(now[k] == faults_upto(parsed, i as int)[k]);
                }
            }
        }
        i = i + 1;
    }
    assert(parsed.take(items@.len() as int) =~= parsed);
    (board, faults)
}

} // verus!
