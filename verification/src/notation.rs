//! Moves in the long algebraic notation of the Universal Chess Interface:
//! the square left and the square entered, each as a file letter and a rank
//! digit, and for a promotion the letter of the new piece (`e2e4`, `e7e8q`).
//! Castling is written as the king's move.

use crate::types::{Move, PieceType, Square};
use vstd::prelude::*;
use vstd::string::{StrSliceExecFns, StringExecFns};

verus! {

/// The letter of file `f`; `h` for every `f` above 6.
pub open spec fn file_letter(f: int) -> char {
    if f == 0 {
        'a'
    } else if f == 1 {
        'b'
    } else if f == 2 {
        'c'
    } else if f == 3 {
        'd'
    } else if f == 4 {
        'e'
    } else if f == 5 {
        'f'
    } else if f == 6 {
        'g'
    } else {
        'h'
    }
}

/// The digit of rank `r`, counted from 0; `8` for every `r` above 6.
pub open spec fn rank_digit(r: int) -> char {
    if r == 0 {
        '1'
    } else if r == 1 {
        '2'
    } else if r == 2 {
        '3'
    } else if r == 3 {
        '4'
    } else if r == 4 {
        '5'
    } else if r == 5 {
        '6'
    } else if r == 6 {
        '7'
    } else {
        '8'
    }
}

/// The file that letter `c` names, if it names one.
pub open spec fn file_of_letter(c: char) -> Option<int> {
    if c == 'a' {
        Some(0int)
    } else if c == 'b' {
        Some(1int)
    } else if c == 'c' {
        Some(2int)
    } else if c == 'd' {
        Some(3int)
    } else if c == 'e' {
        Some(4int)
    } else if c == 'f' {
        Some(5int)
    } else if c == 'g' {
        Some(6int)
    } else if c == 'h' {
        Some(7int)
    } else {
        None
    }
}

/// The rank, counted from 0, that digit `c` names, if it names one.
pub open spec fn rank_of_digit(c: char) -> Option<int> {
    if c == '1' {
        Some(0int)
    } else if c == '2' {
        Some(1int)
    } else if c == '3' {
        Some(2int)
    } else if c == '4' {
        Some(3int)
    } else if c == '5' {
        Some(4int)
    } else if c == '6' {
        Some(5int)
    } else if c == '7' {
        Some(6int)
    } else if c == '8' {
        Some(7int)
    } else {
        None
    }
}

/// The letter that stands for a promotion to kind `t`; nothing for a kind
/// that a pawn cannot be promoted to.
pub open spec fn promotion_suffix(t: PieceType) -> Seq<char> {
    match t {
        PieceType::Queen => seq!['q'],
        PieceType::Rook => seq!['r'],
        PieceType::Bishop => seq!['b'],
        PieceType::Knight => seq!['n'],
        _ => Seq::empty(),
    }
}

/// The kind of piece that promotion letter `c` names, if it names one.
pub open spec fn kind_of_letter(c: char) -> Option<PieceType> {
    if c == 'q' {
        Some(PieceType::Queen)
    } else if c == 'r' {
        Some(PieceType::Rook)
    } else if c == 'b' {
        Some(PieceType::Bishop)
    } else if c == 'n' {
        Some(PieceType::Knight)
    } else {
        None
    }
}

/// The square whose name is the letter `file` and the digit `rank`, if there
/// is one.
pub open spec fn square_named(file: char, rank: char) -> Option<Square> {
    match (file_of_letter(file), rank_of_digit(rank)) {
        (Some(f), Some(r)) => Some(Square::at(r * 8 + f)),
        _ => None,
    }
}

/// The name of a square: its file letter and its rank digit.
pub open spec fn square_name(sq: Square) -> Seq<char> {
    seq![file_letter(sq.file()), rank_digit(sq.rank())]
}

impl Move {
    /// The move in long algebraic notation.
    pub open spec fn uci(self) -> Seq<char> {
        square_name(self.from_square) + square_name(self.to_square) + promotion_suffix(
            self.promote_type,
        )
    }

    /// The move that the text `s` denotes, if it denotes one: two square
    /// names, followed by nothing or by one promotion letter.
    pub open spec fn parse(s: Seq<char>) -> Option<Move> {
        if s.len() != 4 && s.len() != 5 {
            None
        } else {
            match (square_named(s[0], s[1]), square_named(s[2], s[3])) {
                (Some(from), Some(to)) => {
                    if s.len() == 4 {
                        Some(Move { from_square: from, to_square: to, promote_type: PieceType::Null })
                    } else {
                        match kind_of_letter(s[4]) {
                            Some(kind) => Some(
                                Move { from_square: from, to_square: to, promote_type: kind },
                            ),
                            None => None,
                        }
                    }
                },
                _ => None,
            }
        }
    }

    /// Writes the move in long algebraic notation.
    pub fn to_uci(&self) -> (r: String)
        ensures
            r@ == self.uci(),
    {
        let from: u32 = self.from_square.index();
        let to: u32 = self.to_square.index();
        let mut text = String::new();
        text.append(file_text(from % 8));
        text.append(rank_text(from / 8));
        text.append(file_text(to % 8));
        text.append(rank_text(to / 8));
        text.append(promotion_text(self.promote_type));
        assert(text@ =~= self.uci());
        text
    }

    /// Reads a move in long algebraic notation. Every other text gives `None`.
    pub fn from_uci(s: &str) -> (r: Option<Move>)
        ensures
            r == Move::parse(s@),
    {
        let n = s.unicode_len();
        if n != 4 && n != 5 {
            return None;
        }
        let from = read_square(s.get_char(0), s.get_char(1));
        let to = read_square(s.get_char(2), s.get_char(3));
        match (from, to) {
            (Some(from_square), Some(to_square)) => {
                if n == 4 {
                    Some(Move { from_square, to_square, promote_type: PieceType::Null })
                } else {
                    match read_kind(s.get_char(4)) {
                        Some(promote_type) => Some(Move { from_square, to_square, promote_type }),
                        None => None,
                    }
                }
            },
            _ => None,
        }
    }
}

/// Reading what was written gives the move back, for every move that
/// promotes to a queen, rook, bishop or knight or not at all.
pub proof fn lemma_uci_round_trip(m: Move)
    requires
        m.promote_type != PieceType::King,
        m.promote_type != PieceType::Pawn,
    ensures
        Move::parse(m.uci()) == Some(m),
{
    Square::lemma_idx_at(m.from_square);
    Square::lemma_idx_at(m.to_square);
    let s = m.uci();
    assert(s.len() == 4 || s.len() == 5);
    assert(s[0] == file_letter(m.from_square.file()));
    assert(s[1] == rank_digit(m.from_square.rank()));
    assert(s[2] == file_letter(m.to_square.file()));
    assert(s[3] == rank_digit(m.to_square.rank()));
    assert(file_of_letter(s[0]) == Some(m.from_square.file()));
    assert(rank_of_digit(s[1]) == Some(m.from_square.rank()));
    assert(file_of_letter(s[2]) == Some(m.to_square.file()));
    assert(rank_of_digit(s[3]) == Some(m.to_square.rank()));
}

fn file_text(i: u32) -> (r: &'static str)
    requires
        i < 8,
    ensures
        r@ == seq![file_letter(i as int)],
{
    let r = file_name(i);
    assert(r@ =~= seq![file_letter(i as int)]);
    r
}

fn file_name(i: u32) -> (r: &'static str)
    requires
        i < 8,
    ensures
        r@.len() == 1,
        r@[0] == file_letter(i as int),
{
    if i == 0 {
        proof {
            reveal_strlit("a");
        }
        "a"
    } else if i == 1 {
        proof {
            reveal_strlit("b");
        }
        "b"
    } else if i == 2 {
        proof {
            reveal_strlit("c");
        }
        "c"
    } else if i == 3 {
        proof {
            reveal_strlit("d");
        }
        "d"
    } else if i == 4 {
        proof {
            reveal_strlit("e");
        }
        "e"
    } else if i == 5 {
        proof {
            reveal_strlit("f");
        }
        "f"
    } else if i == 6 {
        proof {
            reveal_strlit("g");
        }
        "g"
    } else {
        proof {
            reveal_strlit("h");
        }
        "h"
    }
}

fn rank_text(i: u32) -> (r: &'static str)
    requires
        i < 8,
    ensures
        r@ == seq![rank_digit(i as int)],
{
    let r = rank_name(i);
    assert(r@ =~= seq![rank_digit(i as int)]);
    r
}

fn rank_name(i: u32) -> (r: &'static str)
    requires
        i < 8,
    ensures
        r@.len() == 1,
        r@[0] == rank_digit(i as int),
{
    if i == 0 {
        proof {
            reveal_strlit("1");
        }
        "1"
    } else if i == 1 {
        proof {
            reveal_strlit("2");
        }
        "2"
    } else if i == 2 {
        proof {
            reveal_strlit("3");
        }
        "3"
    } else if i == 3 {
        proof {
            reveal_strlit("4");
        }
        "4"
    } else if i == 4 {
        proof {
            reveal_strlit("5");
        }
        "5"
    } else if i == 5 {
        proof {
            reveal_strlit("6");
        }
        "6"
    } else if i == 6 {
        proof {
            reveal_strlit("7");
        }
        "7"
    } else {
        proof {
            reveal_strlit("8");
        }
        "8"
    }
}

fn promotion_text(t: PieceType) -> (r: &'static str)
    ensures
        r@ == promotion_suffix(t),
{
    let r = match t {
        PieceType::Queen => {
            proof {
                reveal_strlit("q");
            }
            "q"
        },
        PieceType::Rook => {
            proof {
                reveal_strlit("r");
            }
            "r"
        },
        PieceType::Bishop => {
            proof {
                reveal_strlit("b");
            }
            "b"
        },
        PieceType::Knight => {
            proof {
                reveal_strlit("n");
            }
            "n"
        },
        _ => {
            proof {
                reveal_strlit("");
            }
            ""
        },
    };
    assert(r@ =~= promotion_suffix(t));
    r
}

fn read_file(c: char) -> (r: Option<u32>)
    ensures
        r.is_some() == file_of_letter(c).is_some(),
        r matches Some(f) ==> file_of_letter(c) == Some(f as int) && f < 8,
{
    if c == 'a' {
        Some(0u32)
    } else if c == 'b' {
        Some(1u32)
    } else if c == 'c' {
        Some(2u32)
    } else if c == 'd' {
        Some(3u32)
    } else if c == 'e' {
        Some(4u32)
    } else if c == 'f' {
        Some(5u32)
    } else if c == 'g' {
        Some(6u32)
    } else if c == 'h' {
        Some(7u32)
    } else {
        None
    }
}

fn read_rank(c: char) -> (r: Option<u32>)
    ensures
        r.is_some() == rank_of_digit(c).is_some(),
        r matches Some(k) ==> rank_of_digit(c) == Some(k as int) && k < 8,
{
    if c == '1' {
        Some(0u32)
    } else if c == '2' {
        Some(1u32)
    } else if c == '3' {
        Some(2u32)
    } else if c == '4' {
        Some(3u32)
    } else if c == '5' {
        Some(4u32)
    } else if c == '6' {
        Some(5u32)
    } else if c == '7' {
        Some(6u32)
    } else if c == '8' {
        Some(7u32)
    } else {
        None
    }
}

fn read_kind(c: char) -> (r: Option<PieceType>)
    ensures
        r == kind_of_letter(c),
{
    if c == 'q' {
        Some(PieceType::Queen)
    } else if c == 'r' {
        Some(PieceType::Rook)
    } else if c == 'b' {
        Some(PieceType::Bishop)
    } else if c == 'n' {
        Some(PieceType::Knight)
    } else {
        None
    }
}

fn read_square(file: char, rank: char) -> (r: Option<Square>)
    ensures
        r == square_named(file, rank),
{
    match (read_file(file), read_rank(rank)) {
        (Some(f), Some(k)) => Square::from_index(k * 8 + f),
        _ => None,
    }
}

} // verus!
