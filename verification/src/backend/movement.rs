use vstd::prelude::*;
use vstd::std_specs::cmp::PartialEqSpecImpl;
use super::piece::{Piece, is_piece_char, spec_piece_of};
use super::board_representation::movement::{push_file, push_rank, file_printable};
use crate::text::push_char;

verus! {

pub type Score = i32;

/// A square: `x` is the file (0 = a), `y` the row from the top (0 = the eighth rank).
#[derive(Copy, Clone, PartialEq, Eq, Debug, Structural)]
pub struct Position {
    pub x: usize,
    pub y: usize,
}

/// A move with the value a heuristic gave it and, once searched, its actual value.
/// Two moves are equal when their squares and promotions are.
#[derive(Copy, Clone, Debug)]
pub struct Move {
    pub from: Position,
    pub to: Position,
    heurestic_value: Score,
    actual_value: Option<Score>,
    pub promote: Option<Piece>,
}

/// The model of a move: all of its fields.
pub ghost struct MoveModel {
    pub from: Position,
    pub to: Position,
    pub heurestic_value: Score,
    pub actual_value: Option<Score>,
    pub promote: Option<Piece>,
}

impl View for Move {
    type V = MoveModel;

    closed spec fn view(&self) -> MoveModel {
        MoveModel {
            from: self.from,
            to: self.to,
            heurestic_value: self.heurestic_value,
            actual_value: self.actual_value,
            promote: self.promote,
        }
    }
}

impl PartialEq for Move {
    fn eq(&self, other: &Self) -> (r: bool) {
        self.from == other.from && self.to == other.to && self.promote == other.promote
    }
}

impl PartialEqSpecImpl for Move {
    open spec fn obeys_eq_spec() -> bool {
        true
    }

    open spec fn eq_spec(&self, other: &Move) -> bool {
        same_squares(*self, *other)
    }
}

/// Equality of moves: same squares and same promotion.
pub open spec fn same_squares(a: Move, b: Move) -> bool {
    a@.from == b@.from && a@.to == b@.to && a@.promote == b@.promote
}

/// Whether `m` is what `Move::from_str` reads from `s` (four characters at least): the
/// squares (a file letter counts from 'a', a rank digit from the top row), the promotion
/// from a fifth character, heuristic value 0 and no actual value.
pub open spec fn parsed_from(m: Move, s: Seq<char>) -> bool {
    &&& m@.from == (Position { x: (s[0] as int - 97) as usize, y: (56 - s[1] as int) as usize })
    &&& m@.to == (Position { x: (s[2] as int - 97) as usize, y: (56 - s[3] as int) as usize })
    &&& m@.promote == (if s.len() > 4 { spec_piece_of(s[4]) } else { None })
    &&& m@.heurestic_value == 0
    &&& m@.actual_value is None
}

/// The strings `Move::from_str` reads as a move: a file letter 'a'-'h' and a rank digit
/// '1'-'8' twice, then, if anything follows, a piece letter or '-'. "e4", "e2-e4" and "Pe4"
/// are not moves.
pub open spec fn is_move_text(s: Seq<char>) -> bool {
    &&& s.len() >= 4
    &&& 'a' <= s[0] <= 'h' && '1' <= s[1] <= '8'
    &&& 'a' <= s[2] <= 'h' && '1' <= s[3] <= '8'
    &&& (s.len() > 4 ==> is_piece_char(s[4]))
}

/// Whether `c` stands for a piece or an empty square (see `is_piece_char`).
fn is_piece_letter(c: char) -> (r: bool)
    ensures r == is_piece_char(c),
{
    c == 'p' || c == 'r' || c == 'n' || c == 'b' || c == 'q' || c == 'k'
    || c == 'P' || c == 'R' || c == 'N' || c == 'B' || c == 'Q' || c == 'K' || c == '\u{212A}' || c == '-'
}

impl Move {
    /// Makes a move from square (filefrom, rankfrom) to (fileto, rankto); rows count from
    /// the top, so e1 -> e2 is (4, 7, 4, 6). It has no actual value yet.
    pub fn new(filefrom: usize, rankfrom: usize, fileto: usize, rankto: usize, promote: Option<Piece>, heurestic_value: Score) -> (r: Self)
        ensures
            r@ == (MoveModel { from: Position { x: filefrom, y: rankfrom }, to: Position { x: fileto, y: rankto },
                heurestic_value, actual_value: None, promote }),
    {
        Move { from: Position { x: filefrom, y: rankfrom }, to: Position { x: fileto, y: rankto }, actual_value: None, promote, heurestic_value }
    }

    /// Reads a move such as "e2e4", or "b7a8Q" with a promotion; `None` for a string that is
    /// not a move (see `is_move_text`).
    pub fn from_str(s: &str) -> (r: Option<Move>)
        ensures
            r is Some <==> is_move_text(s@),
            r matches Some(m) ==> parsed_from(m, s@),
    {
        let n = s.unicode_len();
        if n < 4 {
            return None;
        }
        let c0 = s.get_char(0);
        let c1 = s.get_char(1);
        let c2 = s.get_char(2);
        let c3 = s.get_char(3);
        if !('a' <= c0 && c0 <= 'h' && '1' <= c1 && c1 <= '8' && 'a' <= c2 && c2 <= 'h' && '1' <= c3 && c3 <= '8') {
            return None;
        }
        let filefrom = (c0 as u32 - 97) as usize;
        let rankfrom = (56 - c1 as u32) as usize;
        let fileto = (c2 as u32 - 97) as usize;
        let rankto = (56 - c3 as u32) as usize;
        if n == 4 {
            Some(Move::new(filefrom, rankfrom, fileto, rankto, None, 0))
        } else {
            let c4 = s.get_char(4);
            if is_piece_letter(c4) {
                Some(Move::new(filefrom, rankfrom, fileto, rankto, Piece::new(c4), 0))
            } else {
                None
            }
        }
    }

    /// The value found for this move by a search, which must have been set.
    pub fn actual_value(&self) -> (r: Score)
        requires self@.actual_value is Some,
        ensures r == self@.actual_value->0,
    {
        match self.actual_value {
            None => {
                assert(false);
                0
            },
            Some(v) => v,
        }
    }

    pub fn heurestic_value(&self) -> (r: Score)
        ensures r == self@.heurestic_value,
    {
        self.heurestic_value
    }

    pub fn set_actual_value(&mut self, s: Score)
        ensures final(self)@ == (MoveModel { actual_value: Some(s), ..old(self)@ }),
    {
        self.actual_value = Some(s);
    }

    /// The move as "(e2, e4)".
    pub fn to_string(&self) -> (r: String)
        requires file_printable(self@.from.x) && self@.from.y <= 8 && file_printable(self@.to.x) && self@.to.y <= 8,
        ensures r@ == seq!['(', (self@.from.x + 97) as char, ('0' as int + (8 - self@.from.y)) as char, ',', ' ',
            (self@.to.x + 97) as char, ('0' as int + (8 - self@.to.y)) as char, ')'],
    {
        let mut ret = String::new();
        push_char(&mut ret, '(');
        push_file(&mut ret, self.from.x);
        push_rank(&mut ret, self.from.y);
        push_char(&mut ret, ',');
        push_char(&mut ret, ' ');
        push_file(&mut ret, self.to.x);
        push_rank(&mut ret, self.to.y);
        push_char(&mut ret, ')');
        assert(ret@ =~= seq!['(', (self.from.x + 97) as char, ('0' as int + (8 - self.from.y)) as char, ',', ' ',
            (self.to.x + 97) as char, ('0' as int + (8 - self.to.y)) as char, ')']);
        ret
    }
}

} // verus!
