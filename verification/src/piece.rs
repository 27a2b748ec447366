use vstd::prelude::*;

verus! {

#[derive(Debug, Copy, Clone, PartialEq, Eq, Structural)]
pub enum Color {
    White,
    Black,
}

#[derive(Debug, Copy, Clone, PartialEq, Eq, Structural)]
pub enum PieceType {
    King,
    Queen,
    Bishop,
    Knight,
    Rook,
    Pawn,
}

#[derive(Debug, Copy, Clone, PartialEq, Eq, Structural)]
pub struct Piece {
    pub piecetype: PieceType,
    pub color: Color,
}

/// The characters `Piece::new` reads: those whose lower case is a piece letter (the Kelvin
/// sign, a capital K, among them), or '-'.
pub open spec fn is_piece_letter(c: char) -> bool {
    c == 'p' || c == 'r' || c == 'n' || c == 'b' || c == 'q' || c == 'k'
    || c == 'P' || c == 'R' || c == 'N' || c == 'B' || c == 'Q' || c == 'K' || c == '\u{212A}' || c == '-'
}

pub open spec fn letter_type(c: char) -> PieceType {
    if c == 'p' || c == 'P' {
        PieceType::Pawn
    } else if c == 'r' || c == 'R' {
        PieceType::Rook
    } else if c == 'n' || c == 'N' {
        PieceType::Knight
    } else if c == 'b' || c == 'B' {
        PieceType::Bishop
    } else if c == 'q' || c == 'Q' {
        PieceType::Queen
    } else {
        PieceType::King
    }
}

/// The piece a character stands for: an upper-case letter is White, a lower-case one
/// Black; '-' is an empty square.
pub open spec fn spec_piece_of(c: char) -> Option<Piece> {
    if c == '-' {
        None
    } else {
        let color = if c == 'P' || c == 'R' || c == 'N' || c == 'B' || c == 'Q' || c == 'K' || c == '\u{212A}' {
            Color::White
        } else {
            Color::Black
        };
        Some(Piece { piecetype: letter_type(c), color })
    }
}

/// The letter of a piece: upper case for White, lower case for Black.
pub open spec fn spec_char(p: Piece) -> char {
    let lower = match p.piecetype {
        PieceType::Pawn => 'p',
        PieceType::King => 'k',
        PieceType::Queen => 'q',
        PieceType::Bishop => 'b',
        PieceType::Knight => 'n',
        PieceType::Rook => 'r',
    };
    let upper = match p.piecetype {
        PieceType::Pawn => 'P',
        PieceType::King => 'K',
        PieceType::Queen => 'Q',
        PieceType::Bishop => 'B',
        PieceType::Knight => 'N',
        PieceType::Rook => 'R',
    };
    if p.color == Color::White { upper } else { lower }
}

impl Piece {
    /// Reads a piece from its letter (upper case for White); '-' gives `None`.
    pub fn new(c: char) -> (r: Option<Piece>)
        requires is_piece_letter(c),
        ensures r == spec_piece_of(c),
    {
        let color = if c == 'P' || c == 'R' || c == 'N' || c == 'B' || c == 'Q' || c == 'K' || c == '\u{212A}' {
            Color::White
        } else {
            Color::Black
        };
        if c == 'p' || c == 'P' {
            Some(Piece { piecetype: PieceType::Pawn, color })
        } else if c == 'r' || c == 'R' {
            Some(Piece { piecetype: PieceType::Rook, color })
        } else if c == 'n' || c == 'N' {
            Some(Piece { piecetype: PieceType::Knight, color })
        } else if c == 'b' || c == 'B' {
            Some(Piece { piecetype: PieceType::Bishop, color })
        } else if c == 'q' || c == 'Q' {
            Some(Piece { piecetype: PieceType::Queen, color })
        } else if c == 'k' || c == 'K' || c == '\u{212A}' {
            Some(Piece { piecetype: PieceType::King, color })
        } else {
            None
        }
    }

    pub fn char(&self) -> (r: char)
        ensures r == spec_char(*self),
    {
        let white = self.color == Color::White;
        match self.piecetype {
            PieceType::Pawn => if white { 'P' } else { 'p' },
            PieceType::King => if white { 'K' } else { 'k' },
            PieceType::Queen => if white { 'Q' } else { 'q' },
            PieceType::Bishop => if white { 'B' } else { 'b' },
            PieceType::Knight => if white { 'N' } else { 'n' },
            PieceType::Rook => if white { 'R' } else { 'r' },
        }
    }
}

impl Color {
    pub fn opposite(&self) -> (r: Color)
        ensures r == (if *self == Color::White { Color::Black } else { Color::White }),
    {
        match self {
            Color::White => Color::Black,
            Color::Black => Color::White,
        }
    }

    /// The colour's name, "White" or "Black".
    pub fn to_string(&self) -> (r: &'static str)
        ensures r@ == (if *self == Color::White { "White"@ } else { "Black"@ }),
    {
        match self {
            Color::White => "White",
            Color::Black => "Black",
        }
    }
}

} // verus!
