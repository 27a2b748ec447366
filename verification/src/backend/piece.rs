use vstd::prelude::*;
use super::board_representation::movement::{Score, Position};

verus! {

/// The side a piece belongs to.
#[derive(Debug, Copy, Clone, PartialEq, Eq, Hash, Structural)]
pub enum Color {
    White,
    Black,
}

/// The kind of a chess piece.
#[derive(Debug, Copy, Clone, PartialEq, Eq, Hash, Structural)]
pub enum PieceType {
    King,
    Queen,
    Bishop,
    Knight,
    Rook,
    Pawn,
}

/// A chess piece: a kind and a side.
#[derive(Debug, Copy, Clone, PartialEq, Eq, Hash, Structural)]
pub struct Piece {
    pub piecetype: PieceType,
    pub color: Color,
}

/// A step on the board, as (file delta, rank delta).
pub type Vector = (i8, i8);

/// The characters that stand for a piece (upper case for White) or for an empty square ('-'):
/// those whose lower case is a piece letter, the Kelvin sign (a capital K) among them.
pub open spec fn is_piece_char(c: char) -> bool {
    c == 'p' || c == 'r' || c == 'n' || c == 'b' || c == 'q' || c == 'k'
    || c == 'P' || c == 'R' || c == 'N' || c == 'B' || c == 'Q' || c == 'K' || c == '\u{212A}' || c == '-'
}

/// The lower-case letter of a piece kind.
pub open spec fn type_letter(t: PieceType) -> char {
    match t {
        PieceType::Pawn => 'p',
        PieceType::King => 'k',
        PieceType::Queen => 'q',
        PieceType::Bishop => 'b',
        PieceType::Knight => 'n',
        PieceType::Rook => 'r',
    }
}

/// The upper-case letter of a piece kind.
pub open spec fn type_letter_upper(t: PieceType) -> char {
    match t {
        PieceType::Pawn => 'P',
        PieceType::King => 'K',
        PieceType::Queen => 'Q',
        PieceType::Bishop => 'B',
        PieceType::Knight => 'N',
        PieceType::Rook => 'R',
    }
}

/// The character of a piece: its letter, upper case for White.
pub open spec fn spec_char(p: Piece) -> char {
    if p.color == Color::White { type_letter_upper(p.piecetype) } else { type_letter(p.piecetype) }
}

/// The piece a character stands for; `None` for '-'.
pub open spec fn spec_piece_of(c: char) -> Option<Piece> {
    if c == '-' {
        None
    } else {
        let color = if c == 'P' || c == 'R' || c == 'N' || c == 'B' || c == 'Q' || c == 'K' || c == '\u{212A}' {
            Color::White
        } else {
            Color::Black
        };
        let t = if c == 'p' || c == 'P' {
            PieceType::Pawn
        } else if c == 'r' || c == 'R' {
            PieceType::Rook
        } else if c == 'n' || c == 'N' {
            PieceType::Knight
        } else if c == 'b' || c == 'B' {
            PieceType::Bishop
        } else if c == 'q' || c == 'Q' {
            PieceType::Queen
        } else {
            PieceType::King
        };
        Some(Piece { piecetype: t, color })
    }
}

pub open spec fn spec_opposite(c: Color) -> Color {
    match c {
        Color::White => Color::Black,
        Color::Black => Color::White,
    }
}

/// The steps a piece takes; a pawn's are its two captures and its push, toward the opponent.
pub open spec fn spec_directions(p: Piece) -> Seq<Vector> {
    match p.piecetype {
        PieceType::King => seq![(-1i8, -1i8), (0i8, -1i8), (1i8, -1i8), (1i8, 0i8), (1i8, 1i8), (0i8, 1i8), (-1i8, 1i8), (-1i8, 0i8)],
        PieceType::Queen => seq![(-1i8, -1i8), (0i8, -1i8), (1i8, -1i8), (1i8, 0i8), (1i8, 1i8), (0i8, 1i8), (-1i8, 1i8), (-1i8, 0i8)],
        PieceType::Bishop => seq![(-1i8, -1i8), (1i8, -1i8), (1i8, 1i8), (-1i8, 1i8)],
        PieceType::Knight => seq![(1i8, 2i8), (2i8, 1i8), (2i8, -1i8), (1i8, -2i8), (-1i8, -2i8), (-2i8, -1i8), (-2i8, 1i8), (-1i8, 2i8)],
        PieceType::Rook => seq![(0i8, -1i8), (1i8, 0i8), (0i8, 1i8), (-1i8, 0i8)],
        PieceType::Pawn => if p.color == Color::White {
            seq![(-1i8, -1i8), (0i8, -1i8), (1i8, -1i8)]
        } else {
            seq![(-1i8, 1i8), (0i8, 1i8), (1i8, 1i8)]
        },
    }
}

pub open spec fn spec_can_run(p: Piece) -> bool {
    p.piecetype == PieceType::Rook || p.piecetype == PieceType::Bishop || p.piecetype == PieceType::Queen
}

/// The entry of a kind's square table at rank row `y` (0 = the eighth rank) and file `x`.
pub open spec fn table_value(t: PieceType, y: int, x: int) -> int {
    match t {
        PieceType::King => MG_KING_TABLE@[y]@[x] as int,
        PieceType::Queen => MG_QUEEN_TABLE@[y]@[x] as int,
        PieceType::Bishop => MG_BISHOP_TABLE@[y]@[x] as int,
        PieceType::Knight => MG_KNIGHT_TABLE@[y]@[x] as int,
        PieceType::Rook => MG_ROOK_TABLE@[y]@[x] as int,
        PieceType::Pawn => MG_PAWN_TABLE@[y]@[x] as int,
    }
}

/// The positional value of a piece on a square: White reads its table directly,
/// Black reads it mirrored and negated.
pub open spec fn spec_value_at(p: Piece, pos: Position) -> int {
    if p.color == Color::White {
        table_value(p.piecetype, pos.y as int, pos.x as int)
    } else {
        -table_value(p.piecetype, 7 - pos.y, pos.x as int)
    }
}

/// The material value of a piece, negated for Black.
pub open spec fn spec_inherent_value(p: Piece) -> int {
    let s: int = match p.piecetype {
        PieceType::Pawn => 82,
        PieceType::Knight => 337,
        PieceType::Bishop => 365,
        PieceType::Rook => 477,
        PieceType::Queen => 1025,
        PieceType::King => 0,
    };
    if p.color == Color::White { s } else { -s }
}

pub open spec fn spec_combined_value_at(p: Piece, pos: Position) -> int {
    spec_inherent_value(p) + spec_value_at(p, pos)
}

pub open spec fn spec_type_index(p: Piece) -> int {
    let base: int = match p.piecetype {
        PieceType::Pawn => 0,
        PieceType::Rook => 2,
        PieceType::Knight => 4,
        PieceType::Bishop => 6,
        PieceType::Queen => 8,
        PieceType::King => 10,
    };
    if p.color == Color::White { base } else { base + 1 }
}

pub open spec fn on_board(pos: Position) -> bool {
    pos.x < 8 && pos.y < 8
}

/// Every square-table entry lies strictly between -200 and 200.
pub proof fn lemma_table_bounds(t: PieceType, y: int, x: int)
    requires 0 <= y < 8, 0 <= x < 8,
    ensures -200 < table_value(t, y, x) < 200,
{
    assert(forall|yy: int, xx: int| 0 <= yy < 8 && 0 <= xx < 8 ==>
        -200 < #[trigger] MG_KING_TABLE@[yy]@[xx] < 200 && -200 < MG_QUEEN_TABLE@[yy]@[xx] < 200
        && -200 < MG_BISHOP_TABLE@[yy]@[xx] < 200 && -200 < MG_KNIGHT_TABLE@[yy]@[xx] < 200
        && -200 < MG_ROOK_TABLE@[yy]@[xx] < 200 && -200 < MG_PAWN_TABLE@[yy]@[xx] < 200) by {
        assert forall|yy: int, xx: int| 0 <= yy < 8 && 0 <= xx < 8 implies
            -200 < #[trigger] MG_KING_TABLE@[yy]@[xx] < 200 && -200 < MG_QUEEN_TABLE@[yy]@[xx] < 200
            && -200 < MG_BISHOP_TABLE@[yy]@[xx] < 200 && -200 < MG_KNIGHT_TABLE@[yy]@[xx] < 200
            && -200 < MG_ROOK_TABLE@[yy]@[xx] < 200 && -200 < MG_PAWN_TABLE@[yy]@[xx] < 200 by {
            assert(0 <= yy < 8);
        }
    }
}

/// Positional values lie strictly between -200 and 200, and with the material value
/// between -1300 and 1300.
pub proof fn lemma_value_bounds(p: Piece, pos: Position)
    requires on_board(pos),
    ensures
        -200 < spec_value_at(p, pos) < 200,
        -1300 < spec_combined_value_at(p, pos) < 1300,
{
    lemma_table_bounds(p.piecetype, pos.y as int, pos.x as int);
    lemma_table_bounds(p.piecetype, 7 - pos.y, pos.x as int);
}

/// A piece has at most eight directions; each is a step of at most two squares, and of at
/// most one for every piece but the knight.
pub proof fn lemma_direction_bounds(p: Piece, i: int)
    requires 0 <= i < spec_directions(p).len(),
    ensures
        spec_directions(p).len() <= 8,
        -2 <= spec_directions(p)[i].0 <= 2, -2 <= spec_directions(p)[i].1 <= 2,
        p.piecetype != PieceType::Knight ==> -1 <= spec_directions(p)[i].0 <= 1 && -1 <= spec_directions(p)[i].1 <= 1
            && (spec_directions(p)[i].0 != 0 || spec_directions(p)[i].1 != 0),
        p.piecetype == PieceType::Pawn ==> spec_directions(p).len() == 3
            && spec_directions(p)[i].1 == (if p.color == Color::White { -1i8 } else { 1i8 }),
{
    assert(i == 0 || i == 1 || i == 2 || i == 3 || i == 4 || i == 5 || i == 6 || i == 7);
}

impl Piece {
    /// Reads a piece from its character; '-' stands for an empty square.
    pub fn new(c: char) -> (r: Option<Piece>)
        requires is_piece_char(c),
        ensures r == spec_piece_of(c),
    {
        match c {
            'p' => Some(Piece { piecetype: PieceType::Pawn, color: Color::Black }),
            'r' => Some(Piece { piecetype: PieceType::Rook, color: Color::Black }),
            'n' => Some(Piece { piecetype: PieceType::Knight, color: Color::Black }),
            'b' => Some(Piece { piecetype: PieceType::Bishop, color: Color::Black }),
            'q' => Some(Piece { piecetype: PieceType::Queen, color: Color::Black }),
            'k' => Some(Piece { piecetype: PieceType::King, color: Color::Black }),
            'P' => Some(Piece { piecetype: PieceType::Pawn, color: Color::White }),
            'R' => Some(Piece { piecetype: PieceType::Rook, color: Color::White }),
            'N' => Some(Piece { piecetype: PieceType::Knight, color: Color::White }),
            'B' => Some(Piece { piecetype: PieceType::Bishop, color: Color::White }),
            'Q' => Some(Piece { piecetype: PieceType::Queen, color: Color::White }),
            'K' | '\u{212A}' => Some(Piece { piecetype: PieceType::King, color: Color::White }),
            _ => None,
        }
    }

    pub fn directions(&self) -> (r: &'static [Vector])
        ensures r@ == spec_directions(*self),
    {
        match self.piecetype {
            PieceType::King => &[(-1, -1), (0, -1), (1, -1), (1, 0), (1, 1), (0, 1), (-1, 1), (-1, 0)],
            PieceType::Queen => &[(-1, -1), (0, -1), (1, -1), (1, 0), (1, 1), (0, 1), (-1, 1), (-1, 0)],
            PieceType::Bishop => &[(-1, -1), (1, -1), (1, 1), (-1, 1)],
            PieceType::Knight => &[(1, 2), (2, 1), (2, -1), (1, -2), (-1, -2), (-2, -1), (-2, 1), (-1, 2)],
            PieceType::Rook => &[(0, -1), (1, 0), (0, 1), (-1, 0)],
            PieceType::Pawn => if self.color == Color::White {
                &[(-1, -1), (0, -1), (1, -1)]
            } else {
                &[(-1, 1), (0, 1), (1, 1)]
            },
        }
    }

    pub fn can_run(&self) -> (r: bool)
        ensures r == spec_can_run(*self),
    {
        match self.piecetype {
            PieceType::Rook => true,
            PieceType::Bishop => true,
            PieceType::Queen => true,
            _ => false,
        }
    }

    pub fn char(&self) -> (r: char)
        ensures r == spec_char(*self),
    {
        let white = self.color == Color::White;
        match self.piecetype {
            PieceType::Pawn => if white { 'P' } else { 'p' },
            PieceType::King => if white { 'K' } else { 'k' },
            PieceType::Queen => if white { 'Q' } else { 'q' },
            PieceType::Bishop => if white { 'B' } else { 'b' },
            PieceType::Knight => if white { 'N' } else { 'n' },
            PieceType::Rook => if white { 'R' } else { 'r' },
        }
    }

    /// The positional value of this piece on `p`; Black's value is negated.
    pub fn value_at(&self, p: &Position) -> (r: Score)
        requires on_board(*p),
        ensures r == spec_value_at(*self, *p),
    {
        proof {
            lemma_table_bounds(self.piecetype, p.y as int, p.x as int);
            lemma_table_bounds(self.piecetype, 7 - p.y, p.x as int);
        }
        let white = self.color == Color::White;
        match self.piecetype {
            PieceType::King => if white { MG_KING_TABLE[p.y][p.x] } else { -MG_KING_TABLE[7 - p.y][p.x] },
            PieceType::Queen => if white { MG_QUEEN_TABLE[p.y][p.x] } else { -MG_QUEEN_TABLE[7 - p.y][p.x] },
            PieceType::Bishop => if white { MG_BISHOP_TABLE[p.y][p.x] } else { -MG_BISHOP_TABLE[7 - p.y][p.x] },
            PieceType::Knight => if white { MG_KNIGHT_TABLE[p.y][p.x] } else { -MG_KNIGHT_TABLE[7 - p.y][p.x] },
            PieceType::Rook => if white { MG_ROOK_TABLE[p.y][p.x] } else { -MG_ROOK_TABLE[7 - p.y][p.x] },
            PieceType::Pawn => if white { MG_PAWN_TABLE[p.y][p.x] } else { -MG_PAWN_TABLE[7 - p.y][p.x] },
        }
    }

    /// The material value of this piece (PeSTO's middle-game weights); Black's is negated.
    pub fn inherent_value(&self) -> (r: Score)
        ensures r == spec_inherent_value(*self),
    {
        let s: Score = match self.piecetype {
            PieceType::Pawn => 82,
            PieceType::Knight => 337,
            PieceType::Bishop => 365,
            PieceType::Rook => 477,
            PieceType::Queen => 1025,
            PieceType::King => 0,
        };
        if self.color == Color::White { s } else { -s }
    }

    pub fn combined_value_at(&self, pos: &Position) -> (r: Score)
        requires on_board(*pos),
        ensures r == spec_combined_value_at(*self, *pos),
    {
        self.inherent_value() + self.value_at(pos)
    }

    /// The index of this piece among the twelve kinds of piece, used to pick hash keys.
    pub fn type_index(&self) -> (r: usize)
        ensures r == spec_type_index(*self), r < 12,
    {
        match (self.piecetype, self.color) {
            (PieceType::Pawn, Color::White) => 0,
            (PieceType::Pawn, Color::Black) => 1,
            (PieceType::Rook, Color::White) => 2,
            (PieceType::Rook, Color::Black) => 3,
            (PieceType::Knight, Color::White) => 4,
            (PieceType::Knight, Color::Black) => 5,
            (PieceType::Bishop, Color::White) => 6,
            (PieceType::Bishop, Color::Black) => 7,
            (PieceType::Queen, Color::White) => 8,
            (PieceType::Queen, Color::Black) => 9,
            (PieceType::King, Color::White) => 10,
            (PieceType::King, Color::Black) => 11,
        }
    }
}

impl Color {
    pub fn opposite(&self) -> (r: Color)
        ensures r == spec_opposite(*self),
    {
        match self {
            Color::White => Color::Black,
            Color::Black => Color::White,
        }
    }

    /// The name of the colour, as the game prints it.
    pub fn to_string(&self) -> (r: &'static str)
        ensures r@ == (if *self == Color::White { "White"@ } else { "Black"@ }),
    {
        match self {
            Color::White => "White",
            Color::Black => "Black",
        }
    }
}

// Square tables, based on PeSTO's middle-game evaluation. Row 0 is the eighth rank.
pub const MG_PAWN_TABLE: [[Score; 8]; 8] = [
    [0, 0, 0, 0, 0, 0, 0, 0],
    [98, 134, 61, 95, 68, 126, 34, -11],
    [-6, 7, 26, 31, 65, 56, 25, -20],
    [-14, 13, 6, 21, 23, 12, 17, -23],
    [-27, -2, -5, 12, 17, 6, 10, -25],
    [-26, -4, -4, -10, 3, 3, 33, -12],
    [-35, -1, -20, -23, -15, 24, 38, -22],
    [0, 0, 0, 0, 0, 0, 0, 0],
];

pub const MG_KNIGHT_TABLE: [[Score; 8]; 8] = [
    [-167, -89, -34, -49, 61, -97, -15, -107],
    [-73, -41, 72, 36, 23, 62, 7, -17],
    [-47, 60, 37, 65, 84, 129, 73, 44],
    [-9, 17, 19, 53, 37, 69, 18, 22],
    [-13, 4, 16, 13, 28, 19, 21, -8],
    [-23, -9, 12, 10, 19, 17, 25, -16],
    [-29, -53, -12, -3, -1, 18, -14, -19],
    [-105, -21, -58, -33, -17, -28, -19, -23],
];

pub const MG_BISHOP_TABLE: [[Score; 8]; 8] = [
    [-29, 4, -82, -37, -25, -42, 7, -8],
    [-26, 16, -18, -13, 30, 59, 18, -47],
    [-16, 37, 43, 40, 35, 50, 37, -2],
    [-4, 5, 19, 50, 37, 37, 7, -2],
    [-6, 13, 13, 26, 34, 12, 10, 4],
    [0, 15, 15, 15, 14, 27, 18, 10],
    [4, 15, 16, 0, 7, 21, 33, 1],
    [-33, -3, -14, -21, -13, -12, -39, -21],
];

pub const MG_ROOK_TABLE: [[Score; 8]; 8] = [
    [32, 42, 32, 51, 63, 9, 31, 43],
    [27, 32, 58, 62, 80, 67, 26, 44],
    [-5, 19, 26, 36, 17, 45, 61, 16],
    [-24, -11, 7, 26, 24, 35, -8, -20],
    [-36, -26, -12, -1, 9, -7, 6, -23],
    [-45, -25, -16, -17, 3, 0, -5, -33],
    [-44, -16, -20, -9, -1, 11, -6, -71],
    [-19, -13, 1, 17, 16, 7, -37, -26],
];

pub const MG_QUEEN_TABLE: [[Score; 8]; 8] = [
    [-28, 0, 29, 12, 59, 44, 43, 45],
    [-24, -39, -5, 1, -16, 57, 28, 54],
    [-13, -17, 7, 8, 29, 56, 47, 57],
    [-27, -27, -16, -16, -1, 17, -2, 1],
    [-9, -26, -9, -10, -2, -4, 3, -3],
    [-14, 2, -11, -2, -5, 2, 14, 5],
    [-35, -8, 11, 2, 8, 15, -3, 1],
    [-1, -18, -9, 10, -15, -25, -31, -50],
];

pub const MG_KING_TABLE: [[Score; 8]; 8] = [
    [-65, 23, 16, -15, -56, -34, 2, 13],
    [29, -1, -20, -7, -8, -4, -38, -29],
    [-9, 24, 2, -16, -20, 6, 22, -22],
    [-17, -20, -12, -27, -30, -25, -14, -36],
    [-49, -1, -27, -39, -46, -44, -33, -51],
    [-14, -14, -22, -46, -44, -30, -15, -27],
    [1, 7, -8, -64, -43, -16, 9, 8],
    [-15, 36, 12, -54, 8, -28, 24, 14],
];

} // verus!
