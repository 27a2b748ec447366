use vstd::prelude::*;
use super::piece::{Piece, PieceType, Color, spec_opposite, on_board, spec_char, spec_value_at, spec_combined_value_at,
    spec_directions, spec_can_run};
use super::board_representation::movement::{Move, Position, spec_move, same_move, spec_parse_move};
use super::zobrist::GridView;
use super::board::{BoardState, sq, set_sq};

verus! {

// The rules of movement, as mathematical functions of a board.

pub open spec fn in_bounds(x: int, y: int) -> bool {
    0 <= x < 8 && 0 <= y < 8
}

/// Squares that `is_threatened_by` can be asked about without overflowing its steps:
/// their coordinates, read as `i8`, lie in [-126, 125].
pub open spec fn threat_pos_ok(pos: Position) -> bool {
    -126 <= pos.x as i8 <= 125 && -126 <= pos.y as i8 <= 125
}

/// The first piece met walking from (x, y) in steps of (dx, dy), at most `n` steps, and
/// whether it stood on the first step; `None` once the walk leaves the board.
pub open spec fn ray_hit(g: GridView, x: int, y: int, dx: int, dy: int, n: nat, first: bool) -> Option<(Piece, bool)>
    decreases n,
{
    if n == 0 {
        None
    } else if !in_bounds(x + dx, y + dy) {
        None
    } else {
        match sq(g, x + dx, y + dy) {
            Some(p) => Some((p, first)),
            None => ray_hit(g, x + dx, y + dy, dx, dy, (n - 1) as nat, false),
        }
    }
}

/// A knight of `color` one knight's jump away from (x, y) in direction (dx, dy).
pub open spec fn knight_at(g: GridView, x: int, y: int, dx: int, dy: int, color: Color) -> bool {
    in_bounds(x + dx, y + dy) && (sq(g, x + dx, y + dy) matches Some(p) && p.piecetype == PieceType::Knight && p.color == color)
}

pub open spec fn knight_threat(g: GridView, x: int, y: int, color: Color) -> bool {
    ||| knight_at(g, x, y, 1, 2, color)
    ||| knight_at(g, x, y, 2, 1, color)
    ||| knight_at(g, x, y, 2, -1, color)
    ||| knight_at(g, x, y, 1, -2, color)
    ||| knight_at(g, x, y, -1, -2, color)
    ||| knight_at(g, x, y, -2, -1, color)
    ||| knight_at(g, x, y, -2, 1, color)
    ||| knight_at(g, x, y, -1, 2, color)
}

/// Along a rank or file: a rook or queen of `color`, or its king on the first step.
pub open spec fn line_threat(hit: Option<(Piece, bool)>, color: Color) -> bool {
    hit matches Some((p, first)) && p.color == color
        && (p.piecetype == PieceType::Rook || p.piecetype == PieceType::Queen || (p.piecetype == PieceType::King && first))
}

/// Along a diagonal: a bishop or queen of `color`, its king on the first step, or its pawn
/// on the first step when that pawn is of colour `pawn_color` (pawns take toward the other side).
pub open spec fn diag_threat(hit: Option<(Piece, bool)>, color: Color, pawn_color: Color) -> bool {
    hit matches Some((p, first)) && p.color == color
        && (p.piecetype == PieceType::Bishop || p.piecetype == PieceType::Queen || (p.piecetype == PieceType::King && first)
            || (p.piecetype == PieceType::Pawn && p.color == pawn_color && first))
}

/// Whether a piece of `color` attacks or guards square `pos` (read as `i8` coordinates).
pub open spec fn spec_is_threatened_by(g: GridView, pos: Position, color: Color) -> bool {
    let x = pos.x as i8 as int;
    let y = pos.y as i8 as int;
    ||| knight_threat(g, x, y, color)
    ||| line_threat(ray_hit(g, x, y, 0, -1, 16, true), color)
    ||| line_threat(ray_hit(g, x, y, 1, 0, 16, true), color)
    ||| line_threat(ray_hit(g, x, y, 0, 1, 16, true), color)
    ||| line_threat(ray_hit(g, x, y, -1, 0, 16, true), color)
    ||| diag_threat(ray_hit(g, x, y, 1, 1, 16, true), color, Color::White)
    ||| diag_threat(ray_hit(g, x, y, -1, 1, 16, true), color, Color::White)
    ||| diag_threat(ray_hit(g, x, y, 1, -1, 16, true), color, Color::Black)
    ||| diag_threat(ray_hit(g, x, y, -1, -1, 16, true), color, Color::Black)
}

pub open spec fn pos(x: int, y: int) -> Position {
    Position { x: x as usize, y: y as usize }
}

/// The move of piece `p` from (x, y) to (tx, ty) for side `color`: a capture when an enemy
/// piece stands there, a plain move when the square is empty, nothing when a piece of its own does.
pub open spec fn step_target(g: GridView, color: Color, x: int, y: int, p: Piece, tx: int, ty: int) -> Seq<Move> {
    match sq(g, tx, ty) {
        Some(t) => if t.color != color {
            seq![spec_move(x, y, tx, ty, None,
                -spec_combined_value_at(t, pos(tx, ty)) + spec_value_at(p, pos(tx, ty)) - spec_value_at(p, pos(x, y)))]
        } else {
            Seq::empty()
        },
        None => seq![spec_move(x, y, tx, ty, None, spec_value_at(p, pos(tx, ty)) - spec_value_at(p, pos(x, y)))],
    }
}

/// The single-step moves (knight or king) of piece `p` from (x, y) in the given directions.
pub open spec fn step_moves(g: GridView, color: Color, x: int, y: int, p: Piece, dirs: Seq<(i8, i8)>) -> Seq<Move>
    decreases dirs.len(),
{
    if dirs.len() == 0 {
        Seq::empty()
    } else {
        let d = dirs.last();
        let tx = x + d.0;
        let ty = y + d.1;
        step_moves(g, color, x, y, p, dirs.drop_last())
            + if in_bounds(tx, ty) { step_target(g, color, x, y, p, tx, ty) } else { Seq::empty() }
    }
}

/// The moves of a sliding piece `p` from (x, y) along one direction, starting after (cx, cy):
/// empty squares until a piece (taken if it is an enemy) or the edge.
pub open spec fn ray_moves(g: GridView, color: Color, x: int, y: int, p: Piece, cx: int, cy: int, dx: int, dy: int, n: nat) -> Seq<Move>
    decreases n,
{
    let tx = cx + dx;
    let ty = cy + dy;
    if n == 0 || !in_bounds(tx, ty) {
        Seq::empty()
    } else {
        match sq(g, tx, ty) {
            Some(t) => if t.color != color { step_target(g, color, x, y, p, tx, ty) } else { Seq::empty() },
            None => step_target(g, color, x, y, p, tx, ty) + ray_moves(g, color, x, y, p, tx, ty, dx, dy, (n - 1) as nat),
        }
    }
}

pub open spec fn running_moves(g: GridView, color: Color, x: int, y: int, p: Piece, dirs: Seq<(i8, i8)>) -> Seq<Move>
    decreases dirs.len(),
{
    if dirs.len() == 0 {
        Seq::empty()
    } else {
        let d = dirs.last();
        running_moves(g, color, x, y, p, dirs.drop_last()) + ray_moves(g, color, x, y, p, x, y, d.0 as int, d.1 as int, 8)
    }
}

pub open spec fn white_queen() -> Piece { Piece { piecetype: PieceType::Queen, color: Color::White } }
pub open spec fn white_knight() -> Piece { Piece { piecetype: PieceType::Knight, color: Color::White } }
pub open spec fn black_queen() -> Piece { Piece { piecetype: PieceType::Queen, color: Color::Black } }
pub open spec fn black_knight() -> Piece { Piece { piecetype: PieceType::Knight, color: Color::Black } }
pub open spec fn white_bishop() -> Piece { Piece { piecetype: PieceType::Bishop, color: Color::White } }
pub open spec fn white_rook() -> Piece { Piece { piecetype: PieceType::Rook, color: Color::White } }
pub open spec fn black_bishop() -> Piece { Piece { piecetype: PieceType::Bishop, color: Color::Black } }
pub open spec fn black_rook() -> Piece { Piece { piecetype: PieceType::Rook, color: Color::Black } }

/// The promotion of pawn `p` from (x, y) to piece `q` on (tx, ty), removing a piece worth `taken`.
pub open spec fn promotion(x: int, y: int, tx: int, ty: int, p: Piece, q: Piece, taken: int) -> Move {
    spec_move(x, y, tx, ty, Some(q), spec_combined_value_at(q, pos(tx, ty)) - spec_combined_value_at(p, pos(x, y)) - taken)
}

/// The four promotions (queen, knight, bishop, then rook) of pawn `p` from (x, y) to
/// (tx, ty), or the plain move when (tx, ty) is not on a last rank; `taken` is the value a
/// capture removes.
pub open spec fn pawn_arrival(x: int, y: int, tx: int, ty: int, p: Piece, taken: int) -> Seq<Move> {
    if ty == 0 {
        seq![promotion(x, y, tx, ty, p, white_queen(), taken), promotion(x, y, tx, ty, p, white_knight(), taken),
             promotion(x, y, tx, ty, p, white_bishop(), taken), promotion(x, y, tx, ty, p, white_rook(), taken)]
    } else if ty == 7 {
        seq![promotion(x, y, tx, ty, p, black_queen(), taken), promotion(x, y, tx, ty, p, black_knight(), taken),
             promotion(x, y, tx, ty, p, black_bishop(), taken), promotion(x, y, tx, ty, p, black_rook(), taken)]
    } else {
        seq![spec_move(x, y, tx, ty, None, spec_value_at(p, pos(tx, ty)) - spec_value_at(p, pos(x, y)) - taken)]
    }
}

/// The pawn moves in direction (dx, dy): a push (and a double push from the start row)
/// when dx is 0, otherwise a capture, possibly en passant.
pub open spec fn pawn_dir_moves(s: BoardState, x: int, y: int, p: Piece, dx: int, dy: int) -> Seq<Move> {
    let g = s.grid;
    let color = s.color;
    let ty = y + dy;
    if dx == 0 {
        if 0 <= ty < 8 && sq(g, x, ty) is None {
            pawn_arrival(x, y, x, ty, p, 0)
                + if y == 6 && color == Color::White && sq(g, x, ty - 1) is None {
                    seq![spec_move(x, y, x, ty - 1, None, spec_value_at(p, pos(x, ty - 1)) - spec_value_at(p, pos(x, y)))]
                } else if y == 1 && color == Color::Black && sq(g, x, ty + 1) is None {
                    seq![spec_move(x, y, x, ty + 1, None, spec_value_at(p, pos(x, ty + 1)) - spec_value_at(p, pos(x, y)))]
                } else {
                    Seq::empty()
                }
        } else {
            Seq::empty()
        }
    } else {
        let tx = x + dx;
        if 0 <= tx < 8 {
            match sq(g, tx, ty) {
                Some(t) => if t.color != color {
                    pawn_arrival(x, y, tx, ty, p, spec_combined_value_at(t, pos(tx, ty)))
                } else {
                    Seq::empty()
                },
                None => match s.passants[s.counter as int] {
                    Some(c) => if c == tx && ((color == Color::White && y == 3) || (color == Color::Black && y == 4)) {
                        seq![spec_move(x, y, tx, ty, None, spec_value_at(p, pos(tx, ty)) - spec_value_at(p, pos(x, y))
                            - spec_combined_value_at(sq(g, c as int, y).unwrap(), pos(c as int, y)))]
                    } else {
                        Seq::empty()
                    },
                    None => Seq::empty(),
                },
            }
        } else {
            Seq::empty()
        }
    }
}

pub open spec fn pawn_moves(s: BoardState, x: int, y: int, p: Piece) -> Seq<Move> {
    let dirs = spec_directions(p);
    pawn_dir_moves(s, x, y, p, dirs[0].0 as int, dirs[0].1 as int)
        + pawn_dir_moves(s, x, y, p, dirs[1].0 as int, dirs[1].1 as int)
        + pawn_dir_moves(s, x, y, p, dirs[2].0 as int, dirs[2].1 as int)
}

/// The moves the piece on square (x, y) generates, before checks are looked at.
pub open spec fn piece_moves(s: BoardState, x: int, y: int, p: Piece) -> Seq<Move> {
    if p.piecetype == PieceType::Pawn {
        pawn_moves(s, x, y, p)
    } else if p.piecetype == PieceType::King {
        step_moves(set_sq(s.grid, x, y, None), s.color, x, y, p, spec_directions(p))
    } else if spec_can_run(p) {
        running_moves(s.grid, s.color, x, y, p, spec_directions(p))
    } else {
        step_moves(s.grid, s.color, x, y, p, spec_directions(p))
    }
}

/// The moves of the pieces of the side to move on the first `n` squares (row by row from
/// the eighth rank), before checks are looked at.
pub open spec fn pseudo_moves(s: BoardState, n: nat) -> Seq<Move>
    decreases n,
{
    if n == 0 {
        Seq::empty()
    } else {
        let i = n - 1;
        let x = i % 8;
        let y = i / 8;
        pseudo_moves(s, (n - 1) as nat) + match sq(s.grid, x, y) {
            Some(p) => if p.color == s.color { piece_moves(s, x, y, p) } else { Seq::empty() },
            None => Seq::empty(),
        }
    }
}

/// The square of the king of the side to move once move `m` is played on the grid.
pub open spec fn king_square_after(s: BoardState, m: Move) -> Position {
    let pie = sq(s.grid, m.from.x as int, m.from.y as int);
    if pie->0.piecetype == PieceType::King {
        m.to
    } else if s.color == Color::White {
        s.wkingpos[s.counter as int]
    } else {
        s.bkingpos[s.counter as int]
    }
}

/// Whether the side to move's king is safe once `m` moves its piece (captures en passant
/// are not taken into account).
pub open spec fn spec_not_check_if(s: BoardState, m: Move) -> bool {
    let pie = sq(s.grid, m.from.x as int, m.from.y as int);
    let g = set_sq(set_sq(s.grid, m.from.x as int, m.from.y as int, None), m.to.x as int, m.to.y as int, pie);
    !spec_is_threatened_by(g, king_square_after(s, m), spec_opposite(s.color))
}

/// None of the squares (a, y), (b, y), (c, y) is attacked by `by`.
pub open spec fn none_threatened(s: BoardState, y: int, a: int, b: int, c: int, by: Color) -> bool {
    &&& !spec_is_threatened_by(s.grid, pos(a, y), by)
    &&& !spec_is_threatened_by(s.grid, pos(b, y), by)
    &&& !spec_is_threatened_by(s.grid, pos(c, y), by)
}

/// The castling moves the side to move has: the right kept, the squares between king and
/// rook empty, and the king's square and the two it crosses not attacked.
pub open spec fn spec_castle_moves(s: BoardState) -> Seq<Move> {
    let c = s.castles[s.counter as int];
    let g = s.grid;
    if s.color == Color::White {
        (if c.0 && sq(g, 5, 7) is None && sq(g, 6, 7) is None && none_threatened(s, 7, 4, 5, 6, Color::Black) {
            seq![spec_move(4, 7, 6, 7, None, 49)]
        } else {
            Seq::empty()
        }) + (if c.1 && sq(g, 1, 7) is None && sq(g, 2, 7) is None && sq(g, 3, 7) is None && none_threatened(s, 7, 4, 3, 2, Color::Black) {
            seq![spec_move(4, 7, 2, 7, None, 40)]
        } else {
            Seq::empty()
        })
    } else {
        (if c.2 && sq(g, 5, 0) is None && sq(g, 6, 0) is None && none_threatened(s, 0, 4, 5, 6, Color::White) {
            seq![spec_move(4, 0, 6, 0, None, -49)]
        } else {
            Seq::empty()
        }) + (if c.3 && sq(g, 1, 0) is None && sq(g, 2, 0) is None && sq(g, 3, 0) is None && none_threatened(s, 0, 4, 3, 2, Color::White) {
            seq![spec_move(4, 0, 2, 0, None, -40)]
        } else {
            Seq::empty()
        })
    }
}

/// The legal moves of the side to move, in the order `moves()` lists them: the moves of
/// each piece, square by square, that leave the king safe, then the castling moves.
pub open spec fn spec_moves(s: BoardState) -> Seq<Move> {
    pseudo_moves(s, 64).filter(king_safe_after(s)) + spec_castle_moves(s)
}

/// The test the moves of `s` pass: the side to move's king is safe after them.
pub open spec fn king_safe_after(s: BoardState) -> spec_fn(Move) -> bool {
    |m: Move| spec_not_check_if(s, m)
}

/// A pawn of the side to move stands on the rank it would move off the board from; its
/// capture squares cannot be read there, and move generation panics.
pub open spec fn stranded_pawn(s: BoardState) -> bool {
    exists|x: int| 0 <= x < 8 && #[trigger] sq(s.grid, x, far_row(s.color)) == Some(Piece { piecetype: PieceType::Pawn, color: s.color })
}

/// The row a pawn of colour `c` moves off the board from.
pub open spec fn far_row(c: Color) -> int {
    if c == Color::White { 0 } else { 7 }
}

/// The square a pawn of the side to move would capture en passant from is beside an empty
/// en-passant square it could reach; generating that capture reads the passed pawn.
pub open spec fn ep_square_ok(s: BoardState) -> bool {
    match s.passants[s.counter as int] {
        Some(c) => {
            let y: int = if s.color == Color::White { 3 } else { 4 };
            let ty: int = if s.color == Color::White { 2 } else { 5 };
            let pawn = Some(Piece { piecetype: PieceType::Pawn, color: s.color });
            (((c > 0 && sq(s.grid, c - 1, y) == pawn) || (c < 7 && sq(s.grid, c + 1, y) == pawn)) && sq(s.grid, c as int, ty) is None)
                ==> sq(s.grid, c as int, y) is Some
        },
        None => true,
    }
}

/// A move as the generators make it: between squares of the board, from a square with a piece.
pub open spec fn move_from_piece(s: BoardState, m: Move) -> bool {
    on_board(m.from) && on_board(m.to) && sq(s.grid, m.from.x as int, m.from.y as int) is Some
}

/// A castling move: from the king's starting square to a square on the same row.
pub open spec fn move_from_king_square(m: Move) -> bool {
    m.from.x == 4 && (m.from.y == 0 || m.from.y == 7) && m.to.y == m.from.y && (m.to.x == 2 || m.to.x == 6)
}

/// The value `value_of` gives a castling move of the king, by its squares.
pub open spec fn castle_value(m: Move) -> Option<int> {
    if m.from.x == 4 && m.from.y == 7 && m.to.x == 6 && m.to.y == 7 {
        Some(49)
    } else if m.from.x == 4 && m.from.y == 7 && m.to.x == 2 && m.to.y == 7 {
        Some(40)
    } else if m.from.x == 4 && m.from.y == 0 && m.to.x == 6 && m.to.y == 0 {
        Some(-49)
    } else if m.from.x == 4 && m.from.y == 0 && m.to.x == 2 && m.to.y == 0 {
        Some(-40)
    } else {
        None
    }
}

/// The square of the pawn that a move onto the en-passant square would take: the square
/// behind it, for the side to move.
pub open spec fn passed_pawn_square(s: BoardState, m: Move) -> Option<Position> {
    match s.passants[s.counter as int] {
        Some(ps) => if m.to.x == ps as usize {
            if m.to.y == 2 && s.color == Color::White {
                Some(Position { x: m.to.x, y: 3 })
            } else if m.to.y == 5 && s.color == Color::Black {
                Some(Position { x: m.to.x, y: 4 })
            } else {
                None
            }
        } else {
            None
        },
        None => None,
    }
}

/// Whether `m` is a pawn's diagonal step onto the en-passant square: an en-passant capture.
pub open spec fn takes_en_passant(s: BoardState, m: Move) -> bool {
    &&& sq(s.grid, m.from.x as int, m.from.y as int) matches Some(p) && p.piecetype == PieceType::Pawn
    &&& m.from.x != m.to.x
    &&& passed_pawn_square(s, m) is Some
}

/// The change in evaluation that `value_of` assigns to move `m`: a fixed value for the
/// king's castling moves; otherwise the mover's positional gain, minus what stands on the
/// target square, plus what a promotion adds, minus the pawn an en-passant capture takes.
pub open spec fn spec_value_of(s: BoardState, m: Move) -> int {
    let g = s.grid;
    let p = sq(g, m.from.x as int, m.from.y as int).unwrap();
    let dx = m.from.x - m.to.x;
    if p.piecetype == PieceType::King && (dx == 2 || dx == -2) && castle_value(m) is Some {
        castle_value(m)->0
    } else {
        let taken: int = match sq(g, m.to.x as int, m.to.y as int) {
            Some(t) => spec_combined_value_at(t, m.to),
            None => 0,
        };
        let promoted: int = match m.promote {
            Some(q) => spec_combined_value_at(q, m.to) - spec_combined_value_at(p, m.to),
            None => 0,
        };
        let passed: int = if takes_en_passant(s, m) {
            let pos = passed_pawn_square(s, m)->0;
            spec_combined_value_at(sq(g, pos.x as int, pos.y as int).unwrap(), pos)
        } else {
            0
        };
        spec_value_at(p, m.to) - spec_value_at(p, m.from) - taken + promoted - passed
    }
}

/// The moves `value_of` can read: squares on the board, a piece to move, and, for an
/// en-passant capture, the pawn it takes.
pub open spec fn value_of_ok(s: BoardState, m: Move) -> bool {
    &&& on_board(m.from) && on_board(m.to)
    &&& sq(s.grid, m.from.x as int, m.from.y as int) is Some
    &&& (takes_en_passant(s, m) ==> {
            let pos = passed_pawn_square(s, m)->0;
            sq(s.grid, pos.x as int, pos.y as int) is Some
        })
}

/// The score of a finished game for the side to move: mate is worth `INFINITY` less the
/// number of moves played, to the winner; a stalemate is worth 0.
/// The side to move is in check: its king is attacked by the other side.
pub open spec fn spec_in_check(s: BoardState) -> bool {
    let c = s.counter as int;
    if s.color == Color::White {
        spec_is_threatened_by(s.grid, s.wkingpos[c], Color::Black)
    } else {
        spec_is_threatened_by(s.grid, s.bkingpos[c], Color::White)
    }
}

pub open spec fn spec_end_score(s: BoardState) -> int {
    let c = s.counter as int;
    if s.color == Color::White {
        if spec_is_threatened_by(s.grid, s.wkingpos[c], Color::Black) { -2147483647 + s.counter } else { 0 }
    } else {
        if spec_is_threatened_by(s.grid, s.bkingpos[c], Color::White) { 2147483647 - s.counter } else { 0 }
    }
}

pub open spec fn spec_winner(s: BoardState) -> Option<Color> {
    if spec_end_score(s) < 0 {
        Some(Color::Black)
    } else if spec_end_score(s) > 0 {
        Some(Color::White)
    } else {
        None
    }
}

pub open spec fn abs_int(a: int) -> int {
    if a < 0 { -a } else { a }
}

/// Division rounding toward zero, as Rust's integer division does.
pub open spec fn trunc_div(a: int, b: int) -> int {
    if a >= 0 { a / b } else { -((-a) / b) }
}

/// The square `i` steps from (fx, fy) in direction (vx, vy).
pub open spec fn path_sq(g: GridView, fx: int, fy: int, vx: int, vy: int, i: int) -> Option<Piece> {
    sq(g, fx + vx * i, fy + vy * i)
}

/// The squares strictly between the start and step `len` are empty.
pub open spec fn path_clear(g: GridView, fx: int, fy: int, vx: int, vy: int, len: int) -> bool {
    forall|i: int| 1 <= i < len ==> #[trigger] path_sq(g, fx, fy, vx, vy, i) is None
}

pub open spec fn rook_dir(vx: int, vy: int) -> bool {
    (vx == 0 && vy == -1) || (vx == 1 && vy == 0) || (vx == 0 && vy == 1) || (vx == -1 && vy == 0)
}

pub open spec fn bishop_dir(vx: int, vy: int) -> bool {
    (vx == 1 && vy == 1) || (vx == -1 && vy == 1) || (vx == 1 && vy == -1) || (vx == -1 && vy == -1)
}

pub open spec fn has_same_move(ms: Seq<Move>, m: Move) -> bool {
    exists|i: int| 0 <= i < ms.len() && same_move(#[trigger] ms[i], m)
}

/// Whether the piece on `m.from` may make move `m` by its way of moving, before checks:
/// it must belong to the side to move, only pawns promote, and the target must not hold a
/// piece of its own. A knight-shaped step is for knights alone; for the others the step is
/// reduced to a unit direction (rounding toward zero) that must be one of the piece's, with
/// the squares before the target empty, while pawns and kings must find `m` among their moves.
pub open spec fn spec_legal_shape(s: BoardState, m: Move) -> bool {
    let g = s.grid;
    let fx = m.from.x as int;
    let fy = m.from.y as int;
    let d0 = m.to.x - m.from.x;
    let d1 = m.to.y - m.from.y;
    match sq(g, fx, fy) {
        None => false,
        Some(p) => {
            if p.color != s.color {
                false
            } else if m.promote is Some && p.piecetype != PieceType::Pawn {
                false
            } else if sq(g, m.to.x as int, m.to.y as int) matches Some(t) && t.color == s.color {
                false
            } else {
                piece_way_ok(s, m, p)
            }
        },
    }
}

/// Whether piece `p` on `m.from` moves the way `m` does (see `spec_legal_shape`).
pub open spec fn piece_way_ok(s: BoardState, m: Move, p: Piece) -> bool {
    let g = s.grid;
    let fx = m.from.x as int;
    let fy = m.from.y as int;
    let d0 = m.to.x - m.from.x;
    let d1 = m.to.y - m.from.y;
    if abs_int(d0) != 0 && abs_int(d1) != 0 && abs_int(d0) + abs_int(d1) == 3 {
        p.piecetype == PieceType::Knight
    } else {
        let len = if abs_int(d0) >= abs_int(d1) { abs_int(d0) } else { abs_int(d1) };
        let vx = trunc_div(d0, len);
        let vy = trunc_div(d1, len);
        match p.piecetype {
            PieceType::Pawn => has_same_move(pawn_moves(s, fx, fy, p), m),
            PieceType::Rook => rook_dir(vx, vy) && path_clear(g, fx, fy, vx, vy, len),
            PieceType::Bishop => bishop_dir(vx, vy) && path_clear(g, fx, fy, vx, vy, len),
            PieceType::Queen => (rook_dir(vx, vy) || bishop_dir(vx, vy)) && path_clear(g, fx, fy, vx, vy, len),
            PieceType::King => has_same_move(step_moves(set_sq(g, fx, fy, None), s.color, fx, fy, p, spec_directions(p)), m),
            PieceType::Knight => false,
        }
    }
}

/// The moves `is_legal` can examine without panicking: a start square on the board; when
/// the side to move has a piece there that may make the move, a target on the board, and for
/// a pawn one that is not stranded and a readable en-passant capture.
pub open spec fn legal_input_ok(s: BoardState, m: Move) -> bool {
    &&& on_board(m.from)
    &&& -128 <= m.to.x as i8 - m.from.x as i8 <= 127 && -128 <= m.to.y as i8 - m.from.y as i8 <= 127
    &&& (sq(s.grid, m.from.x as int, m.from.y as int) matches Some(p) && p.color == s.color
            && !(m.promote is Some && p.piecetype != PieceType::Pawn)) ==> on_board(m.to)
    &&& (sq(s.grid, m.from.x as int, m.from.y as int) matches Some(p) && p.color == s.color && p.piecetype == PieceType::Pawn)
            ==> m.from.y != far_row(s.color) && ep_square_ok(s)
}

/// The first move of `ms` from index `i` on that equals `m` (same squares and promotion).
pub open spec fn first_same(ms: Seq<Move>, m: Move, i: int) -> Option<Move>
    decreases ms.len() - i,
{
    if i < 0 || i >= ms.len() {
        None
    } else if same_move(ms[i], m) {
        Some(ms[i])
    } else {
        first_same(ms, m, i + 1)
    }
}

/// The move that `move_str(s)` plays: the legal move that the string spells, if any.
pub open spec fn move_named(b: BoardState, s: Seq<char>) -> Option<Move> {
    match spec_parse_move(s) {
        Some(m1) => first_same(spec_moves(b), m1, 0),
        None => None,
    }
}

/// The character of square (x, y) in a board's text: the piece's letter, or '-'.
pub open spec fn square_char(g: GridView, x: int, y: int) -> char {
    match sq(g, x, y) {
        Some(p) => spec_char(p),
        None => '-',
    }
}

/// The first `n` characters of row `y` of a board's text.
pub open spec fn row_text(g: GridView, y: int, n: nat) -> Seq<char>
    decreases n,
{
    if n == 0 { Seq::empty() } else { row_text(g, y, (n - 1) as nat).push(square_char(g, n - 1, y)) }
}

/// The text of the first `k` rows of a board, each of eight squares and a line break.
pub open spec fn board_text(g: GridView, k: nat) -> Seq<char>
    decreases k,
{
    if k == 0 { Seq::empty() } else { board_text(g, (k - 1) as nat) + row_text(g, k - 1, 8).push('\n') }
}

/// The boards whose moves can be generated: no stranded pawn of the side to move, and an
/// en-passant capture only where a pawn can be taken.
pub open spec fn moves_ok(s: BoardState) -> bool {
    !stranded_pawn(s) && ep_square_ok(s)
}

} // verus!
