use vstd::prelude::*;
pub use super::piece::{Piece, PieceType, Color, spec_piece_of, is_piece_char, spec_opposite, spec_value_at,
    spec_combined_value_at, spec_directions, spec_can_run, on_board, lemma_value_bounds, lemma_direction_bounds};
pub use super::board_representation::movement::{Move, Score, Moves, Position, INFINITY, same_move, spec_move, spec_parse_move};
use super::rules::{takes_en_passant, first_same, move_named, square_char, row_text, board_text, passed_pawn_square, spec_value_of, value_of_ok, spec_end_score, spec_in_check, spec_winner, abs_int, trunc_div, path_sq, path_clear, spec_legal_shape, piece_way_ok, legal_input_ok, king_safe_after, far_row, piece_moves, pseudo_moves, spec_moves, moves_ok, move_from_piece, pawn_arrival, pawn_dir_moves, pawn_moves, ep_square_ok, spec_not_check_if, spec_castle_moves, move_from_king_square, step_moves, ray_moves, running_moves, in_bounds, threat_pos_ok, ray_hit, knight_at, line_threat, diag_threat, spec_is_threatened_by};
use crate::text::push_char;
use super::zobrist::{Zobrist, GridView, grid_view, piece_key, spec_castle_toggle, keys_from, initial_hash,
    pcg64_stream, ZOBRIST_SEED, ZOBRIST_DRAWS};

verus! {

pub const BOARD_SIZE: usize = 8;

/// The starting position.
pub const DEFAULT_BOARD: &'static str = "rnbqkbnr\npppppppp\n--------\n--------\n--------\n--------\nPPPPPPPP\nRNBQKBNR";

/// Castling rights: White short, White long, Black short, Black long.
pub type Castle = (bool, bool, bool, bool);

/// A captured piece, with the square it stood on and the turn it was taken on, so that
/// taking the move back can put it back.
#[derive(Copy, Clone, PartialEq, Eq, Debug, Structural)]
pub struct TombStone {
    pub piece: Piece,
    pub date: usize,
    pub position: Position,
}

/// A chess position with its history: every move made, and for every turn the score,
/// en-passant file, castling rights, king squares, hash and queen count, so that moves can
/// be taken back.
#[derive(PartialEq, Clone, Debug)]
pub struct Board {
    grid: [[Option<Piece>; 8]; 8],
    color_to_move: Color,
    scores: Vec<Score>,
    counter: usize,
    graveyard: Vec<TombStone>,
    moves: Moves,
    passants: Vec<Option<i8>>,
    castles: Vec<Castle>,
    wkingpos: Vec<Position>,
    bkingpos: Vec<Position>,
    hashes: Vec<i64>,
    zobrist: Zobrist,
    queens: Vec<u8>,
}

/// The mathematical model of a board: the grid as rows of squares, and the histories as sequences.
pub struct BoardState {
    pub grid: GridView,
    pub color: Color,
    pub scores: Seq<Score>,
    pub counter: usize,
    pub graveyard: Seq<TombStone>,
    pub moves: Seq<Move>,
    pub passants: Seq<Option<i8>>,
    pub castles: Seq<Castle>,
    pub wkingpos: Seq<Position>,
    pub bkingpos: Seq<Position>,
    pub hashes: Seq<i64>,
    pub zobrist: Zobrist,
    pub queens: Seq<u8>,
}

impl View for Board {
    type V = BoardState;

    closed spec fn view(&self) -> BoardState {
        BoardState {
            grid: grid_view(self.grid),
            color: self.color_to_move,
            scores: self.scores@,
            counter: self.counter,
            graveyard: self.graveyard@,
            moves: self.moves.0@,
            passants: self.passants@,
            castles: self.castles@,
            wkingpos: self.wkingpos@,
            bkingpos: self.bkingpos@,
            hashes: self.hashes@,
            zobrist: self.zobrist,
            queens: self.queens@,
        }
    }
}

pub open spec fn sq(g: GridView, x: int, y: int) -> Option<Piece> {
    g[y][x]
}

pub open spec fn set_sq(g: GridView, x: int, y: int, v: Option<Piece>) -> GridView {
    g.update(y, g[y].update(x, v))
}

/// Swaps squares (a, y) and (b, y).
pub open spec fn swap_sq(g: GridView, y: int, a: int, b: int) -> GridView {
    set_sq(set_sq(g, a, y, sq(g, b, y)), b, y, sq(g, a, y))
}

pub open spec fn grid_shape(g: GridView) -> bool {
    g.len() == 8 && forall|y: int| 0 <= y < 8 ==> #[trigger] g[y].len() == 8
}

/// A king square: on the board, or (100, 100) where the side has no king.
pub open spec fn king_pos_ok(p: Position) -> bool {
    p.x <= 100 && p.y <= 100
}

/// The invariant of a board: the histories have one entry per turn so far, moves and
/// captured pieces stand on the board, and king squares and en-passant files are in range.
pub open spec fn wf(s: BoardState) -> bool {
    &&& grid_shape(s.grid)
    &&& s.counter < usize::MAX
    &&& s.moves.len() == s.counter
    &&& s.scores.len() == s.counter + 1
    &&& s.passants.len() == s.counter + 1
    &&& s.castles.len() == s.counter + 1
    &&& s.wkingpos.len() == s.counter + 1
    &&& s.bkingpos.len() == s.counter + 1
    &&& s.hashes.len() == s.counter + 1
    &&& s.queens.len() == s.counter + 1
    &&& forall|i: int| 0 <= i < s.moves.len() ==> on_board(#[trigger] s.moves[i].from) && on_board(s.moves[i].to)
    &&& forall|i: int| 0 <= i < s.graveyard.len() ==> on_board(#[trigger] s.graveyard[i].position)
    &&& forall|i: int| 0 <= i < s.wkingpos.len() ==> king_pos_ok(#[trigger] s.wkingpos[i])
    &&& forall|i: int| 0 <= i < s.bkingpos.len() ==> king_pos_ok(#[trigger] s.bkingpos[i])
    &&& forall|i: int| 0 <= i < s.passants.len() ==> (#[trigger] s.passants[i] matches Some(c) ==> 0 <= c < 8)
}

pub open spec fn is_type(p: Option<Piece>, t: PieceType) -> bool {
    p matches Some(q) && q.piecetype == t
}

/// The square of the pawn an en-passant capture by move `m` removes, when `m` is one
/// (the mover being a pawn is checked by the caller).
pub open spec fn ep_victim(s: BoardState, m: Move) -> Option<Position> {
    match s.passants[s.counter as int] {
        Some(ps) => if m.to.x == ps as usize {
            if m.to.y == 2 && s.color == Color::White {
                Some(Position { x: m.to.x, y: 3 })
            } else if m.to.y == 5 && s.color == Color::Black {
                Some(Position { x: m.to.x, y: 4 })
            } else {
                None
            }
        } else {
            None
        },
        None => None,
    }
}

/// The rook's step in a castling move.
pub ghost struct RookStep {
    pub from_x: int,
    pub to_x: int,
    pub row: int,
}

/// For a king move from e1 or e8 two files sideways, the rook's step.
pub open spec fn castle_rook(m: Move) -> Option<RookStep> {
    if m.from.x == 4 && m.from.y == 7 && m.to.x == 6 && m.to.y == 7 {
        Some(RookStep { from_x: 7, to_x: 5, row: 7 })
    } else if m.from.x == 4 && m.from.y == 7 && m.to.x == 2 && m.to.y == 7 {
        Some(RookStep { from_x: 0, to_x: 3, row: 7 })
    } else if m.from.x == 4 && m.from.y == 0 && m.to.x == 6 && m.to.y == 0 {
        Some(RookStep { from_x: 7, to_x: 5, row: 0 })
    } else if m.from.x == 4 && m.from.y == 0 && m.to.x == 2 && m.to.y == 0 {
        Some(RookStep { from_x: 0, to_x: 3, row: 0 })
    } else {
        None
    }
}

pub open spec fn abs_diff(a: usize, b: usize) -> int {
    if a >= b { a - b } else { b - a }
}

/// The grid after the mover leaves `from` and lands on `to`.
pub open spec fn grid_after_step(s: BoardState, m: Move) -> GridView {
    set_sq(set_sq(s.grid, m.from.x as int, m.from.y as int, None), m.to.x as int, m.to.y as int, sq(s.grid, m.from.x as int, m.from.y as int))
}

/// How many captured pieces move `m` records.
pub open spec fn tombstones_of(s: BoardState, m: Move) -> int {
    let pie = sq(s.grid, m.from.x as int, m.from.y as int).unwrap();
    let a: int = if sq(s.grid, m.to.x as int, m.to.y as int) is Some { 1 } else { 0 };
    let b: int = if pie.piecetype == PieceType::Pawn && ep_victim(s, m) is Some { 1 } else { 0 };
    let c: int = if pie.piecetype == PieceType::Pawn && m.promote is Some { 1 } else { 0 };
    a + b + c
}

/// The moves `move_piece` accepts: squares on the board and a piece to move; where it
/// captures a queen, a queen counted; the new score in range; where it captures en passant,
/// a pawn to remove; where it castles, a rook to move.
pub open spec fn move_ok(s: BoardState, m: Move) -> bool {
    let c = s.counter as int;
    let pie = sq(s.grid, m.from.x as int, m.from.y as int);
    &&& on_board(m.from) && on_board(m.to)
    &&& s.counter + 1 < usize::MAX
    &&& pie is Some
    &&& is_type(sq(s.grid, m.to.x as int, m.to.y as int), PieceType::Queen) ==> s.queens[c] > 0
    &&& i32::MIN <= s.scores[c] + m.heuristic_value <= i32::MAX
    &&& (pie->0.piecetype == PieceType::Pawn && ep_victim(s, m) is Some) ==>
            sq(grid_after_step(s, m), ep_victim(s, m)->0.x as int, ep_victim(s, m)->0.y as int) is Some
    &&& (pie->0.piecetype == PieceType::King && castle_rook(m) is Some) ==>
            sq(grid_after_step(s, m), castle_rook(m)->0.from_x, castle_rook(m)->0.row) is Some
}

/// The capture record is in turn order, with at most two captures per turn and none from
/// the current turn on; this is what lets `go_back` find the pieces of the last turn.
pub open spec fn history_ok(s: BoardState) -> bool {
    dates_ok(s.graveyard, s.counter as int)
}

pub open spec fn dates_ok(gy: Seq<TombStone>, counter: int) -> bool {
    &&& forall|i: int| 0 <= i < gy.len() ==> (#[trigger] gy[i]).date < counter
    &&& forall|i: int, j: int| 0 <= i < j < gy.len() ==> (#[trigger] gy[i]).date <= (#[trigger] gy[j]).date
    &&& forall|i: int, j: int| 0 <= i && i + 2 <= j < gy.len() ==> (#[trigger] gy[i]).date < (#[trigger] gy[j]).date
}

/// A move that taking back restores: it records at most two captured pieces, and a pawn
/// does not promote to a king on the squares of a castling move.
pub open spec fn move_undoable(s: BoardState, m: Move) -> bool {
    let pie = sq(s.grid, m.from.x as int, m.from.y as int)->0;
    &&& tombstones_of(s, m) <= 2
    &&& (pie.piecetype == PieceType::Pawn && castle_rook(m) is Some && m.promote is Some) ==>
            m.promote->0.piecetype != PieceType::King
}

/// The castling rights after move `m`: a right is lost once the king or that rook leaves
/// its square, or the rook's square is moved onto.
pub open spec fn next_castle(cr: Castle, m: Move) -> Castle {
    let e1 = Position { x: 4, y: 7 };
    let e8 = Position { x: 4, y: 0 };
    let a1 = Position { x: 0, y: 7 };
    let a8 = Position { x: 0, y: 0 };
    let h1 = Position { x: 7, y: 7 };
    let h8 = Position { x: 7, y: 0 };
    (cr.0 && m.from != e1 && m.from != h1 && m.to != h1,
     cr.1 && m.from != e1 && m.from != a1 && m.to != a1,
     cr.2 && m.from != e8 && m.from != h8 && m.to != h8,
     cr.3 && m.from != e8 && m.from != a8 && m.to != a8)
}

/// The grid after the pawn that an en-passant capture takes is removed.
#[verifier::opaque]
pub open spec fn grid_after_ep(s: BoardState, m: Move) -> GridView {
    let pie = sq(s.grid, m.from.x as int, m.from.y as int).unwrap();
    let g1 = grid_after_step(s, m);
    if pie.piecetype == PieceType::Pawn && ep_victim(s, m) is Some {
        let pos = ep_victim(s, m)->0;
        set_sq(g1, pos.x as int, pos.y as int, None)
    } else {
        g1
    }
}

pub open spec fn is_promotion(s: BoardState, m: Move) -> bool {
    sq(s.grid, m.from.x as int, m.from.y as int).unwrap().piecetype == PieceType::Pawn && m.promote is Some
}

/// The grid after a promoting pawn is replaced.
#[verifier::opaque]
pub open spec fn grid_after_promo(s: BoardState, m: Move) -> GridView {
    if is_promotion(s, m) {
        set_sq(grid_after_ep(s, m), m.to.x as int, m.to.y as int, m.promote)
    } else {
        grid_after_ep(s, m)
    }
}

/// The rook's step when the mover is a king on castling squares.
pub open spec fn rook_step_of(s: BoardState, m: Move) -> Option<RookStep> {
    if sq(s.grid, m.from.x as int, m.from.y as int).unwrap().piecetype == PieceType::King { castle_rook(m) } else { None }
}

/// The grid after the whole move, the rook of a castling included.
#[verifier::opaque]
pub open spec fn grid_after_move(s: BoardState, m: Move) -> GridView {
    let g3 = grid_after_promo(s, m);
    match rook_step_of(s, m) { Some(r) => swap_sq(g3, r.row, r.from_x, r.to_x), None => g3 }
}

/// The pieces a move captures, in the order they are recorded: the piece on the target
/// square, the pawn taken en passant, and the promoted pawn, each where it applies.
#[verifier::opaque]
pub open spec fn captures_of(s: BoardState, m: Move) -> Seq<TombStone> {
    let pie = sq(s.grid, m.from.x as int, m.from.y as int).unwrap();
    let target = sq(s.grid, m.to.x as int, m.to.y as int);
    let g1 = grid_after_step(s, m);
    let cap = match target {
        Some(t) => seq![TombStone { piece: t, position: m.to, date: s.counter }],
        None => Seq::<TombStone>::empty(),
    };
    let ep = if pie.piecetype == PieceType::Pawn && ep_victim(s, m) is Some {
        let pos = ep_victim(s, m)->0;
        seq![TombStone { piece: sq(g1, pos.x as int, pos.y as int).unwrap(), position: pos, date: s.counter }]
    } else {
        Seq::<TombStone>::empty()
    };
    let pr = if is_promotion(s, m) {
        seq![TombStone { piece: sq(grid_after_ep(s, m), m.to.x as int, m.to.y as int).unwrap(), position: m.from, date: s.counter }]
    } else {
        Seq::<TombStone>::empty()
    };
    cap + ep + pr
}

/// The capture record after the move.
#[verifier::opaque]
pub open spec fn graveyard_after_move(s: BoardState, m: Move) -> Seq<TombStone> {
    s.graveyard + captures_of(s, m)
}

/// The hash after the move, before the side and castling keys: the keys of every square
/// that changed are toggled, and the en-passant keys of the previous and the new turn.
#[verifier::opaque]
pub open spec fn hash_after_pieces(s: BoardState, m: Move) -> i64 {
    let c = s.counter as int;
    let fx = m.from.x as int;
    let fy = m.from.y as int;
    let tx = m.to.x as int;
    let ty = m.to.y as int;
    let z = s.zobrist;
    let pie = sq(s.grid, fx, fy).unwrap();
    let target = sq(s.grid, tx, ty);
    let h0 = match target { Some(t) => z.hash ^ piece_key(z, tx, ty, t), None => z.hash };
    let g1 = grid_after_step(s, m);
    let h1 = (h0 ^ piece_key(z, fx, fy, pie)) ^ piece_key(z, tx, ty, pie);
    let h2 = match s.passants[c] { Some(ps) => h1 ^ z.en_passant@[ps as int], None => h1 };
    let is_pawn = pie.piecetype == PieceType::Pawn;
    let double = is_pawn && abs_diff(m.from.y, m.to.y) == 2;
    let h3 = if double { h2 ^ z.en_passant@[fx] } else { h2 };
    let h4 = if is_pawn && ep_victim(s, m) is Some {
        let pos = ep_victim(s, m)->0;
        h3 ^ piece_key(z, pos.x as int, pos.y as int, sq(g1, pos.x as int, pos.y as int).unwrap())
    } else {
        h3
    };
    let cur = sq(grid_after_ep(s, m), tx, ty).unwrap();
    let h5 = if is_promotion(s, m) { (h4 ^ piece_key(z, tx, ty, cur)) ^ piece_key(z, tx, ty, m.promote->0) } else { h4 };
    let g3 = grid_after_promo(s, m);
    match rook_step_of(s, m) {
        Some(r) => (h5 ^ piece_key(z, r.from_x, r.row, sq(g3, r.from_x, r.row).unwrap()))
            ^ piece_key(z, r.to_x, r.row, sq(g3, r.from_x, r.row).unwrap()),
        None => h5,
    }
}

/// The board after `move_piece(m)`.
#[verifier::opaque]
pub open spec fn spec_move_piece(s: BoardState, m: Move) -> BoardState {
    let c = s.counter as int;
    let z = s.zobrist;
    let pie = sq(s.grid, m.from.x as int, m.from.y as int).unwrap();
    let target = sq(s.grid, m.to.x as int, m.to.y as int);
    let queens: u8 = if is_type(target, PieceType::Queen) { (s.queens[c] - 1) as u8 } else { s.queens[c] };
    let double = pie.piecetype == PieceType::Pawn && abs_diff(m.from.y, m.to.y) == 2;
    let passant: Option<i8> = if double { Some(m.from.x as i8) } else { None };
    let moved_king = pie.piecetype == PieceType::King;
    let wk = if moved_king && s.color == Color::White { m.to } else { s.wkingpos[c] };
    let bk = if moved_king && s.color != Color::White { m.to } else { s.bkingpos[c] };
    let h7 = hash_after_pieces(s, m) ^ z.color_to_move;
    let cr = s.castles[c];
    let nc = next_castle(cr, m);
    let h8 = spec_castle_toggle(z, h7, (cr.0 != nc.0, cr.1 != nc.1, cr.2 != nc.2, cr.3 != nc.3));
    BoardState {
        grid: grid_after_move(s, m),
        color: spec_opposite(s.color),
        scores: s.scores.push((s.scores[c] + m.heuristic_value) as Score),
        counter: (s.counter + 1) as usize,
        graveyard: graveyard_after_move(s, m),
        moves: s.moves.push(m),
        passants: s.passants.push(passant),
        castles: s.castles.push(nc),
        wkingpos: s.wkingpos.push(wk),
        bkingpos: s.bkingpos.push(bk),
        hashes: s.hashes.push(h7),
        zobrist: Zobrist { hash: h8, ..z },
        queens: s.queens.push(queens),
    }
}

/// `go_back` panics unless a move has been made and a piece stands on its target square.
pub open spec fn can_go_back(s: BoardState) -> bool {
    s.counter > 0 && sq(s.grid, s.moves.last().to.x as int, s.moves.last().to.y as int) is Some
}

/// The grid once the last move's mover (and a castling rook) is put back on its squares.
#[verifier::opaque]
pub open spec fn grid_back_step(s: BoardState) -> GridView {
    let m = s.moves.last();
    let pie = sq(s.grid, m.to.x as int, m.to.y as int);
    let g1 = if pie->0.piecetype == PieceType::King {
        match castle_rook(m) { Some(r) => swap_sq(s.grid, r.row, r.from_x, r.to_x), None => s.grid }
    } else {
        s.grid
    };
    set_sq(set_sq(g1, m.from.x as int, m.from.y as int, pie), m.to.x as int, m.to.y as int, None)
}

/// Whether the last capture record belongs to the turn being taken back.
pub open spec fn restores_first(s: BoardState) -> bool {
    let d = s.graveyard.len();
    d > 0 && s.graveyard[d - 1].date == s.counter - 1
}

/// Whether the capture record before it belongs to that turn as well.
pub open spec fn restores_second(s: BoardState) -> bool {
    let d = s.graveyard.len();
    let gy1 = if restores_first(s) { s.graveyard.drop_last() } else { s.graveyard };
    d > 1 && gy1[d - 2].date == s.counter - 1
}

pub open spec fn put_back(g: GridView, t: TombStone) -> GridView {
    set_sq(g, t.position.x as int, t.position.y as int, Some(t.piece))
}

/// The grid once the pieces captured on the last turn are back.
#[verifier::opaque]
pub open spec fn grid_after_back(s: BoardState) -> GridView {
    let gy = s.graveyard;
    let d = gy.len();
    let g2 = grid_back_step(s);
    let g3 = if restores_first(s) { put_back(g2, gy[d - 1]) } else { g2 };
    let gy1 = if restores_first(s) { gy.drop_last() } else { gy };
    if restores_second(s) { put_back(g3, gy1[d - 2]) } else { g3 }
}

/// The capture record without the last turn's captures.
#[verifier::opaque]
pub open spec fn graveyard_after_back(s: BoardState) -> Seq<TombStone> {
    let gy1 = if restores_first(s) { s.graveyard.drop_last() } else { s.graveyard };
    if restores_second(s) { gy1.drop_last() } else { gy1 }
}

/// The board after `go_back()`: the last move is taken back, captured pieces of that turn
/// return, and the hash is restored from the history.
#[verifier::opaque]
pub open spec fn spec_go_back(s: BoardState) -> BoardState {
    let c = (s.counter - 1) as usize;
    BoardState {
        grid: grid_after_back(s),
        color: spec_opposite(s.color),
        scores: s.scores.drop_last(),
        counter: c,
        graveyard: graveyard_after_back(s),
        moves: s.moves.drop_last(),
        passants: s.passants.drop_last(),
        castles: s.castles.drop_last(),
        wkingpos: s.wkingpos.drop_last(),
        bkingpos: s.bkingpos.drop_last(),
        hashes: s.hashes.drop_last(),
        zobrist: Zobrist { hash: s.hashes[c as int], ..s.zobrist },
        queens: s.queens.drop_last(),
    }
}

/// Two boards that agree in everything but the current hash value.
pub open spec fn with_hash(s: BoardState, h: i64) -> BoardState {
    BoardState { zobrist: Zobrist { hash: h, ..s.zobrist }, ..s }
}


proof fn lemma_sq_set(g: GridView, x: int, y: int, v: Option<Piece>, a: int, b: int)
    requires grid_shape(g), 0 <= x < 8, 0 <= y < 8, 0 <= a < 8, 0 <= b < 8,
    ensures sq(set_sq(g, x, y, v), a, b) == if a == x && b == y { v } else { sq(g, a, b) },
{
}

proof fn lemma_shape_set(g: GridView, x: int, y: int, v: Option<Piece>)
    requires grid_shape(g), 0 <= x < 8, 0 <= y < 8,
    ensures grid_shape(set_sq(g, x, y, v)),
{
}

proof fn lemma_sq_swap(g: GridView, y: int, p: int, q: int, a: int, b: int)
    requires grid_shape(g), 0 <= y < 8, 0 <= p < 8, 0 <= q < 8, p != q, 0 <= a < 8, 0 <= b < 8,
    ensures
        grid_shape(swap_sq(g, y, p, q)),
        sq(swap_sq(g, y, p, q), a, b) == if b == y && a == p { sq(g, q, y) } else if b == y && a == q { sq(g, p, y) } else { sq(g, a, b) },
{
    lemma_shape_set(g, p, y, sq(g, q, y));
    lemma_sq_set(g, p, y, sq(g, q, y), a, b);
    lemma_sq_set(set_sq(g, p, y, sq(g, q, y)), q, y, sq(g, p, y), a, b);
}

proof fn lemma_grid_ext(g1: GridView, g2: GridView)
    requires grid_shape(g1), grid_shape(g2),
        forall|a: int, b: int| 0 <= a < 8 && 0 <= b < 8 ==> #[trigger] sq(g1, a, b) == sq(g2, a, b),
    ensures g1 == g2,
{
    assert forall|y: int| 0 <= y < 8 implies g1[y] == g2[y] by {
        assert(g1[y] =~= g2[y]) by {
            assert forall|x: int| 0 <= x < 8 implies g1[y][x] == g2[y][x] by {
                assert(sq(g1, x, y) == sq(g2, x, y));
            }
        }
    }
    assert(g1 =~= g2);
}

/// The square contents along the stages of a move.
#[verifier::spinoff_prover]
proof fn lemma_move_squares(s: BoardState, m: Move, a: int, b: int)
    requires wf(s), move_ok(s, m), 0 <= a < 8, 0 <= b < 8,
    ensures
        grid_shape(grid_after_step(s, m)),
        grid_shape(grid_after_ep(s, m)),
        grid_shape(grid_after_promo(s, m)),
        grid_shape(grid_after_move(s, m)),
        sq(grid_after_step(s, m), a, b) == if a == m.to.x && b == m.to.y { sq(s.grid, m.from.x as int, m.from.y as int) }
            else if a == m.from.x && b == m.from.y { None } else { sq(s.grid, a, b) },
        sq(grid_after_ep(s, m), a, b) == if is_type(sq(s.grid, m.from.x as int, m.from.y as int), PieceType::Pawn)
            && ep_victim(s, m) is Some && a == ep_victim(s, m)->0.x && b == ep_victim(s, m)->0.y { None }
            else { sq(grid_after_step(s, m), a, b) },
        sq(grid_after_promo(s, m), a, b) == if is_promotion(s, m) && a == m.to.x && b == m.to.y { m.promote }
            else { sq(grid_after_ep(s, m), a, b) },
        sq(grid_after_move(s, m), a, b) == match rook_step_of(s, m) {
            Some(r) => if b == r.row && a == r.from_x { sq(grid_after_promo(s, m), r.to_x, r.row) }
                else if b == r.row && a == r.to_x { sq(grid_after_promo(s, m), r.from_x, r.row) }
                else { sq(grid_after_promo(s, m), a, b) },
            None => sq(grid_after_promo(s, m), a, b),
        },
{
    reveal(grid_after_move);
    reveal(grid_after_promo);
    reveal(grid_after_ep);
    let fx = m.from.x as int;
    let fy = m.from.y as int;
    let tx = m.to.x as int;
    let ty = m.to.y as int;
    lemma_shape_set(s.grid, fx, fy, None);
    lemma_shape_set(set_sq(s.grid, fx, fy, None), tx, ty, sq(s.grid, fx, fy));
    lemma_sq_set(s.grid, fx, fy, None, a, b);
    lemma_sq_set(set_sq(s.grid, fx, fy, None), tx, ty, sq(s.grid, fx, fy), a, b);
    let g1 = grid_after_step(s, m);
    let pie = sq(s.grid, fx, fy).unwrap();
    if pie.piecetype == PieceType::Pawn && ep_victim(s, m) is Some {
        let pos = ep_victim(s, m)->0;
        lemma_shape_set(g1, pos.x as int, pos.y as int, None);
        lemma_sq_set(g1, pos.x as int, pos.y as int, None, a, b);
    }
    let g2 = grid_after_ep(s, m);
    if is_promotion(s, m) {
        lemma_shape_set(g2, tx, ty, m.promote);
        lemma_sq_set(g2, tx, ty, m.promote, a, b);
    }
    let g3 = grid_after_promo(s, m);
    if let Some(r) = rook_step_of(s, m) {
        lemma_sq_swap(g3, r.row, r.from_x, r.to_x, a, b);
    }
}

/// The capture record after a move: the old record followed by the move's captures, all
/// dated with the move's turn and standing on the board.
proof fn lemma_graveyard_after_move(s: BoardState, m: Move)
    requires wf(s), move_ok(s, m),
    ensures
        ({
            let gy = graveyard_after_move(s, m);
            &&& captures_of(s, m).len() == tombstones_of(s, m)
            &&& gy.len() == s.graveyard.len() + tombstones_of(s, m)
            &&& forall|i: int| 0 <= i < s.graveyard.len() ==> #[trigger] gy[i] == s.graveyard[i]
            &&& forall|i: int| s.graveyard.len() <= i < gy.len() ==> (#[trigger] gy[i]).date == s.counter && on_board(gy[i].position)
        }),
{
    reveal(captures_of);
    reveal(graveyard_after_move);
    let pie = sq(s.grid, m.from.x as int, m.from.y as int).unwrap();
    if pie.piecetype == PieceType::Pawn && ep_victim(s, m) is Some {
        let pos = ep_victim(s, m)->0;
        assert(on_board(pos));
    }
    let cs = captures_of(s, m);
    assert forall|i: int| 0 <= i < cs.len() implies (#[trigger] cs[i]).date == s.counter && on_board(cs[i].position) by {
    }
    let gy = graveyard_after_move(s, m);
    assert forall|i: int| s.graveyard.len() <= i < gy.len() implies (#[trigger] gy[i]).date == s.counter && on_board(gy[i].position) by {
        assert(gy[i] == cs[i - s.graveyard.len()]);
    }
}

/// A move keeps the board's invariant, and its target square is occupied afterwards, so
/// it can be taken back.
#[verifier::spinoff_prover]
pub proof fn lemma_move_piece_wf(s: BoardState, m: Move)
    requires wf(s), move_ok(s, m),
    ensures
        wf(spec_move_piece(s, m)),
        can_go_back(spec_move_piece(s, m)),
        history_ok(s) && move_undoable(s, m) ==> history_ok(spec_move_piece(s, m)),
{
    reveal(spec_move_piece);
    let t = spec_move_piece(s, m);
    lemma_move_squares(s, m, m.to.x as int, m.to.y as int);
    lemma_graveyard_after_move(s, m);
    assert(sq(t.grid, m.to.x as int, m.to.y as int) is Some);
    assert(wf(t));
    if history_ok(s) && move_undoable(s, m) {
        let gy = t.graveyard;
        let n = s.graveyard.len();
        assert forall|i: int, j: int| 0 <= i && i + 2 <= j < gy.len() implies (#[trigger] gy[i]).date < (#[trigger] gy[j]).date by {
            if i < n {
                assert(gy[i] == s.graveyard[i]);
            }
        }
        assert forall|i: int, j: int| 0 <= i < j < gy.len() implies (#[trigger] gy[i]).date <= (#[trigger] gy[j]).date by {
            if i < n {
                assert(gy[i] == s.graveyard[i]);
                if j < n {
                    assert(gy[j] == s.graveyard[j]);
                }
            }
        }
        assert(history_ok(t));
    }
}


proof fn lemma_back_shape(s: BoardState)
    requires wf(s), can_go_back(s),
    ensures grid_shape(grid_after_back(s)),
{
    reveal(grid_after_back);
    reveal(grid_back_step);
    let m = s.moves.last();
    assert(on_board(m.from) && on_board(m.to)) by { assert(on_board(s.moves[s.moves.len() - 1].from)); }
    let pie = sq(s.grid, m.to.x as int, m.to.y as int);
    let g1 = if pie->0.piecetype == PieceType::King {
        match castle_rook(m) { Some(r) => swap_sq(s.grid, r.row, r.from_x, r.to_x), None => s.grid }
    } else {
        s.grid
    };
    if pie->0.piecetype == PieceType::King {
        if let Some(r) = castle_rook(m) {
            lemma_sq_swap(s.grid, r.row, r.from_x, r.to_x, 0, 0);
        }
    }
    lemma_shape_set(g1, m.from.x as int, m.from.y as int, pie);
    lemma_shape_set(set_sq(g1, m.from.x as int, m.from.y as int, pie), m.to.x as int, m.to.y as int, None);
    let gy = s.graveyard;
    let d = gy.len();
    let g2 = grid_back_step(s);
    if restores_first(s) {
        assert(on_board(gy[d - 1].position));
        lemma_shape_set(g2, gy[d - 1].position.x as int, gy[d - 1].position.y as int, Some(gy[d - 1].piece));
    }
    let g3 = if restores_first(s) { put_back(g2, gy[d - 1]) } else { g2 };
    let gy1 = if restores_first(s) { gy.drop_last() } else { gy };
    if restores_second(s) {
        assert(on_board(gy1[d - 2].position)) by { assert(gy1[d - 2] == gy[d - 2]); }
        lemma_shape_set(g3, gy1[d - 2].position.x as int, gy1[d - 2].position.y as int, Some(gy1[d - 2].piece));
    }
}

proof fn lemma_graveyard_after_back(s: BoardState)
    ensures
        graveyard_after_back(s).len() <= s.graveyard.len(),
        forall|i: int| 0 <= i < graveyard_after_back(s).len() ==> #[trigger] graveyard_after_back(s)[i] == s.graveyard[i],
        graveyard_after_back(s) == if restores_first(s) && restores_second(s) { s.graveyard.drop_last().drop_last() }
            else if restores_first(s) || restores_second(s) { s.graveyard.drop_last() } else { s.graveyard },
{
    reveal(graveyard_after_back);
}

/// Taking back a move keeps the board's invariant.
#[verifier::spinoff_prover]
pub proof fn lemma_go_back_wf(s: BoardState)
    requires wf(s), can_go_back(s),
    ensures
        wf(spec_go_back(s)),
        history_ok(s) ==> history_ok(spec_go_back(s)),
{
    reveal(spec_go_back);
    lemma_back_shape(s);
    lemma_graveyard_after_back(s);
    let u = spec_go_back(s);
    assert(grid_shape(u.grid));
    assert(u.counter == s.counter - 1);
    assert(u.moves.len() == u.counter);
    assert forall|i: int| 0 <= i < u.moves.len() implies on_board(#[trigger] u.moves[i].from) && on_board(u.moves[i].to) by {
        assert(u.moves[i] == s.moves[i]);
    }
    assert forall|i: int| 0 <= i < u.graveyard.len() implies on_board(#[trigger] u.graveyard[i].position) by {
        assert(u.graveyard[i] == s.graveyard[i]);
    }
    assert forall|i: int| 0 <= i < u.wkingpos.len() implies king_pos_ok(#[trigger] u.wkingpos[i]) by {
        assert(u.wkingpos[i] == s.wkingpos[i]);
    }
    assert forall|i: int| 0 <= i < u.bkingpos.len() implies king_pos_ok(#[trigger] u.bkingpos[i]) by {
        assert(u.bkingpos[i] == s.bkingpos[i]);
    }
    assert forall|i: int| 0 <= i < u.passants.len() implies (#[trigger] u.passants[i] matches Some(c) ==> 0 <= c < 8) by {
        assert(u.passants[i] == s.passants[i]);
    }
    if history_ok(s) {
        lemma_go_back_history(s);
        assert(u.graveyard == graveyard_after_back(s));
    }
}

#[verifier::spinoff_prover]
proof fn lemma_go_back_history(s: BoardState)
    requires s.counter > 0, dates_ok(s.graveyard, s.counter as int),
    ensures dates_ok(graveyard_after_back(s), s.counter - 1),
{
    lemma_graveyard_after_back(s);
    let gy = s.graveyard;
    let ug = graveyard_after_back(s);
    let d = gy.len();
    let n = ug.len();
    let c = s.counter - 1;
    if n > 0 {
        assert(gy[n - 1].date < c) by {
            if n == d {
                assert(!restores_first(s));
            } else if n == d - 1 {
                if restores_first(s) {
                    assert(!restores_second(s));
                    assert(gy.drop_last()[d - 2] == gy[d - 2]);
                } else {
                    assert(restores_second(s));
                    assert(gy[d - 2].date <= gy[d - 1].date);
                }
            } else {
                assert(gy[d - 3].date < gy[d - 1].date);
            }
        }
    }
    assert forall|i: int| 0 <= i < n implies (#[trigger] ug[i]).date < c by {
        assert(ug[i] == gy[i]);
        if i < n - 1 {
            assert(gy[i].date <= gy[n - 1].date);
        }
    }
    assert forall|i: int, j: int| 0 <= i < j < n implies (#[trigger] ug[i]).date <= (#[trigger] ug[j]).date by {
        assert(ug[i] == gy[i] && ug[j] == gy[j]);
    }
    assert forall|i: int, j: int| 0 <= i && i + 2 <= j < n implies (#[trigger] ug[i]).date < (#[trigger] ug[j]).date by {
        assert(ug[i] == gy[i] && ug[j] == gy[j]);
    }
}

/// The square contents along the stages of taking a move back.
#[verifier::spinoff_prover]
proof fn lemma_back_squares(s: BoardState, a: int, b: int)
    requires
        grid_shape(s.grid), s.counter > 0, s.moves.len() == s.counter,
        on_board(s.moves.last().from), on_board(s.moves.last().to),
        s.graveyard.len() > 0 ==> on_board(s.graveyard.last().position),
        s.graveyard.len() > 1 ==> on_board(s.graveyard[s.graveyard.len() - 2].position),
        0 <= a < 8, 0 <= b < 8,
    ensures
        ({
            let m = s.moves.last();
            let pie = sq(s.grid, m.to.x as int, m.to.y as int);
            let base = if pie->0.piecetype == PieceType::King && castle_rook(m) is Some {
                let r = castle_rook(m)->0;
                if b == r.row && a == r.from_x { sq(s.grid, r.to_x, r.row) }
                else if b == r.row && a == r.to_x { sq(s.grid, r.from_x, r.row) }
                else { sq(s.grid, a, b) }
            } else {
                sq(s.grid, a, b)
            };
            sq(grid_back_step(s), a, b) == if a == m.to.x && b == m.to.y { None }
                else if a == m.from.x && b == m.from.y { pie } else { base }
        }),
        ({
            let gy = s.graveyard;
            let d = gy.len();
            let g2 = grid_back_step(s);
            let g3 = if restores_first(s) { put_back(g2, gy[d - 1]) } else { g2 };
            let gy1 = if restores_first(s) { gy.drop_last() } else { gy };
            &&& sq(g3, a, b) == if restores_first(s) && a == gy[d - 1].position.x && b == gy[d - 1].position.y {
                    Some(gy[d - 1].piece) } else { sq(g2, a, b) }
            &&& sq(grid_after_back(s), a, b) == if restores_second(s) && a == gy1[d - 2].position.x && b == gy1[d - 2].position.y {
                    Some(gy1[d - 2].piece) } else { sq(g3, a, b) }
        }),
{
    reveal(grid_after_back);
    reveal(grid_back_step);
    let m = s.moves.last();
    let pie = sq(s.grid, m.to.x as int, m.to.y as int);
    let g1 = if pie->0.piecetype == PieceType::King {
        match castle_rook(m) { Some(r) => swap_sq(s.grid, r.row, r.from_x, r.to_x), None => s.grid }
    } else {
        s.grid
    };
    if pie->0.piecetype == PieceType::King {
        if let Some(r) = castle_rook(m) {
            lemma_sq_swap(s.grid, r.row, r.from_x, r.to_x, a, b);
        }
    }
    lemma_shape_set(g1, m.from.x as int, m.from.y as int, pie);
    lemma_sq_set(g1, m.from.x as int, m.from.y as int, pie, a, b);
    lemma_sq_set(set_sq(g1, m.from.x as int, m.from.y as int, pie), m.to.x as int, m.to.y as int, None, a, b);
    lemma_shape_set(set_sq(g1, m.from.x as int, m.from.y as int, pie), m.to.x as int, m.to.y as int, None);
    let gy = s.graveyard;
    let d = gy.len();
    let g2 = grid_back_step(s);
    if restores_first(s) {
        assert(on_board(gy[d - 1].position));
        lemma_shape_set(g2, gy[d - 1].position.x as int, gy[d - 1].position.y as int, Some(gy[d - 1].piece));
        lemma_sq_set(g2, gy[d - 1].position.x as int, gy[d - 1].position.y as int, Some(gy[d - 1].piece), a, b);
    }
    let g3 = if restores_first(s) { put_back(g2, gy[d - 1]) } else { g2 };
    let gy1 = if restores_first(s) { gy.drop_last() } else { gy };
    if restores_second(s) {
        assert(on_board(gy1[d - 2].position)) by { assert(gy1[d - 2] == gy[d - 2]); }
        lemma_sq_set(g3, gy1[d - 2].position.x as int, gy1[d - 2].position.y as int, Some(gy1[d - 2].piece), a, b);
    }
}

#[verifier::spinoff_prover]
proof fn lemma_undo_square(s: BoardState, m: Move, a: int, b: int)
    requires wf(s), history_ok(s), move_ok(s, m), move_undoable(s, m), 0 <= a < 8, 0 <= b < 8,
    ensures sq(spec_go_back(spec_move_piece(s, m)).grid, a, b) == sq(s.grid, a, b),
{
    reveal(spec_go_back);
    reveal(spec_move_piece);
    reveal(captures_of);
    reveal(graveyard_after_move);
    lemma_move_piece_wf(s, m);
    let t = spec_move_piece(s, m);
    let c = s.counter;
    let n = s.graveyard.len();
    assert(n > 0 ==> s.graveyard[n - 1].date < c);
    assert(n > 1 ==> s.graveyard[n - 2].date < c);
    assert(t.moves.last() == m);
    lemma_graveyard_after_move(s, m);
    let cs = captures_of(s, m);
    let gy = t.graveyard;
    let d = gy.len();
    assert(cs.len() >= 1 ==> gy[d - 1] == cs[cs.len() - 1]);
    assert(cs.len() == 2 ==> gy[d - 2] == cs[0]);
    assert(restores_first(t) <==> cs.len() >= 1);
    assert(cs.len() == 2 ==> gy.drop_last()[d - 2] == gy[d - 2]);
    assert(restores_second(t) <==> cs.len() == 2);
    lemma_move_squares(s, m, a, b);
    lemma_back_squares(t, a, b);
    let pie = sq(s.grid, m.from.x as int, m.from.y as int).unwrap();
    if pie.piecetype == PieceType::Pawn && ep_victim(s, m) is Some {
        let pos = ep_victim(s, m)->0;
        lemma_move_squares(s, m, pos.x as int, pos.y as int);
    }
    if let Some(rr) = castle_rook(m) {
        lemma_move_squares(s, m, rr.from_x, rr.row);
        lemma_move_squares(s, m, rr.to_x, rr.row);
    }
    lemma_move_squares(s, m, m.to.x as int, m.to.y as int);
    lemma_move_squares(s, m, m.from.x as int, m.from.y as int);
}

/// Taking back a move restores the board it was made on, except that the hash becomes
/// the one recorded in the history for that turn (the hash also carries the castling keys
/// of the last move, which the history does not).
#[verifier::spinoff_prover]
pub proof fn lemma_go_back_undoes_move(s: BoardState, m: Move)
    requires wf(s), history_ok(s), move_ok(s, m), move_undoable(s, m),
    ensures
        can_go_back(spec_move_piece(s, m)),
        spec_go_back(spec_move_piece(s, m)) == with_hash(s, s.hashes[s.counter as int]),
{
    reveal(spec_go_back);
    reveal(spec_move_piece);
    lemma_move_piece_wf(s, m);
    let t = spec_move_piece(s, m);
    let u = spec_go_back(t);
    let c = s.counter;
    let n = s.graveyard.len();
    assert(n > 0 ==> s.graveyard[n - 1].date < c);
    assert(n > 1 ==> s.graveyard[n - 2].date < c);
    assert(t.moves.last() == m);
    lemma_move_squares(s, m, 0, 0);
    assert forall|a: int, b: int| 0 <= a < 8 && 0 <= b < 8 implies #[trigger] sq(u.grid, a, b) == sq(s.grid, a, b) by {
        lemma_undo_square(s, m, a, b);
    }
    lemma_go_back_wf(t);
    lemma_grid_ext(u.grid, s.grid);
    lemma_graveyard_after_move(s, m);
    lemma_graveyard_after_back(t);
    assert(u.graveyard == graveyard_after_back(t));
    let cs = captures_of(s, m);
    let gy = t.graveyard;
    let d = gy.len();
    assert(restores_first(t) <==> cs.len() >= 1);
    assert(cs.len() == 2 ==> gy.drop_last()[d - 2] == gy[d - 2]);
    assert(restores_second(t) <==> cs.len() == 2);
    assert(u.graveyard =~= s.graveyard);
    assert(u.scores =~= s.scores);
    assert(u.moves =~= s.moves);
    assert(u.passants =~= s.passants);
    assert(u.castles =~= s.castles);
    assert(u.wkingpos =~= s.wkingpos);
    assert(u.bkingpos =~= s.bkingpos);
    assert(u.hashes =~= s.hashes);
    assert(u.queens =~= s.queens);
    assert(spec_opposite(spec_opposite(s.color)) == s.color);
}


impl Board {
    /// The square (x, y), as a copy.
    fn get_clone_at(&self, p: &Position) -> (r: Option<Piece>)
        requires on_board(*p),
        ensures r == sq(self@.grid, p.x as int, p.y as int),
    {
        self.grid[p.y][p.x]
    }

    /// The square (x, y).
    pub fn get_reference_at(&self, x: usize, y: usize) -> (r: &Option<Piece>)
        requires x < 8, y < 8,
        ensures *r == sq(self@.grid, x as int, y as int),
    {
        &self.grid[y][x]
    }

    /// Puts `v` on square (x, y); nothing else changes.
    fn set_square(&mut self, x: usize, y: usize, v: Option<Piece>)
        requires x < 8, y < 8,
        ensures final(self)@ == (BoardState { grid: set_sq(old(self)@.grid, x as int, y as int, v), ..old(self)@ }),
    {
        let mut row = self.grid[y];
        row.set(x, v);
        self.grid.set(y, row);
        proof {
            assert(grid_view(self.grid) =~= set_sq(grid_view(old(self).grid), x as int, y as int, v));
        }
    }

    /// The pawn-specific parts of a move: a double step sets the en-passant file, an
    /// en-passant capture removes the pawn passed by, and a promotion replaces the pawn.
    /// Returns the new en-passant file.
    fn handle_pawn_moves(&mut self, m: &Move) -> (passant: Option<i8>)
        requires
            grid_shape(old(self)@.grid), on_board(m.from), on_board(m.to),
            old(self)@.passants.len() == old(self)@.counter + 1,
            old(self)@.passants[old(self)@.counter as int] matches Some(c) ==> 0 <= c < 8,
            sq(old(self)@.grid, m.to.x as int, m.to.y as int) is Some,
            ep_victim(old(self)@, *m) is Some ==>
                sq(old(self)@.grid, ep_victim(old(self)@, *m)->0.x as int, ep_victim(old(self)@, *m)->0.y as int) is Some,
            ep_victim(old(self)@, *m) is Some ==> ep_victim(old(self)@, *m)->0 != m.to,
        ensures
            ({
                let s = old(self)@;
                let z = s.zobrist;
                let double = abs_diff(m.from.y, m.to.y) == 2;
                let h3 = if double { z.hash ^ z.en_passant@[m.from.x as int] } else { z.hash };
                let ep = ep_victim(s, *m);
                let g2 = match ep { Some(pos) => set_sq(s.grid, pos.x as int, pos.y as int, None), None => s.grid };
                let gy1 = match ep {
                    Some(pos) => s.graveyard.push(TombStone { piece: sq(s.grid, pos.x as int, pos.y as int).unwrap(), position: pos, date: s.counter }),
                    None => s.graveyard,
                };
                let h4 = match ep { Some(pos) => h3 ^ piece_key(z, pos.x as int, pos.y as int, sq(s.grid, pos.x as int, pos.y as int).unwrap()), None => h3 };
                let cur = sq(g2, m.to.x as int, m.to.y as int).unwrap();
                let promo = m.promote is Some;
                let g3 = if promo { set_sq(g2, m.to.x as int, m.to.y as int, m.promote) } else { g2 };
                let gy2 = if promo { gy1.push(TombStone { piece: cur, position: m.from, date: s.counter }) } else { gy1 };
                let h5 = if promo { (h4 ^ piece_key(z, m.to.x as int, m.to.y as int, cur)) ^ piece_key(z, m.to.x as int, m.to.y as int, m.promote->0) } else { h4 };
                &&& passant == if double { Some(m.from.x as i8) } else { None::<i8> }
                &&& final(self)@ == (BoardState { grid: g3, graveyard: gy2, zobrist: Zobrist { hash: h5, ..z }, ..s })
            }),
    {
        let ghost s = self@;
        let passant;
        let dy: usize = if m.from.y >= m.to.y { m.from.y - m.to.y } else { m.to.y - m.from.y };
        if dy == 2 {
            passant = Some(m.from.x as i8);
            self.zobrist.update_en_passant(m.from.x);
        } else {
            passant = None;
        }
        if let Some(ps) = self.passants[self.counter] {
            if m.to.x == ps as usize {
                if m.to.y == 2 && self.color_to_move == Color::White {
                    let pos = Position { x: m.to.x, y: 3 };
                    let target = self.get_clone_at(&pos).unwrap();
                    self.graveyard.push(TombStone { piece: target, position: pos, date: self.counter });
                    self.set_square(m.to.x, 3, None);
                    self.zobrist.update_pos(&pos, &target);
                } else if m.to.y == 5 && self.color_to_move == Color::Black {
                    let pos = Position { x: m.to.x, y: 4 };
                    let target = self.get_clone_at(&pos).unwrap();
                    self.graveyard.push(TombStone { piece: target, position: pos, date: self.counter });
                    self.set_square(m.to.x, 4, None);
                    self.zobrist.update_pos(&pos, &target);
                }
            }
        }
        if m.promote.is_some() {
            proof {
                if let Some(pos) = ep_victim(s, *m) {
                    lemma_sq_set(s.grid, pos.x as int, pos.y as int, None, m.to.x as int, m.to.y as int);
                }
            }
            let cur = self.get_reference_at(m.to.x, m.to.y).unwrap();
            self.zobrist.update_pos(&m.to, &cur);
            self.graveyard.push(TombStone { piece: cur, position: m.from, date: self.counter });
            self.set_square(m.to.x, m.to.y, m.promote);
            self.zobrist.update_pos(&m.to, &m.promote.unwrap());
        }
        passant
    }

    /// Moves or, when taking back, returns the rook of a castling king move.
    fn move_rook_if_castling(&mut self, m: &Move, back: bool)
        requires
            grid_shape(old(self)@.grid),
            !back && castle_rook(*m) is Some ==>
                sq(old(self)@.grid, castle_rook(*m)->0.from_x, castle_rook(*m)->0.row) is Some,
        ensures
            ({
                let s = old(self)@;
                let z = s.zobrist;
                match castle_rook(*m) {
                    Some(r) => {
                        let rook = sq(s.grid, r.from_x, r.row).unwrap();
                        let h = if back { z.hash } else { (z.hash ^ piece_key(z, r.from_x, r.row, rook)) ^ piece_key(z, r.to_x, r.row, rook) };
                        final(self)@ == (BoardState { grid: swap_sq(s.grid, r.row, r.from_x, r.to_x), zobrist: Zobrist { hash: h, ..z }, ..s })
                    },
                    None => final(self)@ == s,
                }
            }),
    {
        if m.from.x == 4 && m.from.y == 7 && m.to.x == 6 && m.to.y == 7 {
            self.castle_rook_step(7, 5, 7, back);
        } else if m.from.x == 4 && m.from.y == 7 && m.to.x == 2 && m.to.y == 7 {
            self.castle_rook_step(0, 3, 7, back);
        } else if m.from.x == 4 && m.from.y == 0 && m.to.x == 6 && m.to.y == 0 {
            self.castle_rook_step(7, 5, 0, back);
        } else if m.from.x == 4 && m.from.y == 0 && m.to.x == 2 && m.to.y == 0 {
            self.castle_rook_step(0, 3, 0, back);
        }
    }

    /// Swaps squares (a, y) and (b, y); going forward, the rook on (a, y) is rehashed on (b, y).
    fn castle_rook_step(&mut self, a: usize, b: usize, y: usize, back: bool)
        requires
            grid_shape(old(self)@.grid), a < 8, b < 8, y < 8, a != b,
            !back ==> sq(old(self)@.grid, a as int, y as int) is Some,
        ensures
            ({
                let s = old(self)@;
                let z = s.zobrist;
                let rook = sq(s.grid, a as int, y as int).unwrap();
                let h = if back { z.hash } else { (z.hash ^ piece_key(z, a as int, y as int, rook)) ^ piece_key(z, b as int, y as int, rook) };
                final(self)@ == (BoardState { grid: swap_sq(s.grid, y as int, a as int, b as int), zobrist: Zobrist { hash: h, ..z }, ..s })
            }),
    {
        let pa = self.grid[y][a];
        let pb = self.grid[y][b];
        if !back {
            let rook = pa.unwrap();
            self.zobrist.update_xy(a, y, &rook);
            self.zobrist.update_xy(b, y, &rook);
        }
        self.set_square(a, y, pb);
        self.set_square(b, y, pa);
    }

    /// Records the castling rights after move `m` and toggles the keys of the rights it loses.
    fn update_castle(&mut self, m: &Move)
        requires old(self)@.castles.len() == old(self)@.counter + 1,
        ensures
            ({
                let s = old(self)@;
                let cr = s.castles[s.counter as int];
                let nc = next_castle(cr, *m);
                final(self)@ == (BoardState {
                    castles: s.castles.push(nc),
                    zobrist: Zobrist { hash: spec_castle_toggle(s.zobrist, s.zobrist.hash, (cr.0 != nc.0, cr.1 != nc.1, cr.2 != nc.2, cr.3 != nc.3)), ..s.zobrist },
                    ..s
                })
            }),
    {
        let c = self.castles[self.counter];
        let e1 = Position { x: 4, y: 7 };
        let e8 = Position { x: 4, y: 0 };
        let a1 = Position { x: 0, y: 7 };
        let a8 = Position { x: 0, y: 0 };
        let h1 = Position { x: 7, y: 7 };
        let h8 = Position { x: 7, y: 0 };
        let next = (c.0 && m.from != e1 && m.from != h1 && m.to != h1,
                    c.1 && m.from != e1 && m.from != a1 && m.to != a1,
                    c.2 && m.from != e8 && m.from != h8 && m.to != h8,
                    c.3 && m.from != e8 && m.from != a8 && m.to != a8);
        self.zobrist.update_castle((c.0 != next.0, c.1 != next.1, c.2 != next.2, c.3 != next.3));
        self.castles.push(next);
    }

    /// Makes move `m`: the piece on `m.from` goes to `m.to`, capturing what stands there;
    /// pawns may capture en passant and promote, a king's castling move takes its rook along;
    /// every history is extended by one turn and the side to move changes.
    #[verifier::spinoff_prover]
    #[verifier::rlimit(40)]
    pub fn move_piece(&mut self, m: &Move)
        requires wf(old(self)@), move_ok(old(self)@, *m),
        ensures
            final(self)@ == spec_move_piece(old(self)@, *m),
            wf(final(self)@),
            can_go_back(final(self)@),
    {
        let ghost s0 = self@;
        proof {
            lemma_move_piece_wf(s0, *m);
            lemma_move_squares(s0, *m, 0, 0);
        }
        let pie = self.get_clone_at(&m.from).unwrap();
        let mut queens = self.queens[self.counter];
        if let Some(target) = self.get_clone_at(&m.to) {
            if target.piecetype == PieceType::Queen {
                queens -= 1;
            }
            self.zobrist.update_pos(&m.to, &target);
            self.graveyard.push(TombStone { piece: target, position: m.to, date: self.counter });
        }
        self.set_square(m.from.x, m.from.y, None);
        self.set_square(m.to.x, m.to.y, Some(pie));
        self.zobrist.update_pos(&m.from, &pie);
        self.zobrist.update_pos(&m.to, &pie);
        // the en-passant key of the previous turn leaves the hash
        if let Some(ps) = self.passants[self.counter] {
            self.zobrist.update_en_passant(ps as usize);
        }
        let ghost s1 = self@;
        proof {
            assert(s1.grid == grid_after_step(s0, *m));
            if pie.piecetype == PieceType::Pawn && ep_victim(s0, *m) is Some {
                let pos = ep_victim(s0, *m)->0;
                lemma_move_squares(s0, *m, pos.x as int, pos.y as int);
            }
            lemma_move_squares(s0, *m, m.to.x as int, m.to.y as int);
            assert(ep_victim(s1, *m) == ep_victim(s0, *m));
        }
        let passant;
        if pie.piecetype == PieceType::Pawn {
            passant = self.handle_pawn_moves(m);
        } else {
            passant = None;
        }
        let ghost s2 = self@;
        proof {
            reveal(grid_after_ep);
            reveal(grid_after_promo);
            reveal(captures_of);
            reveal(graveyard_after_move);
            reveal(hash_after_pieces);
            assert(s2.grid == grid_after_promo(s0, *m));
            if let Some(r) = rook_step_of(s0, *m) {
                lemma_move_squares(s0, *m, r.from_x, r.row);
            }
        }
        if pie.piecetype == PieceType::King {
            self.move_rook_if_castling(m, false);
        }
        proof {
            reveal(grid_after_move);
            assert(self@.grid == grid_after_move(s0, *m));
            assert(self@.zobrist.hash == hash_after_pieces(s0, *m));
            assert(self.graveyard@ =~= graveyard_after_move(s0, *m));
        }
        if pie.piecetype == PieceType::King {
            if self.color_to_move == Color::White {
                self.wkingpos.push(m.to);
                let b = self.bkingpos[self.counter];
                self.bkingpos.push(b);
            } else {
                self.bkingpos.push(m.to);
                let w = self.wkingpos[self.counter];
                self.wkingpos.push(w);
            }
        } else {
            let w = self.wkingpos[self.counter];
            self.wkingpos.push(w);
            let b = self.bkingpos[self.counter];
            self.bkingpos.push(b);
        }
        self.queens.push(queens);
        self.zobrist.swap_sides();
        let h = self.zobrist.hash();
        self.hashes.push(h);
        let sc = self.scores[self.counter] + m.heuristic_value();
        self.scores.push(sc);
        self.update_castle(m);
        self.passants.push(passant);
        self.moves.push(*m);
        self.counter += 1;
        self.color_to_move = self.color_to_move.opposite();
        proof {
            reveal(spec_move_piece);
            assert(self@ == spec_move_piece(s0, *m));
        }
    }

    /// Takes the last move back: the mover (and a castling rook) returns, the pieces
    /// captured on that turn come back, and every history loses its last turn.
    pub fn go_back(&mut self)
        requires wf(old(self)@), can_go_back(old(self)@),
        ensures
            final(self)@ == spec_go_back(old(self)@),
            wf(final(self)@),
            history_ok(old(self)@) ==> history_ok(final(self)@),
    {
        let ghost s0 = self@;
        proof {
            lemma_go_back_wf(s0);
            lemma_back_squares(s0, 0, 0);
            reveal(spec_go_back);
            reveal(grid_after_back);
            reveal(grid_back_step);
            reveal(graveyard_after_back);
        }
        let m = self.moves.pop().expect("Cannot go further back!");
        self.queens.pop();
        self.hashes.pop();
        self.scores.pop();
        self.castles.pop();
        self.wkingpos.pop();
        self.bkingpos.pop();
        self.counter -= 1;
        let h = self.hashes[self.counter];
        self.zobrist.set_hash(h);
        self.color_to_move = self.color_to_move.opposite();
        self.passants.pop();
        proof {
            assert(on_board(m.from) && on_board(m.to)) by { assert(on_board(s0.moves[s0.moves.len() - 1].from)); }
        }
        let pie = self.get_clone_at(&m.to);
        if pie.unwrap().piecetype == PieceType::King {
            self.move_rook_if_castling(&m, true);
        }
        proof {
            if let Some(r) = castle_rook(m) {
                lemma_sq_swap(s0.grid, r.row, r.from_x, r.to_x, 0, 0);
            }
        }
        self.set_square(m.from.x, m.from.y, pie);
        proof {
            lemma_shape_set(self@.grid, m.from.x as int, m.from.y as int, pie);
        }
        self.set_square(m.to.x, m.to.y, None);
        let ghost g2 = self@.grid;
        proof {
            assert(g2 == grid_back_step(s0));
            lemma_shape_set(set_sq(self@.grid, m.from.x as int, m.from.y as int, pie), m.to.x as int, m.to.y as int, None);
        }
        let d = self.graveyard.len();
        if d > 0 {
            let ts = self.graveyard[d - 1];
            if ts.date == self.counter {
                proof { assert(on_board(s0.graveyard[d - 1].position)); }
                self.set_square(ts.position.x, ts.position.y, Some(ts.piece));
                self.graveyard.pop();
            }
            if d > 1 {
                let ts2 = self.graveyard[d - 2];
                if ts2.date == self.counter {
                    proof {
                        assert(on_board(s0.graveyard[d - 2].position));
                        assert(s0.graveyard[d - 2] == ts2);
                        lemma_back_shape(s0);
                        if restores_first(s0) {
                            lemma_shape_set(g2, s0.graveyard[d - 1].position.x as int, s0.graveyard[d - 1].position.y as int, Some(s0.graveyard[d - 1].piece));
                        }
                    }
                    self.set_square(ts2.position.x, ts2.position.y, Some(ts2.piece));
                    self.graveyard.pop();
                }
            }
        }
        proof {
            assert(self.graveyard@ =~= graveyard_after_back(s0));
            assert(self@ == spec_go_back(s0));
        }
    }
}

/// Whether a ray's first piece threatens along a rank or file.
fn line_hit_threatens(hit: Option<(Piece, bool)>, color: Color) -> (r: bool)
    ensures r == line_threat(hit, color),
{
    match hit {
        Some((p, first)) => p.color == color && (p.piecetype == PieceType::Rook || p.piecetype == PieceType::Queen
            || (p.piecetype == PieceType::King && first)),
        None => false,
    }
}

/// Whether a ray's first piece threatens along a diagonal.
fn diag_hit_threatens(hit: Option<(Piece, bool)>, color: Color, pawn_color: Color) -> (r: bool)
    ensures r == diag_threat(hit, color, pawn_color),
{
    match hit {
        Some((p, first)) => p.color == color && (p.piecetype == PieceType::Bishop || p.piecetype == PieceType::Queen
            || (p.piecetype == PieceType::King && first) || (p.piecetype == PieceType::Pawn && p.color == pawn_color && first)),
        None => false,
    }
}

impl Board {
    /// The first piece met walking from (x0, y0) in steps of (dx, dy), and whether it stood
    /// on the first step; `None` once the walk leaves the board.
    fn first_hit(&self, x0: i8, y0: i8, dx: i8, dy: i8) -> (r: Option<(Piece, bool)>)
        requires
            grid_shape(self@.grid),
            -126 <= x0 <= 125, -126 <= y0 <= 125,
            -1 <= dx <= 1, -1 <= dy <= 1, dx != 0 || dy != 0,
        ensures r == ray_hit(self@.grid, x0 as int, y0 as int, dx as int, dy as int, 16, true),
    {
        let mut x = x0;
        let mut y = y0;
        let mut first = true;
        let ghost mut n: nat = 16;
        loop
            invariant
                grid_shape(self@.grid), n <= 16,
                -126 <= x0 <= 125, -126 <= y0 <= 125,
                -1 <= dx <= 1, -1 <= dy <= 1, dx != 0 || dy != 0,
                first <==> n == 16,
                n == 16 ==> x == x0 && y == y0,
                n < 16 ==> in_bounds(x as int, y as int) && in_bounds(x0 + dx, y0 + dy),
                dx == 1 ==> x == x0 + (16 - n), dx == -1 ==> x == x0 - (16 - n), dx == 0 ==> x == x0,
                dy == 1 ==> y == y0 + (16 - n), dy == -1 ==> y == y0 - (16 - n), dy == 0 ==> y == y0,
                ray_hit(self@.grid, x0 as int, y0 as int, dx as int, dy as int, 16, true)
                    == ray_hit(self@.grid, x as int, y as int, dx as int, dy as int, n, first),
            decreases n,
        {
            let nx = x + dx;
            let ny = y + dy;
            if nx < 0 || nx >= 8 || ny < 0 || ny >= 8 {
                return None;
            }
            assert(n > 0);
            if let Some(p) = self.get_reference_at(nx as usize, ny as usize) {
                return Some((*p, first));
            }
            x = nx;
            y = ny;
            first = false;
            proof { n = (n - 1) as nat; }
        }
    }

    /// Whether a knight of `color` stands a knight's jump (dx, dy) away from (x, y).
    fn knight_on(&self, x: i8, y: i8, dx: i8, dy: i8, color: Color) -> (r: bool)
        requires grid_shape(self@.grid), -126 <= x <= 125, -126 <= y <= 125, -2 <= dx <= 2, -2 <= dy <= 2,
        ensures r == knight_at(self@.grid, x as int, y as int, dx as int, dy as int, color),
    {
        let tx = x + dx;
        let ty = y + dy;
        if tx < 0 || tx >= 8 || ty < 0 || ty >= 8 {
            return false;
        }
        match self.get_reference_at(tx as usize, ty as usize) {
            Some(p) => p.piecetype == PieceType::Knight && p.color == color,
            None => false,
        }
    }

    /// Whether a piece of `color` attacks or guards square `pos`.
    pub fn is_threatened_by(&self, pos: &Position, color: Color) -> (r: bool)
        requires grid_shape(self@.grid), threat_pos_ok(*pos),
        ensures r == spec_is_threatened_by(self@.grid, *pos, color),
    {
        let x = pos.x as i8;
        let y = pos.y as i8;
        if self.knight_on(x, y, 1, 2, color) || self.knight_on(x, y, 2, 1, color)
            || self.knight_on(x, y, 2, -1, color) || self.knight_on(x, y, 1, -2, color)
            || self.knight_on(x, y, -1, -2, color) || self.knight_on(x, y, -2, -1, color)
            || self.knight_on(x, y, -2, 1, color) || self.knight_on(x, y, -1, 2, color) {
            return true;
        }
        if line_hit_threatens(self.first_hit(x, y, 0, -1), color) || line_hit_threatens(self.first_hit(x, y, 1, 0), color)
            || line_hit_threatens(self.first_hit(x, y, 0, 1), color) || line_hit_threatens(self.first_hit(x, y, -1, 0), color) {
            return true;
        }
        diag_hit_threatens(self.first_hit(x, y, 1, 1), color, Color::White)
            || diag_hit_threatens(self.first_hit(x, y, -1, 1), color, Color::White)
            || diag_hit_threatens(self.first_hit(x, y, 1, -1), color, Color::Black)
            || diag_hit_threatens(self.first_hit(x, y, -1, -1), color, Color::Black)
    }

    /// Whether the opponent of the side to move attacks or guards square `pos`.
    pub fn is_threatened(&self, pos: &Position) -> (r: bool)
        requires wf(self@), threat_pos_ok(*pos),
        ensures r == spec_is_threatened_by(self@.grid, *pos, spec_opposite(self@.color)),
    {
        self.is_threatened_by(pos, self.color_to_move.opposite())
    }
}

impl Board {
    /// The moves of a knight, or of a king whose own square has been emptied, from (x, y):
    /// one step in each of its directions, onto an empty square or onto an enemy piece.
    fn step_moves(&self, x: usize, y: usize, p: &Piece) -> (r: Moves)
        requires
            grid_shape(self@.grid), x < 8, y < 8,
            p.piecetype == PieceType::Knight || p.piecetype == PieceType::King,
        ensures
            r.0@ == step_moves(self@.grid, self@.color, x as int, y as int, *p, spec_directions(*p)),
            forall|k: int| 0 <= k < r.0@.len() ==> (#[trigger] r.0@[k]).from == (Position { x, y }) && on_board(r.0@[k].to),
    {
        let mut ret = Moves::new();
        let color = self.color_to_move;
        let dirs = p.directions();
        let from_pos = Position { x, y };
        proof { lemma_value_bounds(*p, from_pos); }
        let from_value = p.value_at(&from_pos);
        let mut i: usize = 0;
        while i < dirs.len()
            invariant
                grid_shape(self@.grid), x < 8, y < 8, color == self@.color,
                p.piecetype == PieceType::Knight || p.piecetype == PieceType::King,
                dirs@ == spec_directions(*p), i <= dirs@.len(),
                from_pos == (Position { x, y }), from_value == spec_value_at(*p, from_pos),
                -200 < from_value < 200,
                ret.0@ == step_moves(self@.grid, color, x as int, y as int, *p, dirs@.take(i as int)),
                forall|k: int| 0 <= k < ret.0@.len() ==> (#[trigger] ret.0@[k]).from == from_pos && on_board(ret.0@[k].to),
            decreases dirs@.len() - i,
        {
            let dir = dirs[i];
            proof {
                lemma_direction_bounds(*p, i as int);
                assert(dirs@.take(i as int + 1).drop_last() =~= dirs@.take(i as int));
                assert(dirs@.take(i as int + 1).last() == dir);
            }
            let to_x = x as i8 + dir.0;
            let to_y = y as i8 + dir.1;
            if to_x >= 0 && to_x <= 7 && to_y >= 0 && to_y <= 7 {
                let to_pos = Position { x: to_x as usize, y: to_y as usize };
                proof { lemma_value_bounds(*p, to_pos); }
                match self.get_reference_at(to_x as usize, to_y as usize) {
                    Some(t) => {
                        if t.color != color {
                            proof { lemma_value_bounds(*t, to_pos); }
                            ret.push(Move::new(x, y, to_x as usize, to_y as usize, None,
                                -t.combined_value_at(&to_pos) + p.value_at(&to_pos) - from_value));
                        }
                    },
                    None => {
                        ret.push(Move::new(x, y, to_x as usize, to_y as usize, None, p.value_at(&to_pos) - from_value));
                    },
                }
            }
            i += 1;
        }
        proof { assert(dirs@.take(dirs@.len() as int) =~= dirs@); }
        ret
    }

    /// The moves of king `p` on (x, y): its square is emptied while they are generated, so
    /// that it cannot hide behind itself, and filled again afterwards.
    fn king_moves(&mut self, x: usize, y: usize, p: &Piece) -> (r: Moves)
        requires
            grid_shape(old(self)@.grid), x < 8, y < 8, p.piecetype == PieceType::King,
            sq(old(self)@.grid, x as int, y as int) == Some(*p),
        ensures
            final(self)@ == old(self)@,
            r.0@ == step_moves(set_sq(old(self)@.grid, x as int, y as int, None), old(self)@.color, x as int, y as int, *p, spec_directions(*p)),
            forall|k: int| 0 <= k < r.0@.len() ==> (#[trigger] r.0@[k]).from == (Position { x, y }) && on_board(r.0@[k].to),
    {
        let ghost g = self@.grid;
        self.set_square(x, y, None);
        proof { lemma_shape_set(g, x as int, y as int, None); }
        let ret = self.step_moves(x, y, p);
        self.set_square(x, y, Some(*p));
        proof {
            lemma_shape_set(set_sq(g, x as int, y as int, None), x as int, y as int, Some(*p));
            assert forall|a: int, b: int| 0 <= a < 8 && 0 <= b < 8 implies #[trigger] sq(self@.grid, a, b) == sq(g, a, b) by {
                lemma_sq_set(g, x as int, y as int, None, a, b);
                lemma_sq_set(set_sq(g, x as int, y as int, None), x as int, y as int, Some(*p), a, b);
            }
            lemma_grid_ext(self@.grid, g);
        }
        ret
    }

    /// The moves of a sliding piece `p` from (x, y) along (dx, dy): every empty square up
    /// to the first piece, and that piece's square when it is an enemy.
    #[verifier::spinoff_prover]
    fn ray_moves(&self, x: usize, y: usize, p: &Piece, from_value: Score, dx: i8, dy: i8) -> (r: Moves)
        requires
            grid_shape(self@.grid), x < 8, y < 8,
            -1 <= dx <= 1, -1 <= dy <= 1, dx != 0 || dy != 0,
            from_value == spec_value_at(*p, Position { x, y }), -200 < from_value < 200,
        ensures
            r.0@ == ray_moves(self@.grid, self@.color, x as int, y as int, *p, x as int, y as int, dx as int, dy as int, 8),
            forall|k: int| 0 <= k < r.0@.len() ==> (#[trigger] r.0@[k]).from == (Position { x, y }) && on_board(r.0@[k].to),
    {
        let mut ret = Moves::new();
        let color = self.color_to_move;
        let mut to_x = x as i8 + dx;
        let mut to_y = y as i8 + dy;
        let ghost mut n: nat = 8;
        let ghost mut cx: int = x as int;
        let ghost mut cy: int = y as int;
        let ghost total = ray_moves(self@.grid, color, x as int, y as int, *p, x as int, y as int, dx as int, dy as int, 8);
        assert(ret.0@ + total =~= total);
        loop
            invariant
                grid_shape(self@.grid), x < 8, y < 8, color == self@.color,
                -1 <= dx <= 1, -1 <= dy <= 1, dx != 0 || dy != 0,
                from_value == spec_value_at(*p, Position { x, y }), -200 < from_value < 200,
                n <= 8, to_x == cx + dx, to_y == cy + dy,
                dx == 1 ==> cx == x + (8 - n), dx == -1 ==> cx == x - (8 - n), dx == 0 ==> cx == x,
                dy == 1 ==> cy == y + (8 - n), dy == -1 ==> cy == y - (8 - n), dy == 0 ==> cy == y,
                0 <= cx < 8, 0 <= cy < 8,
                total == ray_moves(self@.grid, color, x as int, y as int, *p, x as int, y as int, dx as int, dy as int, 8),
                total == ret.0@ + ray_moves(self@.grid, color, x as int, y as int, *p, cx, cy, dx as int, dy as int, n),
                forall|k: int| 0 <= k < ret.0@.len() ==> (#[trigger] ret.0@[k]).from == (Position { x, y }) && on_board(ret.0@[k].to),
            decreases n,
        {
            if to_x < 0 || to_x > 7 || to_y < 0 || to_y > 7 {
                proof {
                    assert(ray_moves(self@.grid, color, x as int, y as int, *p, cx, cy, dx as int, dy as int, n) =~= Seq::<Move>::empty());
                    assert(ret.0@ + Seq::<Move>::empty() =~= ret.0@);
                }
                return ret;
            }
            assert(n > 0);
            let to_pos = Position { x: to_x as usize, y: to_y as usize };
            proof { lemma_value_bounds(*p, to_pos); }
            match self.get_reference_at(to_x as usize, to_y as usize) {
                Some(t) => {
                    if t.color != color {
                        proof { lemma_value_bounds(*t, to_pos); }
                        ret.push(Move::new(x, y, to_x as usize, to_y as usize, None,
                            -t.combined_value_at(&to_pos) + p.value_at(&to_pos) - from_value));
                    } else {
                        proof { assert(ret.0@ + Seq::<Move>::empty() =~= ret.0@); }
                    }
                    return ret;
                },
                None => {},
            }
            let mv = Move::new(x, y, to_x as usize, to_y as usize, None, p.value_at(&to_pos) - from_value);
            proof {
                let rest = ray_moves(self@.grid, color, x as int, y as int, *p, to_x as int, to_y as int, dx as int, dy as int, (n - 1) as nat);
                lemma_push_then_add(ret.0@, mv, rest);
                cx = to_x as int;
                cy = to_y as int;
                n = (n - 1) as nat;
            }
            ret.push(mv);
            to_x = to_x + dx;
            to_y = to_y + dy;
        }
    }

    /// The moves of a rook, bishop or queen from (x, y), direction by direction.
    fn running_moves(&self, x: usize, y: usize, p: &Piece) -> (r: Moves)
        requires grid_shape(self@.grid), x < 8, y < 8, spec_can_run(*p),
        ensures
            r.0@ == running_moves(self@.grid, self@.color, x as int, y as int, *p, spec_directions(*p)),
            forall|k: int| 0 <= k < r.0@.len() ==> (#[trigger] r.0@[k]).from == (Position { x, y }) && on_board(r.0@[k].to),
    {
        let mut ret = Moves::new();
        let from_pos = Position { x, y };
        proof { lemma_value_bounds(*p, from_pos); }
        let from_value = p.value_at(&from_pos);
        let dirs = p.directions();
        let mut i: usize = 0;
        while i < dirs.len()
            invariant
                grid_shape(self@.grid), x < 8, y < 8, spec_can_run(*p),
                dirs@ == spec_directions(*p), i <= dirs@.len(),
                from_value == spec_value_at(*p, Position { x, y }), -200 < from_value < 200,
                ret.0@ == running_moves(self@.grid, self@.color, x as int, y as int, *p, dirs@.take(i as int)),
                forall|k: int| 0 <= k < ret.0@.len() ==> (#[trigger] ret.0@[k]).from == (Position { x, y }) && on_board(ret.0@[k].to),
            decreases dirs@.len() - i,
        {
            let dir = dirs[i];
            proof {
                lemma_direction_bounds(*p, i as int);
                assert(dirs@.take(i as int + 1).drop_last() =~= dirs@.take(i as int));
                assert(dirs@.take(i as int + 1).last() == dir);
            }
            let mut ms = self.ray_moves(x, y, p, from_value, dir.0, dir.1);
            ret.append(&mut ms);
            i += 1;
        }
        proof { assert(dirs@.take(dirs@.len() as int) =~= dirs@); }
        ret
    }
}

proof fn lemma_push_then_add(a: Seq<Move>, m: Move, b: Seq<Move>)
    ensures a + (seq![m] + b) == a.push(m) + b,
{
    assert(a + (seq![m] + b) =~= a.push(m) + b);
}

/// The moves of pawn `p` from (x, y) arriving on (tx, ty) and removing a piece worth
/// `taken`: promotions to queen, knight, bishop and rook on a last row, the plain move elsewhere.
fn pawn_arrivals(x: usize, y: usize, p: &Piece, tx: usize, ty: usize, taken: Score) -> (r: Moves)
    requires x < 8, y < 8, tx < 8, ty < 8, -1300 < taken < 1300,
    ensures
        r.0@ == pawn_arrival(x as int, y as int, tx as int, ty as int, *p, taken as int),
        forall|k: int| 0 <= k < r.0@.len() ==> (#[trigger] r.0@[k]).from == (Position { x, y }) && on_board(r.0@[k].to),
{
    let mut ret = Moves::new();
    let from_pos = Position { x, y };
    let to_pos = Position { x: tx, y: ty };
    proof { lemma_value_bounds(*p, from_pos); lemma_value_bounds(*p, to_pos); }
    if ty == 0 || ty == 7 {
        let (q, n, b, r) = if ty == 0 {
            (Piece::new('Q').unwrap(), Piece::new('N').unwrap(), Piece::new('B').unwrap(), Piece::new('R').unwrap())
        } else {
            (Piece::new('q').unwrap(), Piece::new('n').unwrap(), Piece::new('b').unwrap(), Piece::new('r').unwrap())
        };
        proof {
            lemma_value_bounds(q, to_pos);
            lemma_value_bounds(n, to_pos);
            lemma_value_bounds(b, to_pos);
            lemma_value_bounds(r, to_pos);
        }
        ret.push(Move::new(x, y, tx, ty, Some(q), q.combined_value_at(&to_pos) - p.combined_value_at(&from_pos) - taken));
        ret.push(Move::new(x, y, tx, ty, Some(n), n.combined_value_at(&to_pos) - p.combined_value_at(&from_pos) - taken));
        ret.push(Move::new(x, y, tx, ty, Some(b), b.combined_value_at(&to_pos) - p.combined_value_at(&from_pos) - taken));
        ret.push(Move::new(x, y, tx, ty, Some(r), r.combined_value_at(&to_pos) - p.combined_value_at(&from_pos) - taken));
    } else {
        ret.push(Move::new(x, y, tx, ty, None, p.value_at(&to_pos) - p.value_at(&from_pos) - taken));
    }
    proof {
        assert(ret.0@ =~= pawn_arrival(x as int, y as int, tx as int, ty as int, *p, taken as int));
    }
    ret
}

impl Board {
    /// The moves of pawn `p` on (x, y) in direction (dx, dy): for dx == 0 the push, the
    /// double push from the start row and the promotions; otherwise the capture in that
    /// direction, promotions and en passant included.
    fn pawn_steps(&self, x: usize, y: usize, p: &Piece, dx: i8, dy: i8) -> (r: Moves)
        requires
            wf(self@), x < 8, y < 8, p.piecetype == PieceType::Pawn, p.color == self@.color,
            sq(self@.grid, x as int, y as int) == Some(*p),
            -1 <= dx <= 1, dy == (if p.color == Color::White { -1i8 } else { 1i8 }),
            p.color == Color::White ==> y != 0, p.color == Color::Black ==> y != 7,
            ep_square_ok(self@),
        ensures
            r.0@ == pawn_dir_moves(self@, x as int, y as int, *p, dx as int, dy as int),
            forall|k: int| 0 <= k < r.0@.len() ==> (#[trigger] r.0@[k]).from == (Position { x, y }) && on_board(r.0@[k].to),
    {
        if dx == 0 {
            self.pawn_push(x, y, p, dy)
        } else {
            self.pawn_capture(x, y, p, dx, dy)
        }
    }

    /// The push of pawn `p`: one square forward (four promotions on the last row), and two
    /// squares from the start row when both are empty.
    #[verifier::spinoff_prover]
    fn pawn_push(&self, x: usize, y: usize, p: &Piece, dy: i8) -> (r: Moves)
        requires
            wf(self@), x < 8, y < 8, p.piecetype == PieceType::Pawn, p.color == self@.color,
            sq(self@.grid, x as int, y as int) == Some(*p),
            dy == (if p.color == Color::White { -1i8 } else { 1i8 }),
            p.color == Color::White ==> y != 0, p.color == Color::Black ==> y != 7,
            ep_square_ok(self@),
        ensures
            r.0@ == pawn_dir_moves(self@, x as int, y as int, *p, 0, dy as int),
            forall|k: int| 0 <= k < r.0@.len() ==> (#[trigger] r.0@[k]).from == (Position { x, y }) && on_board(r.0@[k].to),
    {
        let mut ret = Moves::new();
        let color = self.color_to_move;
        let from_pos = Position { x, y };
        proof { lemma_value_bounds(*p, from_pos); }
        let from_value = p.value_at(&from_pos);
        let to_y = y as i8 + dy;
        if to_y < 8 && to_y >= 0 && self.get_reference_at(x, to_y as usize).is_none() {
            let to_pos = Position { x, y: to_y as usize };
            proof { lemma_value_bounds(*p, to_pos); }
            ret = pawn_arrivals(x, y, p, x, to_y as usize, 0);
            if y == 6 && color == Color::White && self.get_reference_at(x, (to_y - 1) as usize).is_none() {
                let two = Position { x, y: (to_y - 1) as usize };
                proof { lemma_value_bounds(*p, two); }
                ret.push(Move::new(x, y, x, (to_y - 1) as usize, None, p.value_at(&two) - from_value));
            } else if y == 1 && color == Color::Black && self.get_reference_at(x, (to_y + 1) as usize).is_none() {
                let two = Position { x, y: (to_y + 1) as usize };
                proof { lemma_value_bounds(*p, two); }
                ret.push(Move::new(x, y, x, (to_y + 1) as usize, None, p.value_at(&two) - from_value));
            }
        }
        ret
    }

    /// The diagonal capture of pawn `p` toward file x + dx: an enemy piece (four promotions
    /// on the last row), or the pawn passed by en passant.
    fn pawn_capture(&self, x: usize, y: usize, p: &Piece, dx: i8, dy: i8) -> (r: Moves)
        requires
            wf(self@), x < 8, y < 8, p.piecetype == PieceType::Pawn, p.color == self@.color,
            sq(self@.grid, x as int, y as int) == Some(*p),
            dx == -1 || dx == 1, dy == (if p.color == Color::White { -1i8 } else { 1i8 }),
            p.color == Color::White ==> y != 0, p.color == Color::Black ==> y != 7,
            ep_square_ok(self@),
        ensures
            r.0@ == pawn_dir_moves(self@, x as int, y as int, *p, dx as int, dy as int),
            forall|k: int| 0 <= k < r.0@.len() ==> (#[trigger] r.0@[k]).from == (Position { x, y }) && on_board(r.0@[k].to),
    {
        let to_y = y as i8 + dy;
        let to_x = x as i8 + dx;
        if to_x >= 0 && to_x < 8 {
            match *self.get_reference_at(to_x as usize, to_y as usize) {
                Some(t) => {
                    if t.color != self.color_to_move {
                        let to_pos = Position { x: to_x as usize, y: to_y as usize };
                        proof { lemma_value_bounds(t, to_pos); }
                        pawn_arrivals(x, y, p, to_x as usize, to_y as usize, t.combined_value_at(&to_pos))
                    } else {
                        Moves::new()
                    }
                },
                None => self.pawn_en_passant(x, y, p, to_x, to_y),
            }
        } else {
            Moves::new()
        }
    }

    /// The en-passant capture of pawn `p` onto the empty square (tx, ty), when the pawn
    /// that just made a double step stands beside it on file tx.
    #[verifier::spinoff_prover]
    fn pawn_en_passant(&self, x: usize, y: usize, p: &Piece, tx: i8, ty: i8) -> (r: Moves)
        requires
            wf(self@), x < 8, y < 8, p.piecetype == PieceType::Pawn, p.color == self@.color,
            sq(self@.grid, x as int, y as int) == Some(*p),
            tx == x + 1 || tx == x - 1, 0 <= tx < 8,
            ty == y + (if p.color == Color::White { -1int } else { 1int }), 0 <= ty < 8,
            sq(self@.grid, tx as int, ty as int) is None,
            ep_square_ok(self@),
        ensures
            r.0@ == (match self@.passants[self@.counter as int] {
                Some(c) => if c == tx && ((self@.color == Color::White && y == 3) || (self@.color == Color::Black && y == 4)) {
                    seq![spec_move(x as int, y as int, tx as int, ty as int, None,
                        spec_value_at(*p, Position { x: tx as usize, y: ty as usize }) - spec_value_at(*p, Position { x, y })
                        - spec_combined_value_at(sq(self@.grid, c as int, y as int).unwrap(), Position { x: c as usize, y }))]
                } else {
                    Seq::<Move>::empty()
                },
                None => Seq::<Move>::empty(),
            }),
            forall|k: int| 0 <= k < r.0@.len() ==> (#[trigger] r.0@[k]).from == (Position { x, y }) && on_board(r.0@[k].to),
    {
        let mut ret = Moves::new();
        let color = self.color_to_move;
        match self.passants[self.counter] {
            Some(c) => {
                if c == tx && ((color == Color::White && y == 3) || (color == Color::Black && y == 4)) {
                    let from_pos = Position { x, y };
                    let to_pos = Position { x: tx as usize, y: ty as usize };
                    let passant_pos = Position { x: c as usize, y };
                    let victim = (*self.get_reference_at(c as usize, y)).unwrap();
                    proof {
                        lemma_value_bounds(*p, from_pos);
                        lemma_value_bounds(*p, to_pos);
                        lemma_value_bounds(victim, passant_pos);
                    }
                    ret.push(Move::new(x, y, tx as usize, ty as usize, None,
                        p.value_at(&to_pos) - p.value_at(&from_pos) - victim.combined_value_at(&passant_pos)));
                }
            },
            None => {},
        }
        ret
    }

    /// The moves of pawn `p` on (x, y), direction by direction.
    fn pawn_moves(&self, x: usize, y: usize, p: &Piece) -> (r: Moves)
        requires
            wf(self@), x < 8, y < 8, p.piecetype == PieceType::Pawn, p.color == self@.color,
            sq(self@.grid, x as int, y as int) == Some(*p),
            p.color == Color::White ==> y != 0, p.color == Color::Black ==> y != 7,
            ep_square_ok(self@),
        ensures
            r.0@ == pawn_moves(self@, x as int, y as int, *p),
            forall|k: int| 0 <= k < r.0@.len() ==> (#[trigger] r.0@[k]).from == (Position { x, y }) && on_board(r.0@[k].to),
    {
        let dirs = p.directions();
        proof {
            lemma_direction_bounds(*p, 0);
            lemma_direction_bounds(*p, 1);
            lemma_direction_bounds(*p, 2);
        }
        let mut ret = self.pawn_steps(x, y, p, dirs[0].0, dirs[0].1);
        let mut second = self.pawn_steps(x, y, p, dirs[1].0, dirs[1].1);
        ret.append(&mut second);
        let mut third = self.pawn_steps(x, y, p, dirs[2].0, dirs[2].1);
        ret.append(&mut third);
        ret
    }

    /// Whether the side to move's king is safe once `m` moves its piece: the two squares
    /// are changed, the king's square looked at, and the squares put back.
    fn is_not_check_if(&mut self, m: &Move) -> (r: bool)
        requires
            wf(old(self)@), on_board(m.from), on_board(m.to),
            sq(old(self)@.grid, m.from.x as int, m.from.y as int) is Some,
        ensures
            final(self)@ == old(self)@,
            r == spec_not_check_if(old(self)@, *m),
    {
        let ghost g = self@.grid;
        let pie = self.get_clone_at(&m.from);
        let target = self.get_clone_at(&m.to);
        self.set_square(m.from.x, m.from.y, None);
        proof { lemma_shape_set(g, m.from.x as int, m.from.y as int, None); }
        self.set_square(m.to.x, m.to.y, pie);
        proof {
            lemma_shape_set(set_sq(g, m.from.x as int, m.from.y as int, None), m.to.x as int, m.to.y as int, pie);
        }
        let ghost moved = self@.grid;
        let kpos = if pie.unwrap().piecetype == PieceType::King {
            m.to
        } else if self.color_to_move == Color::White {
            self.wkingpos[self.counter]
        } else {
            self.bkingpos[self.counter]
        };
        let ret = if self.color_to_move == Color::White {
            !self.is_threatened_by(&kpos, Color::Black)
        } else {
            !self.is_threatened_by(&kpos, Color::White)
        };
        self.set_square(m.from.x, m.from.y, pie);
        proof { lemma_shape_set(moved, m.from.x as int, m.from.y as int, pie); }
        self.set_square(m.to.x, m.to.y, target);
        proof {
            let back = set_sq(moved, m.from.x as int, m.from.y as int, pie);
            lemma_shape_set(back, m.to.x as int, m.to.y as int, target);
            assert forall|a: int, b: int| 0 <= a < 8 && 0 <= b < 8 implies #[trigger] sq(self@.grid, a, b) == sq(g, a, b) by {
                lemma_sq_set(g, m.from.x as int, m.from.y as int, None, a, b);
                lemma_sq_set(set_sq(g, m.from.x as int, m.from.y as int, None), m.to.x as int, m.to.y as int, pie, a, b);
                lemma_sq_set(moved, m.from.x as int, m.from.y as int, pie, a, b);
                lemma_sq_set(back, m.to.x as int, m.to.y as int, target, a, b);
            }
            lemma_grid_ext(self@.grid, g);
        }
        ret
    }

    /// The castling moves of the side to move: the right kept, the squares between king
    /// and rook empty, and the king's square and the two it crosses not attacked.
    pub fn castle_moves(&self) -> (r: Moves)
        requires wf(self@),
        ensures
            r.0@ == spec_castle_moves(self@),
            forall|k: int| 0 <= k < r.0@.len() ==> move_from_king_square(#[trigger] r.0@[k]),
    {
        let mut ret = Moves::new();
        let castle = self.castles[self.counter];
        if self.color_to_move == Color::White {
            if castle.0 && self.get_reference_at(5, 7).is_none() && self.get_reference_at(6, 7).is_none()
                && !self.is_threatened_by(&Position { x: 4, y: 7 }, Color::Black)
                && !self.is_threatened_by(&Position { x: 5, y: 7 }, Color::Black)
                && !self.is_threatened_by(&Position { x: 6, y: 7 }, Color::Black) {
                ret.push(Move::new(4, 7, 6, 7, None, 49));
            }
            if castle.1 && self.get_reference_at(1, 7).is_none() && self.get_reference_at(2, 7).is_none()
                && self.get_reference_at(3, 7).is_none()
                && !self.is_threatened_by(&Position { x: 4, y: 7 }, Color::Black)
                && !self.is_threatened_by(&Position { x: 3, y: 7 }, Color::Black)
                && !self.is_threatened_by(&Position { x: 2, y: 7 }, Color::Black) {
                ret.push(Move::new(4, 7, 2, 7, None, 40));
            }
        } else {
            if castle.2 && self.get_reference_at(5, 0).is_none() && self.get_reference_at(6, 0).is_none()
                && !self.is_threatened_by(&Position { x: 4, y: 0 }, Color::White)
                && !self.is_threatened_by(&Position { x: 5, y: 0 }, Color::White)
                && !self.is_threatened_by(&Position { x: 6, y: 0 }, Color::White) {
                ret.push(Move::new(4, 0, 6, 0, None, -49));
            }
            if castle.3 && self.get_reference_at(1, 0).is_none() && self.get_reference_at(2, 0).is_none()
                && self.get_reference_at(3, 0).is_none()
                && !self.is_threatened_by(&Position { x: 4, y: 0 }, Color::White)
                && !self.is_threatened_by(&Position { x: 3, y: 0 }, Color::White)
                && !self.is_threatened_by(&Position { x: 2, y: 0 }, Color::White) {
                ret.push(Move::new(4, 0, 2, 0, None, -40));
            }
        }
        proof {
            let e = Seq::<Move>::empty();
            assert(e + e =~= e);
            assert(forall|m: Move| e + seq![m] =~= seq![m] && seq![m] + e =~= seq![m]);
        }
        ret
    }
}

impl Board {
    /// The moves of the piece `p` of the side to move on (x, y), before checks are looked at.
    fn piece_moves(&mut self, x: usize, y: usize, p: &Piece) -> (r: Moves)
        requires
            wf(old(self)@), moves_ok(old(self)@), x < 8, y < 8, p.color == old(self)@.color,
            sq(old(self)@.grid, x as int, y as int) == Some(*p),
        ensures
            final(self)@ == old(self)@,
            r.0@ == piece_moves(old(self)@, x as int, y as int, *p),
            forall|k: int| 0 <= k < r.0@.len() ==> (#[trigger] r.0@[k]).from == (Position { x, y }) && on_board(r.0@[k].to),
    {
        if p.piecetype == PieceType::Pawn {
            proof {
                if y == far_row(p.color) {
                    assert(sq(self@.grid, x as int, far_row(self@.color)) == Some(Piece { piecetype: PieceType::Pawn, color: self@.color }));
                }
            }
            self.pawn_moves(x, y, p)
        } else if p.piecetype == PieceType::King {
            self.king_moves(x, y, p)
        } else if p.can_run() {
            self.running_moves(x, y, p)
        } else {
            self.step_moves(x, y, p)
        }
    }

    /// The legal moves of the side to move: square by square, from the eighth rank down,
    /// the moves of each of its pieces that leave its king safe, then the castling moves.
    pub fn moves(&mut self) -> (r: Moves)
        requires wf(old(self)@), moves_ok(old(self)@),
        ensures
            final(self)@ == old(self)@,
            r.0@ == spec_moves(old(self)@),
    {
        let ghost s = self@;
        let mut ret = Moves::new();
        let color = self.color_to_move;
        let mut y: usize = 0;
        while y < 8
            invariant
                self@ == s, wf(s), moves_ok(s), color == s.color, y <= 8,
                ret.0@ == pseudo_moves(s, (y * 8) as nat),
                forall|k: int| 0 <= k < ret.0@.len() ==> move_from_piece(s, #[trigger] ret.0@[k]),
            decreases 8 - y,
        {
            let mut x: usize = 0;
            while x < 8
                invariant
                    self@ == s, wf(s), moves_ok(s), color == s.color, y < 8, x <= 8,
                    ret.0@ == pseudo_moves(s, (y * 8 + x) as nat),
                    forall|k: int| 0 <= k < ret.0@.len() ==> move_from_piece(s, #[trigger] ret.0@[k]),
                decreases 8 - x,
            {
                proof {
                    assert((y * 8 + x) / 8 == y as int);
                    assert((y * 8 + x) % 8 == x as int);
                }
                let ghost before = ret.0@;
                if let Some(p) = self.get_clone_at(&Position { x, y }) {
                    if p.color == color {
                        let mut ms = self.piece_moves(x, y, &p);
                        ret.append(&mut ms);
                    }
                }
                proof {
                    assert forall|k: int| 0 <= k < ret.0@.len() implies move_from_piece(s, #[trigger] ret.0@[k]) by {
                        if k >= before.len() {
                            assert(ret.0@[k] == ret.0@.subrange(before.len() as int, ret.0@.len() as int)[k - before.len()]);
                        } else {
                            assert(ret.0@[k] == before[k]);
                        }
                    }
                    if ret.0@ == before {
                        assert(before + Seq::<Move>::empty() =~= before);
                    }
                }
                x += 1;
            }
            y += 1;
        }
        let ghost all = ret.0@;
        let ghost safe = king_safe_after(s);
        let mut kept = Moves::new();
        let mut i: usize = 0;
        proof {
            assert(all.take(0) =~= Seq::<Move>::empty());
            reveal(Seq::filter);
        }
        while i < ret.0.len()
            invariant
                self@ == s, wf(s), ret.0@ == all, i <= all.len(),
                all == pseudo_moves(s, 64),
                safe == king_safe_after(s),
                kept.0@ == all.take(i as int).filter(safe),
                forall|k: int| 0 <= k < all.len() ==> move_from_piece(s, #[trigger] all[k]),
            decreases all.len() - i,
        {
            let m = ret.0[i];
            proof {
                reveal(Seq::filter);
                assert(all.take(i as int + 1).drop_last() =~= all.take(i as int));
                assert(all.take(i as int + 1).last() == m);
                assert(move_from_piece(s, all[i as int]));
            }
            if self.is_not_check_if(&m) {
                kept.push(m);
            }
            i += 1;
        }
        proof { assert(all.take(all.len() as int) =~= all); }
        let mut castles = self.castle_moves();
        kept.append(&mut castles);
        kept
    }
}

/// Steps from a file or row `f` toward `f + d` in the unit direction of `d` over `len`
/// stay on the board for every step short of `len`.
proof fn lemma_unit_path(f: int, d: int, len: int, i: int)
    requires 0 <= f < 8, 0 <= f + d < 8, abs_int(d) <= len, len > 0, 0 <= i <= len,
    ensures
        -1 <= trunc_div(d, len) <= 1,
        0 <= f + trunc_div(d, len) * i < 8,
{
    if d >= 0 {
        assert(d / len == (if d == len { 1int } else { 0int })) by (nonlinear_arith)
            requires 0 <= d <= len, len > 0;
    } else {
        assert((-d) / len == (if -d == len { 1int } else { 0int })) by (nonlinear_arith)
            requires 0 < -d <= len, len > 0;
    }
    let v = trunc_div(d, len);
    assert(v * i == (if v == 1 { i } else if v == -1 { -i } else { 0 })) by (nonlinear_arith)
        requires -1 <= v <= 1;
}

impl Board {
    /// The change in evaluation that move `m` makes, computed from the board (see
    /// `spec_value_of`); generated moves carry the same value.
    pub fn value_of(&self, m: &Move) -> (r: Score)
        requires wf(self@), value_of_ok(self@, *m),
        ensures r == spec_value_of(self@, *m),
    {
        let p = (*self.get_reference_at(m.from.x, m.from.y)).unwrap();
        let dx = m.from.x as i8 - m.to.x as i8;
        if p.piecetype == PieceType::King && (dx == 2 || dx == -2) {
            if m.from.x == 4 && m.from.y == 7 && m.to.x == 6 && m.to.y == 7 {
                return 49;
            } else if m.from.x == 4 && m.from.y == 7 && m.to.x == 2 && m.to.y == 7 {
                return 40;
            } else if m.from.x == 4 && m.from.y == 0 && m.to.x == 6 && m.to.y == 0 {
                return -49;
            } else if m.from.x == 4 && m.from.y == 0 && m.to.x == 2 && m.to.y == 0 {
                return -40;
            }
        }
        self.value_of_step(m, &p)
    }

    /// The value of a move that is not castling: the mover's positional gain, less what it
    /// takes (en passant included), plus what a promotion adds.
    #[verifier::spinoff_prover]
    fn value_of_step(&self, m: &Move, p: &Piece) -> (r: Score)
        requires
            wf(self@), value_of_ok(self@, *m),
            sq(self@.grid, m.from.x as int, m.from.y as int) == Some(*p),
        ensures
            r == spec_value_at(*p, m.to) - spec_value_at(*p, m.from)
                - (match sq(self@.grid, m.to.x as int, m.to.y as int) { Some(t) => spec_combined_value_at(t, m.to), None => 0 })
                + (match m.promote { Some(q) => spec_combined_value_at(q, m.to) - spec_combined_value_at(*p, m.to), None => 0 })
                - (if takes_en_passant(self@, *m) {
                    let pos = passed_pawn_square(self@, *m)->0;
                    spec_combined_value_at(sq(self@.grid, pos.x as int, pos.y as int).unwrap(), pos)
                } else {
                    0
                }),
    {
        proof {
            lemma_value_bounds(*p, m.to);
            lemma_value_bounds(*p, m.from);
        }
        let mut ret = p.value_at(&m.to) - p.value_at(&m.from);
        if let Some(t) = *self.get_reference_at(m.to.x, m.to.y) {
            proof { lemma_value_bounds(t, m.to); }
            ret = ret - t.combined_value_at(&m.to);
        }
        if let Some(q) = m.promote {
            proof { lemma_value_bounds(q, m.to); }
            ret = ret - p.combined_value_at(&m.to);
            ret = ret + q.combined_value_at(&m.to);
        }
        if let Some(ps) = self.passants[self.counter] {
            if p.piecetype == PieceType::Pawn && m.from.x != m.to.x && m.to.x == ps as usize {
                if m.to.y == 2 && self.color_to_move == Color::White {
                    let pos = Position { x: m.to.x, y: 3 };
                    let v = (*self.get_reference_at(m.to.x, 3)).unwrap();
                    proof { lemma_value_bounds(v, pos); }
                    ret = ret - v.combined_value_at(&pos);
                } else if m.to.y == 5 && self.color_to_move == Color::Black {
                    let pos = Position { x: m.to.x, y: 4 };
                    let v = (*self.get_reference_at(m.to.x, 4)).unwrap();
                    proof { lemma_value_bounds(v, pos); }
                    ret = ret - v.combined_value_at(&pos);
                }
            }
        }
        ret
    }

    /// The evaluation of the position: the sum of the values of the moves made.
    pub fn heuristic_value(&self) -> (r: Score)
        requires wf(self@),
        ensures r == self@.scores[self@.counter as int],
    {
        self.scores[self.counter]
    }

    pub fn color_to_move(&self) -> (r: Color)
        ensures r == self@.color,
    {
        self.color_to_move
    }

    /// The number of moves made.
    pub fn counter(&self) -> (r: usize)
        ensures r == self@.counter,
    {
        self.counter
    }

    /// The position's Zobrist hash.
    pub fn hash(&self) -> (r: i64)
        ensures r == self@.zobrist.hash,
    {
        self.zobrist.hash()
    }

    /// The squares, rows from the top.
    pub fn grid(&self) -> (r: [[Option<Piece>; 8]; 8])
        ensures grid_view(r) == self@.grid,
    {
        self.grid
    }

    /// The castling rights of the current turn: White short, White long, Black short, Black long.
    pub fn castling_rights(&self) -> (r: Castle)
        requires wf(self@),
        ensures r == self@.castles[self@.counter as int],
    {
        self.castles[self.counter]
    }

    /// The number of queens on the board in the current turn, as the board counts them.
    pub fn queen_count(&self) -> (r: u8)
        requires wf(self@),
        ensures r == self@.queens[self@.counter as int],
    {
        self.queens[self.counter]
    }

    /// Whether no queen is left.
    pub fn is_endgame(&self) -> (r: bool)
        requires wf(self@),
        ensures r == (self@.queens[self@.counter as int] == 0),
    {
        self.queens[self.counter] == 0
    }

    /// Whether the side to move has no legal move.
    pub fn is_checkmate(&mut self) -> (r: bool)
        requires wf(old(self)@), moves_ok(old(self)@),
        ensures
            final(self)@ == old(self)@,
            r == (spec_moves(old(self)@).len() == 0),
    {
        self.moves().len() == 0
    }

    /// The score of a finished game (to be asked once the side to move has no move):
    /// mate is worth `INFINITY` less the number of moves played, to the winner; stalemate 0.
    /// Whether the side to move is in check: its king is attacked.
    pub fn is_check(&self) -> (r: bool)
        requires wf(self@),
        ensures r == spec_in_check(self@),
    {
        if self.color_to_move == Color::White {
            self.is_threatened_by(&self.wkingpos[self.counter], Color::Black)
        } else {
            self.is_threatened_by(&self.bkingpos[self.counter], Color::White)
        }
    }

    pub fn end_score(&self) -> (r: Score)
        requires wf(self@), self@.counter <= i32::MAX,
        ensures r == spec_end_score(self@),
    {
        if self.color_to_move == Color::White {
            if self.is_threatened_by(&self.wkingpos[self.counter], Color::Black) {
                -INFINITY + self.counter as Score
            } else {
                0
            }
        } else {
            if self.is_threatened_by(&self.bkingpos[self.counter], Color::White) {
                INFINITY - self.counter as Score
            } else {
                0
            }
        }
    }

    /// The winner of a finished game, by the sign of `end_score`; `None` for a draw.
    pub fn winner(&self) -> (r: Option<Color>)
        requires wf(self@), self@.counter <= i32::MAX,
        ensures r == spec_winner(self@),
    {
        let e = self.end_score();
        if e < 0 {
            Some(Color::Black)
        } else if e > 0 {
            Some(Color::White)
        } else {
            None
        }
    }

    /// Whether the squares strictly between (fx, fy) and step `len` in direction (vx, vy) are empty.
    fn path_is_clear(&self, fx: usize, fy: usize, vx: i8, vy: i8, len: i8) -> (r: bool)
        requires
            grid_shape(self@.grid), fx < 8, fy < 8, -1 <= vx <= 1, -1 <= vy <= 1, 1 <= len <= 8,
            forall|i: int| 1 <= i < len ==> #[trigger] in_bounds(fx + vx * i, fy + vy * i),
        ensures r == path_clear(self@.grid, fx as int, fy as int, vx as int, vy as int, len as int),
    {
        let mut i: i8 = 1;
        while i < len
            invariant
                grid_shape(self@.grid), fx < 8, fy < 8, -1 <= vx <= 1, -1 <= vy <= 1, 1 <= len <= 8,
                forall|j: int| 1 <= j < len ==> #[trigger] in_bounds(fx + vx * j, fy + vy * j),
                1 <= i <= len,
                forall|j: int| 1 <= j < i ==> #[trigger] path_sq(self@.grid, fx as int, fy as int, vx as int, vy as int, j) is None,
            decreases len - i,
        {
            proof {
                assert(in_bounds(fx + vx * i, fy + vy * i));
                assert(-8 <= vx * i <= 8 && -8 <= vy * i <= 8) by (nonlinear_arith)
                    requires -1 <= vx <= 1, -1 <= vy <= 1, 1 <= i <= 8;
            }
            let cx = fx as i8 + vx * i;
            let cy = fy as i8 + vy * i;
            if self.get_reference_at(cx as usize, cy as usize).is_some() {
                assert(path_sq(self@.grid, fx as int, fy as int, vx as int, vy as int, i as int) is Some);
                return false;
            }
            i += 1;
        }
        true
    }

    /// Whether the piece on `m.from` may make move `m` by its way of moving, checks aside
    /// (see `spec_legal_shape`).
    fn legal_helper(&mut self, m: &Move) -> (r: bool)
        requires wf(old(self)@), legal_input_ok(old(self)@, *m),
        ensures
            final(self)@ == old(self)@,
            r == spec_legal_shape(old(self)@, *m),
    {
        let d0 = m.to.x as i8 - m.from.x as i8;
        let d1 = m.to.y as i8 - m.from.y as i8;
        let p = match *self.get_reference_at(m.from.x, m.from.y) {
            Some(p) => p,
            None => return false,
        };
        if p.color != self.color_to_move {
            return false;
        }
        if m.promote.is_some() && p.piecetype != PieceType::Pawn {
            return false;
        }
        if let Some(t) = *self.get_reference_at(m.to.x, m.to.y) {
            if t.color == self.color_to_move {
                return false;
            }
        }
        self.piece_way(m, &p, d0, d1)
    }

    /// Whether piece `p` on `m.from`, of the side to move, moves the way `m` does, given the
    /// steps d0 and d1 from `m.from` to `m.to`.
    #[verifier::spinoff_prover]
    fn piece_way(&mut self, m: &Move, p: &Piece, d0: i8, d1: i8) -> (r: bool)
        requires
            wf(old(self)@), legal_input_ok(old(self)@, *m), on_board(m.to),
            sq(old(self)@.grid, m.from.x as int, m.from.y as int) == Some(*p), p.color == old(self)@.color,
            !(sq(old(self)@.grid, m.to.x as int, m.to.y as int) matches Some(t) && t.color == old(self)@.color),
            d0 == m.to.x - m.from.x, d1 == m.to.y - m.from.y,
        ensures
            final(self)@ == old(self)@,
            r == piece_way_ok(old(self)@, *m, *p),
    {
        let a0 = if d0 < 0 { -d0 } else { d0 };
        let a1 = if d1 < 0 { -d1 } else { d1 };
        let len = if a0 >= a1 { a0 } else { a1 };
        if a0 != 0 && a1 != 0 && a0 + a1 == 3 {
            return p.piecetype == PieceType::Knight;
        }
        let vx = if d0 >= 0 { d0 / len } else { -((-d0) / len) };
        let vy = if d1 >= 0 { d1 / len } else { -((-d1) / len) };
        proof {
            assert forall|i: int| 1 <= i < len implies #[trigger] in_bounds(m.from.x + vx * i, m.from.y + vy * i) by {
                lemma_unit_path(m.from.x as int, d0 as int, len as int, i);
                lemma_unit_path(m.from.y as int, d1 as int, len as int, i);
            }
            if len > 0 {
                lemma_unit_path(m.from.x as int, d0 as int, len as int, 0);
            }
        }
        match p.piecetype {
            PieceType::Pawn => {
                let ms = self.pawn_moves(m.from.x, m.from.y, &p);
                ms.contains(m)
            },
            PieceType::Rook => {
                ((vx == 0 && vy == -1) || (vx == 1 && vy == 0) || (vx == 0 && vy == 1) || (vx == -1 && vy == 0))
                    && self.path_is_clear(m.from.x, m.from.y, vx, vy, len)
            },
            PieceType::Bishop => {
                ((vx == 1 && vy == 1) || (vx == -1 && vy == 1) || (vx == 1 && vy == -1) || (vx == -1 && vy == -1))
                    && self.path_is_clear(m.from.x, m.from.y, vx, vy, len)
            },
            PieceType::Queen => {
                ((vx == 0 && vy == -1) || (vx == 1 && vy == 0) || (vx == 0 && vy == 1) || (vx == -1 && vy == 0)
                    || (vx == 1 && vy == 1) || (vx == -1 && vy == 1) || (vx == 1 && vy == -1) || (vx == -1 && vy == -1))
                    && self.path_is_clear(m.from.x, m.from.y, vx, vy, len)
            },
            PieceType::King => {
                let ms = self.king_moves(m.from.x, m.from.y, &p);
                ms.contains(m)
            },
            PieceType::Knight => false,
        }
    }

    /// Whether move `m` is legal: the piece may make it, and the mover's king is safe after it.
    pub fn is_legal(&mut self, m: &Move) -> (r: bool)
        requires wf(old(self)@), legal_input_ok(old(self)@, *m),
        ensures
            final(self)@ == old(self)@,
            r == (spec_legal_shape(old(self)@, *m) && spec_not_check_if(old(self)@, *m)),
    {
        self.legal_helper(m) && self.is_not_check_if(m)
    }
}

impl Board {
    /// Plays the legal move spelled by `s` (such as "e2e4"); `None`, with the board
    /// unchanged, when `s` spells no legal move.
    pub fn move_str(&mut self, s: &str) -> (r: Option<()>)
        requires
            wf(old(self)@), moves_ok(old(self)@),
            move_named(old(self)@, s@) matches Some(m) ==> move_ok(old(self)@, m),
        ensures
            r is Some <==> move_named(old(self)@, s@) is Some,
            r is Some ==> final(self)@ == spec_move_piece(old(self)@, move_named(old(self)@, s@)->0),
            r is None ==> final(self)@ == old(self)@,
    {
        let m1 = match Move::from_str(s) {
            Ok(m) => m,
            Err(_) => return None,
        };
        let ghost s0 = self@;
        let ms = self.moves();
        let mut i: usize = 0;
        while i < ms.0.len()
            invariant
                self@ == s0, old(self)@ == s0, wf(s0), ms.0@ == spec_moves(s0), spec_parse_move(s@) == Some(m1),
                move_named(s0, s@) matches Some(m) ==> move_ok(s0, m),
                i <= ms.0@.len(),
                first_same(ms.0@, m1, 0) == first_same(ms.0@, m1, i as int),
            decreases ms.0@.len() - i,
        {
            if ms.0[i] == m1 {
                let m2 = ms.0[i];
                assert(first_same(ms.0@, m1, i as int) == Some(m2));
                assert(move_named(s0, s@) == Some(m2));
                self.move_piece(&m2);
                return Some(());
            }
            i += 1;
        }
        None
    }

    /// The board as text: eight rows of eight characters, top row first, each ending in a
    /// line break; a piece is shown by its letter and an empty square by '-'.
    pub fn to_string(&self) -> (r: String)
        requires grid_shape(self@.grid),
        ensures r@ == board_text(self@.grid, 8),
    {
        let mut ret = String::new();
        let mut y: usize = 0;
        while y < 8
            invariant grid_shape(self@.grid), y <= 8, ret@ == board_text(self@.grid, y as nat),
            decreases 8 - y,
        {
            let ghost before = ret@;
            let mut x: usize = 0;
            while x < 8
                invariant
                    grid_shape(self@.grid), y < 8, x <= 8,
                    ret@ == before + row_text(self@.grid, y as int, x as nat),
                decreases 8 - x,
            {
                match *self.get_reference_at(x, y) {
                    Some(p) => push_char(&mut ret, p.char()),
                    None => push_char(&mut ret, '-'),
                }
                proof {
                    assert(before + row_text(self@.grid, y as int, x as nat + 1)
                        =~= (before + row_text(self@.grid, y as int, x as nat)).push(square_char(self@.grid, x as int, y as int)));
                }
                x += 1;
            }
            push_char(&mut ret, '\n');
            proof {
                assert(ret@ =~= board_text(self@.grid, y as nat + 1));
            }
            y += 1;
        }
        ret
    }
}

/// How many of the first `n` recorded hashes equal `h`.
pub open spec fn hash_count(hashes: Seq<i64>, h: i64, n: nat) -> nat
    decreases n,
{
    if n == 0 {
        0
    } else {
        hash_count(hashes, h, (n - 1) as nat) + if hashes[n - 1] == h { 1nat } else { 0nat }
    }
}

/// The current position has been reached three times, going by the recorded hashes.
pub open spec fn spec_draw_by_repetition(s: BoardState) -> bool {
    hash_count(s.hashes, s.hashes[s.counter as int], (s.counter + 1) as nat) >= 3
}

/// The evaluation from the side to move's point of view.
pub open spec fn spec_symmetric_heuristic(s: BoardState) -> int {
    if s.color == Color::White { s.scores[s.counter as int] as int } else { -(s.scores[s.counter as int] as int) }
}

/// The end score from the side to move's point of view.
pub open spec fn spec_symmetric_end_score(s: BoardState) -> int {
    if s.color == Color::White { spec_end_score(s) } else { -spec_end_score(s) }
}

/// Taking back a move does not read the current hash.
pub proof fn lemma_go_back_ignores_hash(t: BoardState, h: i64)
    ensures spec_go_back(with_hash(t, h)) == spec_go_back(t),
{
    reveal(spec_go_back);
    reveal(grid_after_back);
    reveal(grid_back_step);
    reveal(graveyard_after_back);
}

impl Board {
    /// Whether the current position has occurred three times, going by the recorded hashes.
    pub fn is_draw_by_repetition(&self) -> (r: bool)
        requires wf(self@),
        ensures r == spec_draw_by_repetition(self@),
    {
        let h = self.hashes[self.counter];
        let mut count: usize = 0;
        let mut i: usize = 0;
        while i <= self.counter
            invariant
                wf(self@), h == self@.hashes[self@.counter as int], i <= self@.counter + 1,
                count == hash_count(self@.hashes, h, i as nat), count <= i,
            decreases self@.counter + 1 - i,
        {
            if self.hashes[i] == h {
                count += 1;
            }
            i += 1;
        }
        count >= 3
    }

    /// The evaluation from the side to move's point of view.
    pub fn symmetric_heuristic_value(&self) -> (r: Score)
        requires wf(self@), self@.scores[self@.counter as int] > i32::MIN,
        ensures r == spec_symmetric_heuristic(self@),
    {
        if self.color_to_move == Color::White {
            self.scores[self.counter]
        } else {
            -self.scores[self.counter]
        }
    }

    /// The end score from the side to move's point of view.
    pub fn symmetric_end_score(&self) -> (r: Score)
        requires wf(self@), self@.counter <= i32::MAX,
        ensures r == spec_symmetric_end_score(self@),
    {
        if self.color_to_move == Color::White {
            self.end_score()
        } else {
            -self.end_score()
        }
    }
}

/// A copy of a vector of plain values.
fn copy_vec<T: Copy>(v: &Vec<T>) -> (r: Vec<T>)
    ensures r@ == v@,
{
    let mut r: Vec<T> = Vec::new();
    let mut i: usize = 0;
    while i < v.len()
        invariant i <= v@.len(), r@ == v@.take(i as int),
        decreases v@.len() - i,
    {
        r.push(v[i]);
        i += 1;
        proof { assert(r@ =~= v@.take(i as int)); }
    }
    proof { assert(v@.take(v@.len() as int) =~= v@); }
    r
}

impl Board {
    /// A copy of the board, with its whole history.
    pub fn clone_board(&self) -> (r: Board)
        ensures r@ == self@,
    {
        Board {
            grid: self.grid,
            color_to_move: self.color_to_move,
            scores: copy_vec(&self.scores),
            counter: self.counter,
            graveyard: copy_vec(&self.graveyard),
            moves: Moves(copy_vec(&self.moves.0)),
            passants: copy_vec(&self.passants),
            castles: copy_vec(&self.castles),
            wkingpos: copy_vec(&self.wkingpos),
            bkingpos: copy_vec(&self.bkingpos),
            hashes: copy_vec(&self.hashes),
            zobrist: self.zobrist,
            queens: copy_vec(&self.queens),
        }
    }
}


/// `s` without its line breaks.
pub open spec fn strip_newlines(s: Seq<char>) -> Seq<char>
    decreases s.len(),
{
    if s.len() == 0 {
        s
    } else {
        let r = strip_newlines(s.drop_last());
        if s.last() == '\n' { r } else { r.push(s.last()) }
    }
}

/// The strings `Board::custom` reads: piece characters and line breaks, at most 64 squares.
pub open spec fn custom_ok(s: Seq<char>) -> bool {
    &&& forall|i: int| 0 <= i < s.len() ==> #[trigger] s[i] == '\n' || is_piece_char(s[i])
    &&& strip_newlines(s).len() <= 64
}

/// The grid a board string describes: its squares row by row from the eighth rank, the
/// squares it does not reach left empty.
pub open spec fn custom_grid(t: Seq<char>) -> GridView {
    Seq::new(8, |y: int| Seq::new(8, |x: int| if y * 8 + x < t.len() { spec_piece_of(t[y * 8 + x]) } else { None }))
}

/// Whether `c` stands for a king of the given colour.
pub open spec fn king_char(c: char, white: bool) -> bool {
    if white { c == 'K' || c == '\u{212A}' } else { c == 'k' }
}

/// The square of the last king of the given colour among the first `n` squares of `t`;
/// (100, 100) if there is none.
pub open spec fn king_scan(t: Seq<char>, white: bool, n: nat) -> Position
    decreases n,
{
    if n == 0 {
        Position { x: 100, y: 100 }
    } else if king_char(t[n - 1], white) {
        Position { x: ((n - 1) % 8) as usize, y: ((n - 1) / 8) as usize }
    } else {
        king_scan(t, white, (n - 1) as nat)
    }
}

/// How many queens of either colour the first `n` squares of `t` hold.
pub open spec fn queen_count(t: Seq<char>, n: nat) -> nat
    decreases n,
{
    if n == 0 {
        0
    } else {
        queen_count(t, (n - 1) as nat) + if t[n - 1] == 'q' || t[n - 1] == 'Q' { 1nat } else { 0nat }
    }
}

/// The castling rights a grid allows: the king and the rook on their starting squares.
pub open spec fn spec_build_castle(g: GridView) -> Castle {
    let wk = sq(g, 4, 7) == Some(Piece { piecetype: PieceType::King, color: Color::White });
    let bk = sq(g, 4, 0) == Some(Piece { piecetype: PieceType::King, color: Color::Black });
    (wk && sq(g, 7, 7) == Some(Piece { piecetype: PieceType::Rook, color: Color::White }),
     wk && sq(g, 0, 7) == Some(Piece { piecetype: PieceType::Rook, color: Color::White }),
     bk && sq(g, 7, 0) == Some(Piece { piecetype: PieceType::Rook, color: Color::Black }),
     bk && sq(g, 0, 0) == Some(Piece { piecetype: PieceType::Rook, color: Color::Black }))
}

/// The board `Board::custom(s, c)` builds.
pub open spec fn is_custom_board(b: BoardState, s: Seq<char>, c: Color) -> bool {
    let t = strip_newlines(s);
    let g = custom_grid(t);
    let d = pcg64_stream(ZOBRIST_SEED, ZOBRIST_DRAWS as nat);
    &&& b.grid == g
    &&& b.color == c
    &&& b.counter == 0
    &&& b.graveyard == Seq::<TombStone>::empty()
    &&& b.moves == Seq::<Move>::empty()
    &&& b.scores == seq![0i32]
    &&& b.passants == seq![None::<i8>]
    &&& b.castles == seq![spec_build_castle(g)]
    &&& b.wkingpos == seq![king_scan(t, true, t.len())]
    &&& b.bkingpos == seq![king_scan(t, false, t.len())]
    &&& b.queens == seq![queen_count(t, t.len()) as u8]
    &&& keys_from(b.zobrist, d)
    &&& b.zobrist.hash == initial_hash(b.zobrist, d, g, c)
    &&& b.hashes == seq![b.zobrist.hash]
}

/// Reading one more character of a picture adds it to the squares unless it is a line break.
pub proof fn lemma_strip_step(s: Seq<char>, i: int)
    requires 0 <= i < s.len(),
    ensures strip_newlines(s.subrange(0, i + 1)) == if s[i] == '\n' { strip_newlines(s.subrange(0, i)) }
        else { strip_newlines(s.subrange(0, i)).push(s[i]) },
{
    assert(s.subrange(0, i + 1).drop_last() =~= s.subrange(0, i));
}

/// A prefix of a picture has no more squares than the whole.
pub proof fn lemma_strip_len_mono(s: Seq<char>, i: int)
    requires 0 <= i <= s.len(),
    ensures strip_newlines(s.subrange(0, i)).len() <= strip_newlines(s).len(),
    decreases s.len() - i,
{
    if i < s.len() {
        lemma_strip_step(s, i);
        lemma_strip_len_mono(s, i + 1);
    } else {
        assert(s.subrange(0, i) =~= s);
    }
}

proof fn lemma_queen_count_bound(t: Seq<char>, n: nat)
    ensures queen_count(t, n) <= n,
    decreases n,
{
    if n > 0 {
        lemma_queen_count_bound(t, (n - 1) as nat);
    }
}

impl Board {
    /// The castling rights a grid allows.
    fn build_castle(grid: &[[Option<Piece>; 8]; 8]) -> (r: Castle)
        ensures r == spec_build_castle(grid_view(*grid)),
    {
        let wk = grid[7][4] == Some(Piece { piecetype: PieceType::King, color: Color::White });
        let bk = grid[0][4] == Some(Piece { piecetype: PieceType::King, color: Color::Black });
        (wk && grid[7][7] == Some(Piece { piecetype: PieceType::Rook, color: Color::White }),
         wk && grid[7][0] == Some(Piece { piecetype: PieceType::Rook, color: Color::White }),
         bk && grid[0][7] == Some(Piece { piecetype: PieceType::Rook, color: Color::Black }),
         bk && grid[0][0] == Some(Piece { piecetype: PieceType::Rook, color: Color::Black }))
    }

    /// Builds a board from a picture of it: eight rows of eight characters from the eighth
    /// rank down ('-' for an empty square, upper case for White), line breaks ignored,
    /// with `c` to move.
    pub fn custom(s: &str, c: Color) -> (r: Self)
        requires custom_ok(s@),
        ensures is_custom_board(r@, s@, c), wf(r@), history_ok(r@),
    {
        let mut grid: [[Option<Piece>; 8]; 8] = [[None; 8]; 8];
        let mut y: usize = 0;
        let mut x: usize = 0;
        let mut wk: (usize, usize) = (100, 100);
        let mut bk: (usize, usize) = (100, 100);
        let mut queens: u8 = 0;
        let n = s.unicode_len();
        let mut i: usize = 0;
        let ghost full = strip_newlines(s@);
        while i < n
            invariant
                n == s@.len(), i <= n, custom_ok(s@), full == strip_newlines(s@),
                ({
                    let t = strip_newlines(s@.subrange(0, i as int));
                    &&& y * 8 + x == t.len()
                    &&& x < 8
                    &&& t.len() <= 64
                    &&& forall|k: int| 0 <= k < t.len() ==> #[trigger] t[k] == '\n' || is_piece_char(t[k])
                    &&& forall|yy: int, xx: int| 0 <= yy < 8 && 0 <= xx < 8 ==>
                        #[trigger] grid@[yy]@[xx] == if yy * 8 + xx < t.len() { spec_piece_of(t[yy * 8 + xx]) } else { None }
                    &&& Position { x: wk.0, y: wk.1 } == king_scan(t, true, t.len())
                    &&& Position { x: bk.0, y: bk.1 } == king_scan(t, false, t.len())
                    &&& queens == queen_count(t, t.len())
                }),
            decreases n - i,
        {
            let ch = s.get_char(i);
            proof {
                lemma_strip_step(s@, i as int);
                lemma_strip_len_mono(s@, i as int + 1);
            }
            if ch != '\n' {
                let ghost t = strip_newlines(s@.subrange(0, i as int));
                let ghost t2 = t.push(ch);
                assert(t2.len() <= 64);
                let p = Piece::new(ch);
                let mut row = grid[y];
                row.set(x, p);
                grid.set(y, row);
                if let Some(pc) = p {
                    if pc.piecetype == PieceType::King {
                        if pc.color == Color::White {
                            wk = (x, y);
                        } else {
                            bk = (x, y);
                        }
                    } else if pc.piecetype == PieceType::Queen {
                        proof { lemma_queen_count_bound(t, t.len()); }
                        queens += 1;
                    }
                }
                proof {
                    assert(t2[t.len() as int] == ch);
                    assert(king_scan(t2, true, t2.len()) == if king_char(ch, true) { Position { x: x, y: y } } else { king_scan(t2, true, t.len()) });
                    assert(king_scan(t2, false, t2.len()) == if king_char(ch, false) { Position { x: x, y: y } } else { king_scan(t2, false, t.len()) });
                    lemma_king_scan_prefix(t, ch, true, t.len());
                    lemma_king_scan_prefix(t, ch, false, t.len());
                    lemma_queen_count_prefix(t, ch, t.len());
                }
                x += 1;
                if x == 8 {
                    y += 1;
                    x = 0;
                }
            }
            i += 1;
        }
        proof {
            assert(s@.subrange(0, n as int) =~= s@);
            assert(grid_view(grid) =~= custom_grid(full)) by {
                assert forall|yy: int| 0 <= yy < 8 implies grid_view(grid)[yy] =~= custom_grid(full)[yy] by {
                    assert forall|xx: int| 0 <= xx < 8 implies grid_view(grid)[yy][xx] == custom_grid(full)[yy][xx] by {
                        assert(grid@[yy]@[xx] == grid_view(grid)[yy][xx]);
                    }
                }
            }
        }
        let zobrist = Zobrist::new(&grid, c);
        let castle = Board::build_castle(&grid);
        let mut passants: Vec<Option<i8>> = Vec::new();
        passants.push(None);
        let mut castles: Vec<Castle> = Vec::new();
        castles.push(castle);
        let mut scores: Vec<Score> = Vec::new();
        scores.push(0);
        let mut wkingpos: Vec<Position> = Vec::new();
        wkingpos.push(Position { x: wk.0, y: wk.1 });
        let mut bkingpos: Vec<Position> = Vec::new();
        bkingpos.push(Position { x: bk.0, y: bk.1 });
        let mut hashes: Vec<i64> = Vec::new();
        hashes.push(zobrist.hash());
        let mut qs: Vec<u8> = Vec::new();
        qs.push(queens);
        let r = Board {
            grid,
            color_to_move: c,
            counter: 0,
            graveyard: Vec::new(),
            moves: Moves::new(),
            passants,
            castles,
            scores,
            wkingpos,
            bkingpos,
            hashes,
            zobrist,
            queens: qs,
        };
        proof {
            lemma_king_scan_bound(full, true, full.len());
            lemma_king_scan_bound(full, false, full.len());
            assert(r@.scores =~= seq![0i32]);
            assert(r@.passants =~= seq![None::<i8>]);
            assert(r@.castles =~= seq![spec_build_castle(custom_grid(full))]);
            assert(r@.wkingpos =~= seq![king_scan(full, true, full.len())]);
            assert(r@.bkingpos =~= seq![king_scan(full, false, full.len())]);
            assert(r@.queens =~= seq![queen_count(full, full.len()) as u8]);
            assert(r@.hashes =~= seq![r@.zobrist.hash]);
            assert(r@.moves =~= Seq::<Move>::empty());
            assert(r@.graveyard =~= Seq::<TombStone>::empty());
        }
        r
    }

    /// The starting position, White to move.
    pub fn new() -> (r: Self)
        ensures is_custom_board(r@, DEFAULT_BOARD@, Color::White), wf(r@), history_ok(r@),
    {
        proof {
            reveal_strlit("rnbqkbnr\npppppppp\n--------\n--------\n--------\n--------\nPPPPPPPP\nRNBQKBNR");
            lemma_default_board_ok();
        }
        Board::custom(DEFAULT_BOARD, Color::White)
    }
}

proof fn lemma_king_scan_prefix(t: Seq<char>, ch: char, white: bool, n: nat)
    requires n <= t.len(),
    ensures king_scan(t.push(ch), white, n) == king_scan(t, white, n),
    decreases n,
{
    if n > 0 {
        lemma_king_scan_prefix(t, ch, white, (n - 1) as nat);
    }
}

proof fn lemma_queen_count_prefix(t: Seq<char>, ch: char, n: nat)
    requires n <= t.len(),
    ensures queen_count(t.push(ch), n) == queen_count(t, n),
    decreases n,
{
    if n > 0 {
        lemma_queen_count_prefix(t, ch, (n - 1) as nat);
    }
}

proof fn lemma_king_scan_bound(t: Seq<char>, white: bool, n: nat)
    requires n <= 64,
    ensures king_pos_ok(king_scan(t, white, n)),
    decreases n,
{
    if n > 0 {
        lemma_king_scan_bound(t, white, (n - 1) as nat);
    }
}


pub open spec fn chars_ok(s: Seq<char>, n: nat) -> bool
    decreases n,
{
    n == 0 || (chars_ok(s, (n - 1) as nat) && (s[n - 1] == '\n' || is_piece_char(s[n - 1])))
}

proof fn lemma_chars_ok(s: Seq<char>, n: nat)
    requires chars_ok(s, n), n <= s.len(),
    ensures forall|i: int| 0 <= i < n ==> #[trigger] s[i] == '\n' || is_piece_char(s[i]),
    decreases n,
{
    if n > 0 {
        lemma_chars_ok(s, (n - 1) as nat);
    }
}

#[verifier::spinoff_prover]
#[verifier::rlimit(100)]
proof fn lemma_default_chars()
    ensures chars_ok(DEFAULT_BOARD@, 71), DEFAULT_BOARD@.len() == 71,
{
    reveal_strlit("rnbqkbnr\npppppppp\n--------\n--------\n--------\n--------\nPPPPPPPP\nRNBQKBNR");
    reveal_with_fuel(chars_ok, 72);
}

pub open spec fn count_squares(s: Seq<char>, n: nat) -> nat
    decreases n,
{
    if n == 0 { 0 } else { count_squares(s, (n - 1) as nat) + if s[n - 1] == '\n' { 0nat } else { 1nat } }
}

proof fn lemma_count_prefix(s: Seq<char>, t: Seq<char>, n: nat)
    requires n <= s.len(), n <= t.len(), forall|i: int| 0 <= i < n ==> s[i] == t[i],
    ensures count_squares(s, n) == count_squares(t, n),
    decreases n,
{
    if n > 0 {
        lemma_count_prefix(s, t, (n - 1) as nat);
    }
}

proof fn lemma_strip_len(s: Seq<char>)
    ensures strip_newlines(s).len() == count_squares(s, s.len()),
    decreases s.len(),
{
    if s.len() > 0 {
        lemma_strip_len(s.drop_last());
        lemma_count_prefix(s.drop_last(), s, (s.len() - 1) as nat);
    }
}

#[verifier::spinoff_prover]
#[verifier::rlimit(100)]
proof fn lemma_default_strip()
    ensures strip_newlines(DEFAULT_BOARD@).len() == 64,
{
    reveal_strlit("rnbqkbnr\npppppppp\n--------\n--------\n--------\n--------\nPPPPPPPP\nRNBQKBNR");
    lemma_strip_len(DEFAULT_BOARD@);
    assert(count_squares(DEFAULT_BOARD@, 71) == 64) by {
        reveal_with_fuel(count_squares, 72);
    }
}

/// The starting picture can be read.
pub proof fn lemma_default_board_ok()
    ensures custom_ok(DEFAULT_BOARD@),
{
    lemma_default_chars();
    lemma_chars_ok(DEFAULT_BOARD@, 71);
    lemma_default_strip();
}

} // verus!
