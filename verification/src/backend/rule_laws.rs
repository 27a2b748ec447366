use vstd::prelude::*;
use super::piece::{Piece, PieceType, Color, spec_directions, spec_can_run};
use super::board_representation::movement::{Move, Position};
use super::zobrist::GridView;
use super::board::{BoardState, sq, set_sq, grid_shape, grid_after_step};
use super::rules::{in_bounds, pos, step_target, step_moves, ray_moves, running_moves, piece_moves, pseudo_moves,
    spec_moves, spec_not_check_if, king_safe_after, spec_castle_moves, spec_is_threatened_by, knight_at,
    knight_threat, ray_hit, line_threat, diag_threat, spec_legal_shape, pawn_moves, pawn_dir_moves, pawn_arrival,
    promotion, piece_way_ok, abs_int, trunc_div, path_sq,
    path_clear, rook_dir, bishop_dir, spec_in_check, king_square_after, has_same_move};
use super::board_representation::movement::same_move;
use super::piece::spec_opposite;

verus! {

// Laws of the rules of movement: what the generated moves, the attacks and the legality
// test are, stated square by square over the board.

/// Some move of `ms` goes from (x, y) to (tx, ty).
pub open spec fn has_move(ms: Seq<Move>, x: int, y: int, tx: int, ty: int) -> bool {
    exists|i: int| 0 <= i < ms.len() && (#[trigger] ms[i]).from == pos(x, y) && ms[i].to == pos(tx, ty)
}

/// (dx, dy) is a knight's jump: one square one way and two the other.
pub open spec fn knight_jump(dx: int, dy: int) -> bool {
    (abs_int(dx) == 1 && abs_int(dy) == 2) || (abs_int(dx) == 2 && abs_int(dy) == 1)
}

/// The square (x, y) holds no piece of colour `c`.
pub open spec fn not_own(g: GridView, x: int, y: int, c: Color) -> bool {
    !(sq(g, x, y) matches Some(t) && t.color == c)
}

proof fn lemma_small_cast(x: int)
    requires 0 <= x < 8,
    ensures (x as usize) as i8 as int == x, (x as usize) as int == x,
{
}

/// The moves of the piece on a square of the side to move are among the pseudo-moves.
proof fn lemma_pseudo_has_piece_moves(s: BoardState, n: nat, x: int, y: int, p: Piece, m: Move)
    requires
        0 <= x < 8, 0 <= y < 8, y * 8 + x < n,
        sq(s.grid, x, y) == Some(p), p.color == s.color,
        piece_moves(s, x, y, p).contains(m),
    ensures pseudo_moves(s, n).contains(m),
    decreases n,
{
    let i = n - 1;
    assert(((y * 8 + x) % 8 == x && (y * 8 + x) / 8 == y)) by (nonlinear_arith)
        requires 0 <= x < 8, 0 <= y;
    let prev = pseudo_moves(s, (n - 1) as nat);
    if i == y * 8 + x {
        let tail = piece_moves(s, x, y, p);
        assert(pseudo_moves(s, n) == prev + tail);
        let j = choose|j: int| 0 <= j < tail.len() && tail[j] == m;
        assert((prev + tail)[prev.len() + j] == m);
    } else {
        lemma_pseudo_has_piece_moves(s, (n - 1) as nat, x, y, p, m);
        let j = choose|j: int| 0 <= j < prev.len() && prev[j] == m;
        let tail = match sq(s.grid, i % 8, i / 8) {
            Some(q) => if q.color == s.color { piece_moves(s, i % 8, i / 8, q) } else { Seq::empty() },
            None => Seq::empty(),
        };
        assert(pseudo_moves(s, n) == prev + tail);
        assert((prev + tail)[j] == m);
    }
}

/// A pseudo-move that leaves the king safe is one of the legal moves.
proof fn lemma_safe_pseudo_is_legal(s: BoardState, m: Move)
    requires pseudo_moves(s, 64).contains(m), spec_not_check_if(s, m),
    ensures spec_moves(s).contains(m),
{
    let f = pseudo_moves(s, 64).filter(king_safe_after(s));
    assert(king_safe_after(s)(m));
    let ps = pseudo_moves(s, 64);
    let i = choose|i: int| 0 <= i < ps.len() && ps[i] == m;
    ps.lemma_filter_contains(king_safe_after(s), i);
    let j = choose|j: int| 0 <= j < f.len() && f[j] == m;
    assert((f + spec_castle_moves(s))[j] == m);
}

/// A step in one of the directions, onto the board and not onto a piece of its own, is
/// among the step moves.
proof fn lemma_step_moves_has(g: GridView, c: Color, x: int, y: int, p: Piece, dirs: Seq<(i8, i8)>, j: int)
    requires
        0 <= j < dirs.len(),
        in_bounds(x + dirs[j].0, y + dirs[j].1),
        not_own(g, x + dirs[j].0, y + dirs[j].1, c),
    ensures has_move(step_moves(g, c, x, y, p, dirs), x, y, x + dirs[j].0, y + dirs[j].1),
    decreases dirs.len(),
{
    let prev = step_moves(g, c, x, y, p, dirs.drop_last());
    let d = dirs.last();
    let tail = if in_bounds(x + d.0, y + d.1) { step_target(g, c, x, y, p, x + d.0, y + d.1) } else { Seq::empty() };
    assert(step_moves(g, c, x, y, p, dirs) == prev + tail);
    if j == dirs.len() - 1 {
        assert(tail.len() == 1);
        let m = tail[0];
        assert((prev + tail)[prev.len() as int] == m);
    } else {
        assert(dirs.drop_last()[j] == dirs[j]);
        lemma_step_moves_has(g, c, x, y, p, dirs.drop_last(), j);
        let i = choose|i: int| 0 <= i < prev.len() && (#[trigger] prev[i]).from == pos(x, y)
            && prev[i].to == pos(x + dirs[j].0, y + dirs[j].1);
        assert((prev + tail)[i] == prev[i]);
    }
}

/// Every step move goes from (x, y) by one of the directions onto the board, to a square
/// without a piece of its own, and promotes nothing.
proof fn lemma_step_moves_are(g: GridView, c: Color, x: int, y: int, p: Piece, dirs: Seq<(i8, i8)>, m: Move)
    requires step_moves(g, c, x, y, p, dirs).contains(m),
    ensures exists|j: int| 0 <= j < dirs.len() && m.from == pos(x, y) && m.to == pos(x + dirs[j].0, y + dirs[j].1)
        && in_bounds(x + dirs[j].0, y + dirs[j].1) && not_own(g, x + dirs[j].0, y + dirs[j].1, c) && m.promote is None,
    decreases dirs.len(),
{
    let prev = step_moves(g, c, x, y, p, dirs.drop_last());
    let d = dirs.last();
    let tail = if in_bounds(x + d.0, y + d.1) { step_target(g, c, x, y, p, x + d.0, y + d.1) } else { Seq::empty() };
    assert(step_moves(g, c, x, y, p, dirs) == prev + tail);
    let k = choose|k: int| 0 <= k < (prev + tail).len() && (prev + tail)[k] == m;
    if k < prev.len() {
        assert(prev[k] == m);
        lemma_step_moves_are(g, c, x, y, p, dirs.drop_last(), m);
        let j = choose|j: int| 0 <= j < dirs.drop_last().len() && m.from == pos(x, y)
            && m.to == pos(x + dirs.drop_last()[j].0, y + dirs.drop_last()[j].1)
            && in_bounds(x + dirs.drop_last()[j].0, y + dirs.drop_last()[j].1)
            && not_own(g, x + dirs.drop_last()[j].0, y + dirs.drop_last()[j].1, c) && m.promote is None;
        assert(dirs.drop_last()[j] == dirs[j]);
    } else {
        assert(tail[k - prev.len()] == m);
        assert(dirs[dirs.len() - 1] == d);
    }
}

/// Knights jump: for a knight of the side to move on (x, y), every knight's jump onto the
/// board that lands on an empty square or on an enemy piece is generated, and is a legal move
/// whenever it leaves the king safe.
pub proof fn lemma_knight_jumps_generated(s: BoardState, x: int, y: int, dx: int, dy: int)
    requires
        in_bounds(x, y),
        sq(s.grid, x, y) == Some(Piece { piecetype: PieceType::Knight, color: s.color }),
        knight_jump(dx, dy),
        in_bounds(x + dx, y + dy),
        not_own(s.grid, x + dx, y + dy, s.color),
    ensures
        has_move(pseudo_moves(s, 64), x, y, x + dx, y + dy),
        forall|m: Move| pseudo_moves(s, 64).contains(m) && m.from == pos(x, y) && m.to == pos(x + dx, y + dy)
            && spec_not_check_if(s, m) ==> #[trigger] spec_moves(s).contains(m),
{
    let p = Piece { piecetype: PieceType::Knight, color: s.color };
    let dirs = spec_directions(p);
    let j: int = if dx == 1 && dy == 2 { 0 } else if dx == 2 && dy == 1 { 1 } else if dx == 2 && dy == -1 { 2 }
        else if dx == 1 && dy == -2 { 3 } else if dx == -1 && dy == -2 { 4 } else if dx == -2 && dy == -1 { 5 }
        else if dx == -2 && dy == 1 { 6 } else { 7 };
    assert(dirs[j].0 == dx && dirs[j].1 == dy);
    lemma_step_moves_has(s.grid, s.color, x, y, p, dirs, j);
    let ms = piece_moves(s, x, y, p);
    let i = choose|i: int| 0 <= i < ms.len() && (#[trigger] ms[i]).from == pos(x, y) && ms[i].to == pos(x + dx, y + dy);
    assert(ms.contains(ms[i]));
    lemma_pseudo_has_piece_moves(s, 64, x, y, p, ms[i]);
    let ps = pseudo_moves(s, 64);
    let k = choose|k: int| 0 <= k < ps.len() && ps[k] == ms[i];
    assert(ps[k].from == pos(x, y) && ps[k].to == pos(x + dx, y + dy));
    assert forall|m: Move| pseudo_moves(s, 64).contains(m) && m.from == pos(x, y) && m.to == pos(x + dx, y + dy)
        && spec_not_check_if(s, m) implies #[trigger] spec_moves(s).contains(m) by {
        lemma_safe_pseudo_is_legal(s, m);
    }
}

/// Knights only jump: every move a knight on (x, y) generates is a knight's jump onto the
/// board, to a square without a piece of its own.
pub proof fn lemma_knight_moves_are_jumps(s: BoardState, x: int, y: int, m: Move)
    requires
        sq(s.grid, x, y) == Some(Piece { piecetype: PieceType::Knight, color: s.color }),
        piece_moves(s, x, y, Piece { piecetype: PieceType::Knight, color: s.color }).contains(m),
    ensures exists|dx: int, dy: int| knight_jump(dx, dy) && m.from == pos(x, y) && m.to == pos(x + dx, y + dy)
        && in_bounds(x + dx, y + dy) && not_own(s.grid, x + dx, y + dy, s.color) && m.promote is None,
{
    let p = Piece { piecetype: PieceType::Knight, color: s.color };
    let dirs = spec_directions(p);
    lemma_step_moves_are(s.grid, s.color, x, y, p, dirs, m);
    let j = choose|j: int| 0 <= j < dirs.len() && m.from == pos(x, y) && m.to == pos(x + dirs[j].0, y + dirs[j].1)
        && in_bounds(x + dirs[j].0, y + dirs[j].1) && not_own(s.grid, x + dirs[j].0, y + dirs[j].1, s.color) && m.promote is None;
    assert(knight_jump(dirs[j].0 as int, dirs[j].1 as int));
}


/// The back rank of the side to move: the first rank (row 7) for White, the eighth (row 0)
/// for Black.
pub open spec fn home_row(c: Color) -> int {
    if c == Color::White { 7 } else { 0 }
}

/// The castling rights of the side to move, kingside and queenside.
pub open spec fn rights(s: BoardState) -> (bool, bool) {
    let c = s.castles[s.counter as int];
    if s.color == Color::White { (c.0, c.1) } else { (c.2, c.3) }
}

/// Castling is offered exactly when it is allowed: every castling move goes from the king's
/// square two squares along the back rank; kingside, the right is kept, the two squares
/// between king and rook (files f and g) are empty and the king's square and the two it
/// crosses are not attacked; queenside, the right is kept, the three squares between (files
/// b, c and d) are empty and e, d and c are not attacked. Each such castling is offered.
pub proof fn lemma_castling(s: BoardState)
    ensures
        forall|i: int| 0 <= i < spec_castle_moves(s).len() ==> {
            let m = #[trigger] spec_castle_moves(s)[i];
            let r = home_row(s.color);
            let by = if s.color == Color::White { Color::Black } else { Color::White };
            &&& m.from == pos(4, r) && m.promote is None
            &&& (m.to == pos(6, r) ==> rights(s).0 && sq(s.grid, 5, r) is None && sq(s.grid, 6, r) is None
                    && !spec_is_threatened_by(s.grid, pos(4, r), by) && !spec_is_threatened_by(s.grid, pos(5, r), by)
                    && !spec_is_threatened_by(s.grid, pos(6, r), by))
            &&& (m.to == pos(2, r) ==> rights(s).1 && sq(s.grid, 1, r) is None && sq(s.grid, 2, r) is None
                    && sq(s.grid, 3, r) is None
                    && !spec_is_threatened_by(s.grid, pos(4, r), by) && !spec_is_threatened_by(s.grid, pos(3, r), by)
                    && !spec_is_threatened_by(s.grid, pos(2, r), by))
            &&& (m.to == pos(6, r) || m.to == pos(2, r))
        },
        ({
            let r = home_row(s.color);
            let by = if s.color == Color::White { Color::Black } else { Color::White };
            &&& (rights(s).0 && sq(s.grid, 5, r) is None && sq(s.grid, 6, r) is None
                    && !spec_is_threatened_by(s.grid, pos(4, r), by) && !spec_is_threatened_by(s.grid, pos(5, r), by)
                    && !spec_is_threatened_by(s.grid, pos(6, r), by)) ==> has_move(spec_castle_moves(s), 4, r, 6, r)
            &&& (rights(s).1 && sq(s.grid, 1, r) is None && sq(s.grid, 2, r) is None && sq(s.grid, 3, r) is None
                    && !spec_is_threatened_by(s.grid, pos(4, r), by) && !spec_is_threatened_by(s.grid, pos(3, r), by)
                    && !spec_is_threatened_by(s.grid, pos(2, r), by)) ==> has_move(spec_castle_moves(s), 4, r, 2, r)
        }),
{
    let ms = spec_castle_moves(s);
    let r = home_row(s.color);
    assert(pos(6, r) != pos(2, r));
    assert forall|i: int| 0 <= i < ms.len() implies ms[i].from == pos(4, r) && ms[i].promote is None
        && (ms[i].to == pos(6, r) || ms[i].to == pos(2, r)) by {
    }
    if rights(s).0 && sq(s.grid, 5, r) is None && sq(s.grid, 6, r) is None
        && !spec_is_threatened_by(s.grid, pos(4, r), if s.color == Color::White { Color::Black } else { Color::White })
        && !spec_is_threatened_by(s.grid, pos(5, r), if s.color == Color::White { Color::Black } else { Color::White })
        && !spec_is_threatened_by(s.grid, pos(6, r), if s.color == Color::White { Color::Black } else { Color::White }) {
        assert(ms[0].from == pos(4, r) && ms[0].to == pos(6, r));
    }
    if rights(s).1 && sq(s.grid, 1, r) is None && sq(s.grid, 2, r) is None && sq(s.grid, 3, r) is None
        && !spec_is_threatened_by(s.grid, pos(4, r), if s.color == Color::White { Color::Black } else { Color::White })
        && !spec_is_threatened_by(s.grid, pos(3, r), if s.color == Color::White { Color::Black } else { Color::White })
        && !spec_is_threatened_by(s.grid, pos(2, r), if s.color == Color::White { Color::Black } else { Color::White }) {
        assert(ms[ms.len() - 1].from == pos(4, r) && ms[ms.len() - 1].to == pos(2, r));
    }
}


/// The squares strictly between (x, y) and the square `k` steps away in direction (dx, dy)
/// are empty.
pub open spec fn between_empty(g: GridView, x: int, y: int, dx: int, dy: int, k: int) -> bool {
    forall|i: int| 1 <= i < k ==> #[trigger] sq(g, x + dx * i, y + dy * i) is None
}

/// (dx, dy) is one step along a rank or a file.
pub open spec fn orthogonal(dx: int, dy: int) -> bool {
    (dx == 0 && (dy == 1 || dy == -1)) || (dy == 0 && (dx == 1 || dx == -1))
}

/// (dx, dy) is one step along a diagonal.
pub open spec fn diagonal(dx: int, dy: int) -> bool {
    (dx == 1 || dx == -1) && (dy == 1 || dy == -1)
}

proof fn lemma_line_on_board(x: int, y: int, dx: int, dy: int, k: int, i: int)
    requires in_bounds(x, y), in_bounds(x + dx * k, y + dy * k), -1 <= dx <= 1, -1 <= dy <= 1, 0 <= i <= k,
    ensures in_bounds(x + dx * i, y + dy * i),
{
    assert(0 <= x + dx * i < 8 && 0 <= y + dy * i < 8) by (nonlinear_arith)
        requires 0 <= x < 8, 0 <= y < 8, 0 <= x + dx * k < 8, 0 <= y + dy * k < 8, -1 <= dx <= 1, -1 <= dy <= 1, 0 <= i <= k;
}

/// Walking from (x, y) in direction (dx, dy), the first piece met is the one `k` steps away
/// when the squares before it are empty.
proof fn lemma_ray_hit_finds(g: GridView, x: int, y: int, dx: int, dy: int, n: nat, first: bool, k: int)
    requires
        1 <= k <= n, in_bounds(x, y), in_bounds(x + dx * k, y + dy * k), -1 <= dx <= 1, -1 <= dy <= 1,
        between_empty(g, x, y, dx, dy, k), sq(g, x + dx * k, y + dy * k) is Some,
    ensures ray_hit(g, x, y, dx, dy, n, first) == Some((sq(g, x + dx * k, y + dy * k)->0, first && k == 1)),
    decreases k,
{
    lemma_line_on_board(x, y, dx, dy, k, 1);
    if k > 1 {
        assert(sq(g, x + dx * 1, y + dy * 1) is None);
        assert(x + dx * 1 == x + dx && y + dy * 1 == y + dy);
        assert forall|i: int| 1 <= i < k - 1 implies #[trigger] sq(g, (x + dx) + dx * i, (y + dy) + dy * i) is None by {
            assert((x + dx) + dx * i == x + dx * (i + 1) && (y + dy) + dy * i == y + dy * (i + 1)) by (nonlinear_arith);
            assert(sq(g, x + dx * (i + 1), y + dy * (i + 1)) is None);
        }
        assert((x + dx) + dx * (k - 1) == x + dx * k && (y + dy) + dy * (k - 1) == y + dy * k) by (nonlinear_arith);
        lemma_ray_hit_finds(g, x + dx, y + dy, dx, dy, (n - 1) as nat, false, k - 1);
    } else {
        assert(x + dx * 1 == x + dx && y + dy * 1 == y + dy);
    }
}

/// A knight attacks the squares a knight's jump away: a square on the board with a knight of
/// colour `c` on any of its eight knight's jumps is attacked by `c`.
pub proof fn lemma_knight_attacks(g: GridView, x: int, y: int, dx: int, dy: int, c: Color)
    requires
        in_bounds(x, y), knight_jump(dx, dy), in_bounds(x + dx, y + dy),
        sq(g, x + dx, y + dy) == Some(Piece { piecetype: PieceType::Knight, color: c }),
    ensures spec_is_threatened_by(g, pos(x, y), c),
{
    lemma_small_cast(x);
    lemma_small_cast(y);
    assert(knight_at(g, x, y, dx, dy, c));
    assert(knight_threat(g, x, y, c));
}

/// Rooks and queens attack along ranks and files, a king one square along them: a piece of
/// colour `c` that is a rook or a queen (or a king on the next square), with only empty
/// squares between it and a square on the board in line, attacks that square.
pub proof fn lemma_line_attacks(g: GridView, x: int, y: int, dx: int, dy: int, k: int, c: Color)
    requires
        in_bounds(x, y), orthogonal(dx, dy), 1 <= k, in_bounds(x + dx * k, y + dy * k),
        between_empty(g, x, y, dx, dy, k),
        sq(g, x + dx * k, y + dy * k) matches Some(p) && p.color == c
            && (p.piecetype == PieceType::Rook || p.piecetype == PieceType::Queen || (p.piecetype == PieceType::King && k == 1)),
    ensures spec_is_threatened_by(g, pos(x, y), c),
{
    lemma_small_cast(x);
    lemma_small_cast(y);
    assert(k <= 7) by (nonlinear_arith)
        requires in_bounds(x, y), in_bounds(x + dx * k, y + dy * k), orthogonal(dx, dy), 1 <= k;
    lemma_ray_hit_finds(g, x, y, dx, dy, 16, true, k);
    assert(line_threat(ray_hit(g, x, y, dx, dy, 16, true), c));
}

/// Bishops and queens attack along diagonals, a king one square along them, and a pawn the
/// squares diagonally in front of it (up the board for White, down for Black): such a piece
/// of colour `c`, with only empty squares between, attacks the square on the board in line.
pub proof fn lemma_diagonal_attacks(g: GridView, x: int, y: int, dx: int, dy: int, k: int, c: Color)
    requires
        in_bounds(x, y), diagonal(dx, dy), 1 <= k, in_bounds(x + dx * k, y + dy * k),
        between_empty(g, x, y, dx, dy, k),
        sq(g, x + dx * k, y + dy * k) matches Some(p) && p.color == c
            && (p.piecetype == PieceType::Bishop || p.piecetype == PieceType::Queen || (p.piecetype == PieceType::King && k == 1)
                || (p.piecetype == PieceType::Pawn && k == 1 && dy == (if c == Color::White { 1int } else { -1int }))),
    ensures spec_is_threatened_by(g, pos(x, y), c),
{
    lemma_small_cast(x);
    lemma_small_cast(y);
    assert(k <= 7) by (nonlinear_arith)
        requires in_bounds(x, y), in_bounds(x + dx * k, y + dy * k), diagonal(dx, dy), 1 <= k;
    lemma_ray_hit_finds(g, x, y, dx, dy, 16, true, k);
    let pc = if dy == 1 { Color::White } else { Color::Black };
    assert(diag_threat(ray_hit(g, x, y, dx, dy, 16, true), c, pc));
}

/// The side to move is in check when an enemy knight stands a knight's jump from its king.
pub proof fn lemma_knight_gives_check(s: BoardState, dx: int, dy: int)
    requires ({
        let k = if s.color == Color::White { s.wkingpos[s.counter as int] } else { s.bkingpos[s.counter as int] };
        let them = if s.color == Color::White { Color::Black } else { Color::White };
        &&& k.x < 8 && k.y < 8
        &&& knight_jump(dx, dy) && in_bounds(k.x + dx, k.y + dy)
        &&& sq(s.grid, k.x + dx, k.y + dy) == Some(Piece { piecetype: PieceType::Knight, color: them })
    }),
    ensures spec_in_check(s),
{
    let k = if s.color == Color::White { s.wkingpos[s.counter as int] } else { s.bkingpos[s.counter as int] };
    let them = if s.color == Color::White { Color::Black } else { Color::White };
    lemma_knight_attacks(s.grid, k.x as int, k.y as int, dx, dy, them);
    assert(pos(k.x as int, k.y as int) == k);
}


/// The sign of `d`: 1, -1 or 0.
pub open spec fn sign(d: int) -> int {
    if d > 0 { 1 } else if d < 0 { -1 } else { 0 }
}

proof fn lemma_unit_div(a: int, b: int)
    requires b > 0, -b <= a <= b,
    ensures
        trunc_div(a, b) == 1 <==> a == b,
        trunc_div(a, b) == -1 <==> a == -b,
        trunc_div(a, b) == 0 <==> -b < a < b,
{
    if a >= 0 {
        if a < b {
            assert(a / b == 0) by (nonlinear_arith) requires 0 <= a < b;
        } else {
            assert(a / b == 1) by (nonlinear_arith) requires a == b, b > 0;
        }
    } else {
        if -a < b {
            assert((-a) / b == 0) by (nonlinear_arith) requires 0 <= -a < b;
        } else {
            assert((-a) / b == 1) by (nonlinear_arith) requires -a == b, b > 0;
        }
    }
}

/// What `is_legal` accepts of the way a piece moves (before looking at checks): the piece
/// on the start square is of the side to move and the target holds none of its pieces; only
/// pawns promote; a knight makes a knight's jump and nothing else makes one; a bishop moves
/// along a diagonal; a rook never moves along a diagonal. Bishops, rooks and queens do not
/// jump: for a move along a rank, a file or a diagonal, every square strictly between the
/// start and the target is empty.
pub proof fn lemma_legal_way(s: BoardState, m: Move)
    requires spec_legal_shape(s, m),
    ensures ({
        let fx = m.from.x as int;
        let fy = m.from.y as int;
        let d0 = m.to.x - m.from.x;
        let d1 = m.to.y - m.from.y;
        let g = s.grid;
        let t = sq(g, fx, fy)->0.piecetype;
        let on_line = d0 == 0 || d1 == 0 || abs_int(d0) == abs_int(d1);
        let len = if abs_int(d0) >= abs_int(d1) { abs_int(d0) } else { abs_int(d1) };
        &&& sq(g, fx, fy) is Some
        &&& sq(g, fx, fy)->0.color == s.color
        &&& not_own(g, m.to.x as int, m.to.y as int, s.color)
        &&& len >= 1
        &&& (m.promote is Some ==> t == PieceType::Pawn)
        &&& (knight_jump(d0, d1) <==> t == PieceType::Knight)
        &&& (t == PieceType::Bishop ==> abs_int(d0) == abs_int(d1))
        &&& (t == PieceType::Rook ==> abs_int(d0) != abs_int(d1))
        &&& ((t == PieceType::Bishop || t == PieceType::Rook || t == PieceType::Queen) && on_line ==>
                between_empty(g, fx, fy, sign(d0), sign(d1), len))
    }),
{
    let fx = m.from.x as int;
    let fy = m.from.y as int;
    let d0 = m.to.x - m.from.x;
    let d1 = m.to.y - m.from.y;
    let g = s.grid;
    let p = sq(g, fx, fy)->0;
    let len = if abs_int(d0) >= abs_int(d1) { abs_int(d0) } else { abs_int(d1) };
    if d0 == 0 && d1 == 0 {
        assert(m.to.x as int == fx && m.to.y as int == fy);
        assert(false);
    }
    let knight_shape = abs_int(d0) != 0 && abs_int(d1) != 0 && abs_int(d0) + abs_int(d1) == 3;
    assert(knight_shape <==> knight_jump(d0, d1));
    if !knight_shape && (p.piecetype == PieceType::Bishop || p.piecetype == PieceType::Rook || p.piecetype == PieceType::Queen) {
        lemma_unit_div(d0, len);
        lemma_unit_div(d1, len);
        let vx = trunc_div(d0, len);
        let vy = trunc_div(d1, len);
        if d0 == 0 || d1 == 0 || abs_int(d0) == abs_int(d1) {
            assert(vx == sign(d0) && vy == sign(d1));
            assert forall|i: int| 1 <= i < len implies #[trigger] sq(g, fx + sign(d0) * i, fy + sign(d1) * i) is None by {
                assert(path_sq(g, fx, fy, vx, vy, i) is None);
            }
        }
    }
}


/// What `is_legal` accepts, the other way round: a piece of the side to move that makes a
/// knight's jump as a knight, or moves as a bishop, rook or queen along one of its lines with
/// every square between empty, onto a square on the board without a piece of its own and
/// promoting nothing, has the way of moving `is_legal` asks for.
pub proof fn lemma_legal_way_complete(s: BoardState, m: Move)
    requires ({
        let fx = m.from.x as int;
        let fy = m.from.y as int;
        let d0 = m.to.x - m.from.x;
        let d1 = m.to.y - m.from.y;
        let g = s.grid;
        let len = if abs_int(d0) >= abs_int(d1) { abs_int(d0) } else { abs_int(d1) };
        &&& in_bounds(m.to.x as int, m.to.y as int)
        &&& sq(g, fx, fy) matches Some(p) && p.color == s.color && ({
            let t = p.piecetype;
            ||| t == PieceType::Knight && knight_jump(d0, d1)
            ||| (t == PieceType::Bishop || t == PieceType::Queen) && abs_int(d0) == abs_int(d1) && len >= 1
                    && between_empty(g, fx, fy, sign(d0), sign(d1), len)
            ||| (t == PieceType::Rook || t == PieceType::Queen) && (d0 == 0 || d1 == 0) && len >= 1
                    && between_empty(g, fx, fy, sign(d0), sign(d1), len)
        })
        &&& not_own(g, m.to.x as int, m.to.y as int, s.color)
        &&& m.promote is None
    }),
    ensures spec_legal_shape(s, m),
{
    let fx = m.from.x as int;
    let fy = m.from.y as int;
    let d0 = m.to.x - m.from.x;
    let d1 = m.to.y - m.from.y;
    let g = s.grid;
    let p = sq(g, fx, fy)->0;
    let len = if abs_int(d0) >= abs_int(d1) { abs_int(d0) } else { abs_int(d1) };
    let knight_shape = abs_int(d0) != 0 && abs_int(d1) != 0 && abs_int(d0) + abs_int(d1) == 3;
    assert(knight_shape <==> knight_jump(d0, d1));
    if p.piecetype != PieceType::Knight {
        lemma_unit_div(d0, len);
        lemma_unit_div(d1, len);
        let vx = trunc_div(d0, len);
        let vy = trunc_div(d1, len);
        assert(vx == sign(d0) && vy == sign(d1));
        assert forall|i: int| 1 <= i < len implies #[trigger] path_sq(g, fx, fy, vx, vy, i) is None by {
            assert(sq(g, fx + sign(d0) * i, fy + sign(d1) * i) is None);
        }
        assert(path_clear(g, fx, fy, vx, vy, len));
    }
    assert(piece_way_ok(s, m, p));
}


/// Along one direction from (cx, cy), a square `k` steps away with the squares before it
/// empty and no piece of its own on it is a target of the sliding moves.
proof fn lemma_ray_moves_has(g: GridView, c: Color, x: int, y: int, p: Piece, cx: int, cy: int, dx: int, dy: int,
    n: nat, k: int)
    requires
        1 <= k <= n, in_bounds(cx, cy), -1 <= dx <= 1, -1 <= dy <= 1,
        in_bounds(cx + dx * k, cy + dy * k), between_empty(g, cx, cy, dx, dy, k),
        not_own(g, cx + dx * k, cy + dy * k, c),
    ensures has_move(ray_moves(g, c, x, y, p, cx, cy, dx, dy, n), x, y, cx + dx * k, cy + dy * k),
    decreases k,
{
    lemma_line_on_board(cx, cy, dx, dy, k, 1);
    assert(cx + dx * 1 == cx + dx && cy + dy * 1 == cy + dy);
    let tx = cx + dx;
    let ty = cy + dy;
    let ms = ray_moves(g, c, x, y, p, cx, cy, dx, dy, n);
    if k == 1 {
        let st = step_target(g, c, x, y, p, tx, ty);
        assert(st.len() == 1);
        match sq(g, tx, ty) {
            Some(t) => { assert(ms == st); assert(ms[0] == st[0]); },
            None => {
                let rest = ray_moves(g, c, x, y, p, tx, ty, dx, dy, (n - 1) as nat);
                assert(ms == st + rest);
                assert(ms[0] == st[0]);
            },
        }
    } else {
        assert(sq(g, cx + dx * 1, cy + dy * 1) is None);
        assert forall|i: int| 1 <= i < k - 1 implies #[trigger] sq(g, tx + dx * i, ty + dy * i) is None by {
            assert(tx + dx * i == cx + dx * (i + 1) && ty + dy * i == cy + dy * (i + 1)) by (nonlinear_arith)
                requires tx == cx + dx, ty == cy + dy;
            assert(sq(g, cx + dx * (i + 1), cy + dy * (i + 1)) is None);
        }
        assert(tx + dx * (k - 1) == cx + dx * k && ty + dy * (k - 1) == cy + dy * k) by (nonlinear_arith)
            requires tx == cx + dx, ty == cy + dy;
        lemma_ray_moves_has(g, c, x, y, p, tx, ty, dx, dy, (n - 1) as nat, k - 1);
        let st = step_target(g, c, x, y, p, tx, ty);
        let rest = ray_moves(g, c, x, y, p, tx, ty, dx, dy, (n - 1) as nat);
        assert(ms == st + rest);
        let i = choose|i: int| 0 <= i < rest.len() && (#[trigger] rest[i]).from == pos(x, y)
            && rest[i].to == pos(tx + dx * (k - 1), ty + dy * (k - 1));
        assert(ms[st.len() + i] == rest[i]);
    }
}

/// Move `m` goes from (x, y) to the square `k` steps from (cx, cy) in direction (dx, dy),
/// on the board, with the squares before it empty and no piece of colour `c` on it.
pub open spec fn ray_target(g: GridView, c: Color, x: int, y: int, cx: int, cy: int, dx: int, dy: int, m: Move, k: int) -> bool {
    1 <= k && m.from == pos(x, y) && m.to == pos(cx + dx * k, cy + dy * k)
        && in_bounds(cx + dx * k, cy + dy * k) && between_empty(g, cx, cy, dx, dy, k)
        && not_own(g, cx + dx * k, cy + dy * k, c) && m.promote is None
}

/// Every sliding move along one direction from (cx, cy) goes from (x, y) to a square `k`
/// steps away on the board, with the squares before it empty and no piece of its own on it.
proof fn lemma_ray_moves_are(g: GridView, c: Color, x: int, y: int, p: Piece, cx: int, cy: int, dx: int, dy: int,
    n: nat, m: Move)
    requires ray_moves(g, c, x, y, p, cx, cy, dx, dy, n).contains(m),
    ensures exists|k: int| k <= n && #[trigger] ray_target(g, c, x, y, cx, cy, dx, dy, m, k),
    decreases n,
{
    let tx = cx + dx;
    let ty = cy + dy;
    let ms = ray_moves(g, c, x, y, p, cx, cy, dx, dy, n);
    assert(cx + dx * 1 == tx && cy + dy * 1 == ty);
    let st = step_target(g, c, x, y, p, tx, ty);
    let j = choose|j: int| 0 <= j < ms.len() && ms[j] == m;
    if n == 0 || !in_bounds(tx, ty) {
        assert(ms.len() == 0);
        assert(false);
    }
    match sq(g, tx, ty) {
        Some(t) => {
            assert(ms == st);
            assert(ray_target(g, c, x, y, cx, cy, dx, dy, m, 1));
        },
        None => {
            let rest = ray_moves(g, c, x, y, p, tx, ty, dx, dy, (n - 1) as nat);
            assert(ms == st + rest);
            if j < st.len() {
                assert(st[j] == m);
                assert(ray_target(g, c, x, y, cx, cy, dx, dy, m, 1));
            } else {
                assert(rest[j - st.len()] == m);
                lemma_ray_moves_are(g, c, x, y, p, tx, ty, dx, dy, (n - 1) as nat, m);
                let k = choose|k: int| k <= n - 1 && #[trigger] ray_target(g, c, x, y, tx, ty, dx, dy, m, k);
                assert(tx + dx * k == cx + dx * (k + 1) && ty + dy * k == cy + dy * (k + 1)) by (nonlinear_arith)
                    requires tx == cx + dx, ty == cy + dy;
                assert forall|i: int| 1 <= i < k + 1 implies #[trigger] sq(g, cx + dx * i, cy + dy * i) is None by {
                    if i == 1 {
                        assert(cx + dx * 1 == tx && cy + dy * 1 == ty);
                    } else {
                        assert(cx + dx * i == tx + dx * (i - 1) && cy + dy * i == ty + dy * (i - 1)) by (nonlinear_arith)
                            requires tx == cx + dx, ty == cy + dy;
                        assert(sq(g, tx + dx * (i - 1), ty + dy * (i - 1)) is None);
                    }
                }
                assert(ray_target(g, c, x, y, cx, cy, dx, dy, m, k + 1));
            }
        },
    }
}

proof fn lemma_running_moves_has(g: GridView, c: Color, x: int, y: int, p: Piece, dirs: Seq<(i8, i8)>, j: int, k: int)
    requires
        0 <= j < dirs.len(), 1 <= k <= 8, in_bounds(x, y), -1 <= dirs[j].0 <= 1, -1 <= dirs[j].1 <= 1,
        in_bounds(x + dirs[j].0 * k, y + dirs[j].1 * k), between_empty(g, x, y, dirs[j].0 as int, dirs[j].1 as int, k),
        not_own(g, x + dirs[j].0 * k, y + dirs[j].1 * k, c),
    ensures has_move(running_moves(g, c, x, y, p, dirs), x, y, x + dirs[j].0 * k, y + dirs[j].1 * k),
    decreases dirs.len(),
{
    let prev = running_moves(g, c, x, y, p, dirs.drop_last());
    let d = dirs.last();
    let tail = ray_moves(g, c, x, y, p, x, y, d.0 as int, d.1 as int, 8);
    assert(running_moves(g, c, x, y, p, dirs) == prev + tail);
    if j == dirs.len() - 1 {
        lemma_ray_moves_has(g, c, x, y, p, x, y, d.0 as int, d.1 as int, 8, k);
        let i = choose|i: int| 0 <= i < tail.len() && (#[trigger] tail[i]).from == pos(x, y)
            && tail[i].to == pos(x + dirs[j].0 * k, y + dirs[j].1 * k);
        assert((prev + tail)[prev.len() + i] == tail[i]);
    } else {
        assert(dirs.drop_last()[j] == dirs[j]);
        lemma_running_moves_has(g, c, x, y, p, dirs.drop_last(), j, k);
        let i = choose|i: int| 0 <= i < prev.len() && (#[trigger] prev[i]).from == pos(x, y)
            && prev[i].to == pos(x + dirs[j].0 * k, y + dirs[j].1 * k);
        assert((prev + tail)[i] == prev[i]);
    }
}

proof fn lemma_running_moves_are(g: GridView, c: Color, x: int, y: int, p: Piece, dirs: Seq<(i8, i8)>, m: Move)
    requires running_moves(g, c, x, y, p, dirs).contains(m),
    ensures exists|j: int, k: int| 0 <= j < dirs.len() && 1 <= k <= 8 && m.from == pos(x, y)
        && m.to == pos(x + dirs[j].0 * k, y + dirs[j].1 * k) && in_bounds(x + dirs[j].0 * k, y + dirs[j].1 * k)
        && between_empty(g, x, y, dirs[j].0 as int, dirs[j].1 as int, k)
        && not_own(g, x + dirs[j].0 * k, y + dirs[j].1 * k, c) && m.promote is None,
    decreases dirs.len(),
{
    let prev = running_moves(g, c, x, y, p, dirs.drop_last());
    let d = dirs.last();
    let tail = ray_moves(g, c, x, y, p, x, y, d.0 as int, d.1 as int, 8);
    assert(running_moves(g, c, x, y, p, dirs) == prev + tail);
    let i = choose|i: int| 0 <= i < (prev + tail).len() && (prev + tail)[i] == m;
    if i < prev.len() {
        assert(prev[i] == m);
        lemma_running_moves_are(g, c, x, y, p, dirs.drop_last(), m);
        let (j, k) = choose|j: int, k: int| 0 <= j < dirs.drop_last().len() && 1 <= k <= 8 && m.from == pos(x, y)
            && m.to == pos(x + dirs.drop_last()[j].0 * k, y + dirs.drop_last()[j].1 * k)
            && in_bounds(x + dirs.drop_last()[j].0 * k, y + dirs.drop_last()[j].1 * k)
            && between_empty(g, x, y, dirs.drop_last()[j].0 as int, dirs.drop_last()[j].1 as int, k)
            && not_own(g, x + dirs.drop_last()[j].0 * k, y + dirs.drop_last()[j].1 * k, c) && m.promote is None;
        assert(dirs.drop_last()[j] == dirs[j]);
    } else {
        assert(tail[i - prev.len()] == m);
        lemma_ray_moves_are(g, c, x, y, p, x, y, d.0 as int, d.1 as int, 8, m);
        let k = choose|k: int| k <= 8 && #[trigger] ray_target(g, c, x, y, x, y, d.0 as int, d.1 as int, m, k);
        assert(dirs[dirs.len() - 1] == d);
        assert(ray_target(g, c, x, y, x, y, dirs[dirs.len() - 1].0 as int, dirs[dirs.len() - 1].1 as int, m, k));
    }
}

/// The directions a sliding piece moves in: a rook along ranks and files, a bishop along
/// diagonals, a queen along both.
pub open spec fn slides_along(t: PieceType, dx: int, dy: int) -> bool {
    ||| (t == PieceType::Rook || t == PieceType::Queen) && orthogonal(dx, dy)
    ||| (t == PieceType::Bishop || t == PieceType::Queen) && diagonal(dx, dy)
}

proof fn lemma_slide_dirs(p: Piece, dx: int, dy: int) -> (j: int)
    requires spec_can_run(p), slides_along(p.piecetype, dx, dy),
    ensures 0 <= j < spec_directions(p).len(), spec_directions(p)[j].0 == dx, spec_directions(p)[j].1 == dy,
{
    let dirs = spec_directions(p);
    if p.piecetype == PieceType::Rook {
        if dx == 0 && dy == -1 { 0 } else if dx == 1 && dy == 0 { 1 } else if dx == 0 && dy == 1 { 2 } else { 3 }
    } else if p.piecetype == PieceType::Bishop {
        if dx == -1 && dy == -1 { 0 } else if dx == 1 && dy == -1 { 1 } else if dx == 1 && dy == 1 { 2 } else { 3 }
    } else {
        if dx == -1 && dy == -1 { 0 } else if dx == 0 && dy == -1 { 1 } else if dx == 1 && dy == -1 { 2 }
        else if dx == 1 && dy == 0 { 3 } else if dx == 1 && dy == 1 { 4 } else if dx == 0 && dy == 1 { 5 }
        else if dx == -1 && dy == 1 { 6 } else { 7 }
    }
}

/// Bishops, rooks and queens slide: for such a piece of the side to move on (x, y), every
/// square along one of its directions (diagonals for the bishop, ranks and files for the
/// rook, both for the queen), on the board, with every square before it empty and no piece
/// of its own on it, is the target of a generated move, which is legal whenever it leaves the
/// king safe.
pub proof fn lemma_slides_generated(s: BoardState, x: int, y: int, dx: int, dy: int, k: int)
    requires
        in_bounds(x, y),
        sq(s.grid, x, y) matches Some(p) && p.color == s.color && spec_can_run(p) && slides_along(p.piecetype, dx, dy),
        1 <= k, in_bounds(x + dx * k, y + dy * k),
        between_empty(s.grid, x, y, dx, dy, k),
        not_own(s.grid, x + dx * k, y + dy * k, s.color),
    ensures
        has_move(pseudo_moves(s, 64), x, y, x + dx * k, y + dy * k),
        forall|m: Move| pseudo_moves(s, 64).contains(m) && spec_not_check_if(s, m) ==> #[trigger] spec_moves(s).contains(m),
{
    let p = sq(s.grid, x, y)->0;
    let dirs = spec_directions(p);
    let j = lemma_slide_dirs(p, dx, dy);
    assert(k <= 8) by (nonlinear_arith)
        requires in_bounds(x, y), in_bounds(x + dx * k, y + dy * k), slides_along(p.piecetype, dx, dy), 1 <= k;
    lemma_running_moves_has(s.grid, s.color, x, y, p, dirs, j, k);
    let ms = piece_moves(s, x, y, p);
    let i = choose|i: int| 0 <= i < ms.len() && (#[trigger] ms[i]).from == pos(x, y) && ms[i].to == pos(x + dx * k, y + dy * k);
    assert(ms.contains(ms[i]));
    lemma_pseudo_has_piece_moves(s, 64, x, y, p, ms[i]);
    let ps = pseudo_moves(s, 64);
    let q = choose|q: int| 0 <= q < ps.len() && ps[q] == ms[i];
    assert(ps[q].from == pos(x, y) && ps[q].to == pos(x + dx * k, y + dy * k));
    assert forall|m: Move| pseudo_moves(s, 64).contains(m) && spec_not_check_if(s, m) implies #[trigger] spec_moves(s).contains(m) by {
        lemma_safe_pseudo_is_legal(s, m);
    }
}

/// Bishops, rooks and queens only slide: every move such a piece on (x, y) generates goes
/// along one of its directions to a square on the board, every square before it empty and no
/// piece of its own on it.
pub proof fn lemma_slides_are(s: BoardState, x: int, y: int, m: Move)
    requires
        sq(s.grid, x, y) matches Some(p) && p.color == s.color && spec_can_run(p),
        piece_moves(s, x, y, sq(s.grid, x, y)->0).contains(m),
    ensures exists|dx: int, dy: int, k: int| slides_along(sq(s.grid, x, y)->0.piecetype, dx, dy) && 1 <= k
        && m.from == pos(x, y) && m.to == pos(x + dx * k, y + dy * k) && in_bounds(x + dx * k, y + dy * k)
        && between_empty(s.grid, x, y, dx, dy, k) && not_own(s.grid, x + dx * k, y + dy * k, s.color)
        && m.promote is None,
{
    let p = sq(s.grid, x, y)->0;
    let dirs = spec_directions(p);
    lemma_running_moves_are(s.grid, s.color, x, y, p, dirs, m);
    let (j, k) = choose|j: int, k: int| 0 <= j < dirs.len() && 1 <= k <= 8 && m.from == pos(x, y)
        && m.to == pos(x + dirs[j].0 * k, y + dirs[j].1 * k) && in_bounds(x + dirs[j].0 * k, y + dirs[j].1 * k)
        && between_empty(s.grid, x, y, dirs[j].0 as int, dirs[j].1 as int, k)
        && not_own(s.grid, x + dirs[j].0 * k, y + dirs[j].1 * k, s.color) && m.promote is None;
    assert(slides_along(p.piecetype, dirs[j].0 as int, dirs[j].1 as int));
}


/// (dx, dy) is a step to one of the eight neighbouring squares.
pub open spec fn king_step(dx: int, dy: int) -> bool {
    -1 <= dx <= 1 && -1 <= dy <= 1 && !(dx == 0 && dy == 0)
}

proof fn lemma_set_sq_other(g: GridView, x: int, y: int, v: Option<Piece>, a: int, b: int)
    requires grid_shape(g), in_bounds(x, y), in_bounds(a, b), !(a == x && b == y),
    ensures sq(set_sq(g, x, y, v), a, b) == sq(g, a, b),
{
}

proof fn lemma_pieces_to_pseudo(s: BoardState, x: int, y: int, p: Piece, tx: int, ty: int)
    requires
        in_bounds(x, y), sq(s.grid, x, y) == Some(p), p.color == s.color,
        has_move(piece_moves(s, x, y, p), x, y, tx, ty),
    ensures
        has_move(pseudo_moves(s, 64), x, y, tx, ty),
        forall|m: Move| pseudo_moves(s, 64).contains(m) && spec_not_check_if(s, m) ==> #[trigger] spec_moves(s).contains(m),
{
    let ms = piece_moves(s, x, y, p);
    let i = choose|i: int| 0 <= i < ms.len() && (#[trigger] ms[i]).from == pos(x, y) && ms[i].to == pos(tx, ty);
    assert(ms.contains(ms[i]));
    lemma_pseudo_has_piece_moves(s, 64, x, y, p, ms[i]);
    let ps = pseudo_moves(s, 64);
    let q = choose|q: int| 0 <= q < ps.len() && ps[q] == ms[i];
    assert(ps[q].from == pos(x, y) && ps[q].to == pos(tx, ty));
    assert forall|m: Move| pseudo_moves(s, 64).contains(m) && spec_not_check_if(s, m) implies #[trigger] spec_moves(s).contains(m) by {
        lemma_safe_pseudo_is_legal(s, m);
    }
}

/// Kings step: for a king of the side to move on (x, y), every neighbouring square on the
/// board without a piece of its own is the target of a generated move, legal whenever it
/// leaves the king safe.
pub proof fn lemma_king_steps_generated(s: BoardState, x: int, y: int, dx: int, dy: int)
    requires
        grid_shape(s.grid), in_bounds(x, y),
        sq(s.grid, x, y) == Some(Piece { piecetype: PieceType::King, color: s.color }),
        king_step(dx, dy), in_bounds(x + dx, y + dy), not_own(s.grid, x + dx, y + dy, s.color),
    ensures
        has_move(pseudo_moves(s, 64), x, y, x + dx, y + dy),
        forall|m: Move| pseudo_moves(s, 64).contains(m) && spec_not_check_if(s, m) ==> #[trigger] spec_moves(s).contains(m),
{
    let p = Piece { piecetype: PieceType::King, color: s.color };
    let dirs = spec_directions(p);
    let g2 = set_sq(s.grid, x, y, None);
    let j: int = if dx == -1 && dy == -1 { 0 } else if dx == 0 && dy == -1 { 1 } else if dx == 1 && dy == -1 { 2 }
        else if dx == 1 && dy == 0 { 3 } else if dx == 1 && dy == 1 { 4 } else if dx == 0 && dy == 1 { 5 }
        else if dx == -1 && dy == 1 { 6 } else { 7 };
    assert(dirs[j].0 == dx && dirs[j].1 == dy);
    lemma_set_sq_other(s.grid, x, y, None, x + dx, y + dy);
    lemma_step_moves_has(g2, s.color, x, y, p, dirs, j);
    lemma_pieces_to_pseudo(s, x, y, p, x + dx, y + dy);
}

/// Kings only step: every move a king on (x, y) generates goes to a neighbouring square on
/// the board without a piece of its own.
pub proof fn lemma_king_moves_are_steps(s: BoardState, x: int, y: int, m: Move)
    requires
        grid_shape(s.grid), in_bounds(x, y),
        sq(s.grid, x, y) == Some(Piece { piecetype: PieceType::King, color: s.color }),
        piece_moves(s, x, y, Piece { piecetype: PieceType::King, color: s.color }).contains(m),
    ensures exists|dx: int, dy: int| king_step(dx, dy) && m.from == pos(x, y) && m.to == pos(x + dx, y + dy)
        && in_bounds(x + dx, y + dy) && not_own(s.grid, x + dx, y + dy, s.color) && m.promote is None,
{
    let p = Piece { piecetype: PieceType::King, color: s.color };
    let dirs = spec_directions(p);
    let g2 = set_sq(s.grid, x, y, None);
    lemma_step_moves_are(g2, s.color, x, y, p, dirs, m);
    let j = choose|j: int| 0 <= j < dirs.len() && m.from == pos(x, y) && m.to == pos(x + dirs[j].0, y + dirs[j].1)
        && in_bounds(x + dirs[j].0, y + dirs[j].1) && not_own(g2, x + dirs[j].0, y + dirs[j].1, s.color) && m.promote is None;
    assert(king_step(dirs[j].0 as int, dirs[j].1 as int));
    lemma_set_sq_other(s.grid, x, y, None, x + dirs[j].0, y + dirs[j].1);
}

/// The direction a pawn of colour `c` moves in: up the board (toward row 0) for White.
pub open spec fn forward(c: Color) -> int {
    if c == Color::White { -1 } else { 1 }
}

proof fn lemma_arrival_has(x: int, y: int, tx: int, ty: int, p: Piece, taken: int)
    ensures
        has_move(pawn_arrival(x, y, tx, ty, p, taken), x, y, tx, ty),
        pawn_arrival(x, y, tx, ty, p, taken).len() >= 1,
        forall|i: int| 0 <= i < pawn_arrival(x, y, tx, ty, p, taken).len() ==>
            (#[trigger] pawn_arrival(x, y, tx, ty, p, taken)[i]).from == pos(x, y)
            && pawn_arrival(x, y, tx, ty, p, taken)[i].to == pos(tx, ty),
{
    let a = pawn_arrival(x, y, tx, ty, p, taken);
    assert(a[0].from == pos(x, y) && a[0].to == pos(tx, ty));
}

proof fn lemma_pawn_parts(s: BoardState, x: int, y: int, p: Piece, part: int, tx: int, ty: int)
    requires
        p.piecetype == PieceType::Pawn, 0 <= part < 3,
        has_move(pawn_dir_moves(s, x, y, p, spec_directions(p)[part].0 as int, spec_directions(p)[part].1 as int), x, y, tx, ty),
    ensures has_move(pawn_moves(s, x, y, p), x, y, tx, ty),
{
    let d = spec_directions(p);
    let a = pawn_dir_moves(s, x, y, p, d[0].0 as int, d[0].1 as int);
    let b = pawn_dir_moves(s, x, y, p, d[1].0 as int, d[1].1 as int);
    let c = pawn_dir_moves(s, x, y, p, d[2].0 as int, d[2].1 as int);
    assert(pawn_moves(s, x, y, p) == a + b + c);
    if part == 0 {
        let i = choose|i: int| 0 <= i < a.len() && (#[trigger] a[i]).from == pos(x, y) && a[i].to == pos(tx, ty);
        assert((a + b + c)[i] == a[i]);
    } else if part == 1 {
        let i = choose|i: int| 0 <= i < b.len() && (#[trigger] b[i]).from == pos(x, y) && b[i].to == pos(tx, ty);
        assert((a + b + c)[a.len() + i] == b[i]);
    } else {
        let i = choose|i: int| 0 <= i < c.len() && (#[trigger] c[i]).from == pos(x, y) && c[i].to == pos(tx, ty);
        assert((a + b + c)[a.len() + b.len() + i] == c[i]);
    }
}

/// Pawns push, capture and take en passant: for a pawn of the side to move on (x, y), the
/// square in front (toward the other side) when it is empty; from its starting row (row 6 for
/// White, 1 for Black) the square two in front when both are empty; a square diagonally in
/// front holding an enemy piece; and, the row after an enemy pawn's double step beside it (row
/// 3 for White, 4 for Black), the empty square diagonally in front on that pawn's file — each is
/// the target of a generated move, legal whenever it leaves the king safe.
pub proof fn lemma_pawn_moves_generated(s: BoardState, x: int, y: int, dx: int, ty: int)
    requires
        in_bounds(x, y), sq(s.grid, x, y) == Some(Piece { piecetype: PieceType::Pawn, color: s.color }),
        in_bounds(x + dx, ty),
        ({
            let f = forward(s.color);
            ||| dx == 0 && ty == y + f && sq(s.grid, x, ty) is None
            ||| dx == 0 && ty == y + 2 * f && y == (if s.color == Color::White { 6int } else { 1int })
                    && sq(s.grid, x, y + f) is None && sq(s.grid, x, ty) is None
            ||| (dx == 1 || dx == -1) && ty == y + f && (sq(s.grid, x + dx, ty) matches Some(t) && t.color != s.color)
            ||| (dx == 1 || dx == -1) && ty == y + f && sq(s.grid, x + dx, ty) is None
                    && s.passants[s.counter as int] == Some((x + dx) as i8)
                    && y == (if s.color == Color::White { 3int } else { 4int })
        }),
    ensures
        has_move(pseudo_moves(s, 64), x, y, x + dx, ty),
        forall|m: Move| pseudo_moves(s, 64).contains(m) && spec_not_check_if(s, m) ==> #[trigger] spec_moves(s).contains(m),
{
    let p = Piece { piecetype: PieceType::Pawn, color: s.color };
    let d = spec_directions(p);
    let f = forward(s.color);
    let white = s.color == Color::White;
    let part: int = if dx == -1 { 0 } else if dx == 0 { 1 } else { 2 };
    assert(d[part].0 == dx && d[part].1 == f);
    let pd = pawn_dir_moves(s, x, y, p, dx, f);
    if dx == 0 {
        let arr = pawn_arrival(x, y, x, y + f, p, 0);
        lemma_arrival_has(x, y, x, y + f, p, 0);
        let extra = if y == 6 && white && sq(s.grid, x, y + f - 1) is None {
            seq![crate::backend::board_representation::movement::spec_move(x, y, x, y + f - 1, None,
                crate::backend::piece::spec_value_at(p, pos(x, y + f - 1)) - crate::backend::piece::spec_value_at(p, pos(x, y)))]
        } else if y == 1 && !white && sq(s.grid, x, y + f + 1) is None {
            seq![crate::backend::board_representation::movement::spec_move(x, y, x, y + f + 1, None,
                crate::backend::piece::spec_value_at(p, pos(x, y + f + 1)) - crate::backend::piece::spec_value_at(p, pos(x, y)))]
        } else {
            Seq::empty()
        };
        assert(pd == arr + extra);
        if ty == y + f {
            let i = choose|i: int| 0 <= i < arr.len() && (#[trigger] arr[i]).from == pos(x, y) && arr[i].to == pos(x, ty);
            assert(pd[i] == arr[i]);
        } else {
            assert(extra.len() == 1 && extra[0].from == pos(x, y) && extra[0].to == pos(x, ty));
            assert(pd[arr.len() as int] == extra[0]);
        }
    } else {
        match sq(s.grid, x + dx, ty) {
            Some(t) => {
                lemma_arrival_has(x, y, x + dx, ty, p, crate::backend::piece::spec_combined_value_at(t, pos(x + dx, ty)));
            },
            None => {
                assert(pd.len() == 1 && pd[0].from == pos(x, y) && pd[0].to == pos(x + dx, ty));
            },
        }
    }
    lemma_pawn_parts(s, x, y, p, part, x + dx, ty);
    lemma_pieces_to_pseudo(s, x, y, p, x + dx, ty);
}


/// The row a pawn of colour `c` promotes on: row 0 (the eighth rank) for White, row 7 for
/// Black.
pub open spec fn last_row(c: Color) -> int {
    if c == Color::White { 0 } else { 7 }
}

proof fn lemma_pawn_dir_contains(s: BoardState, x: int, y: int, p: Piece, part: int, m: Move)
    requires
        p.piecetype == PieceType::Pawn, 0 <= part < 3,
        pawn_dir_moves(s, x, y, p, spec_directions(p)[part].0 as int, spec_directions(p)[part].1 as int).contains(m),
    ensures pawn_moves(s, x, y, p).contains(m),
{
    let d = spec_directions(p);
    let a = pawn_dir_moves(s, x, y, p, d[0].0 as int, d[0].1 as int);
    let b = pawn_dir_moves(s, x, y, p, d[1].0 as int, d[1].1 as int);
    let c = pawn_dir_moves(s, x, y, p, d[2].0 as int, d[2].1 as int);
    assert(pawn_moves(s, x, y, p) == a + b + c);
    if part == 0 {
        let j = choose|j: int| 0 <= j < a.len() && a[j] == m;
        assert((a + b + c)[j] == m);
    } else if part == 1 {
        let j = choose|j: int| 0 <= j < b.len() && b[j] == m;
        assert((a + b + c)[a.len() + j] == m);
    } else {
        let j = choose|j: int| 0 <= j < c.len() && c[j] == m;
        assert((a + b + c)[a.len() + b.len() + j] == m);
    }
}

#[verifier::rlimit(40)]
#[verifier::spinoff_prover]
proof fn lemma_promotion_in_dir(s: BoardState, x: int, y: int, p: Piece, dx: int, f: int, k: int)
    requires
        p.piecetype == PieceType::Pawn, p.color == s.color, 0 <= k < 4, in_bounds(x + dx, y + f),
        y + f == 0 || y + f == 7,
        (dx == 0 && sq(s.grid, x, y + f) is None)
            || (dx != 0 && (sq(s.grid, x + dx, y + f) matches Some(t) && t.color != s.color)),
    ensures ({
        let taken = match sq(s.grid, x + dx, y + f) {
            Some(t) => crate::backend::piece::spec_combined_value_at(t, pos(x + dx, y + f)),
            None => 0,
        };
        pawn_dir_moves(s, x, y, p, dx, f).contains(pawn_arrival(x, y, x + dx, y + f, p, taken)[k])
    }),
{
    let taken = match sq(s.grid, x + dx, y + f) {
        Some(t) => crate::backend::piece::spec_combined_value_at(t, pos(x + dx, y + f)),
        None => 0,
    };
    let arr = pawn_arrival(x, y, x + dx, y + f, p, taken);
    let pd = pawn_dir_moves(s, x, y, p, dx, f);
    assert(arr.len() == 4);
    if dx == 0 {
        assert(pd.subrange(0, 4) =~= arr) by {
            assert(y != 6 || s.color != Color::White || true);
        }
        assert(pd[k] == arr[k]);
    } else {
        assert(pd == arr);
        assert(pd[k] == arr[k]);
    }
}

proof fn lemma_promotion_move(s: BoardState, x: int, y: int, p: Piece, dx: int, f: int, kind: PieceType) -> (m: Move)
    requires
        p.piecetype == PieceType::Pawn, p.color == s.color, in_bounds(x + dx, y + f),
        (y + f == 0 && p.color == Color::White) || (y + f == 7 && p.color == Color::Black),
        (dx == 0 && sq(s.grid, x, y + f) is None)
            || (dx != 0 && (sq(s.grid, x + dx, y + f) matches Some(t) && t.color != s.color)),
        kind == PieceType::Queen || kind == PieceType::Knight || kind == PieceType::Bishop || kind == PieceType::Rook,
    ensures
        pawn_dir_moves(s, x, y, p, dx, f).contains(m),
        m.from == pos(x, y), m.to == pos(x + dx, y + f), m.promote == Some(Piece { piecetype: kind, color: s.color }),
{
    let taken = match sq(s.grid, x + dx, y + f) {
        Some(t) => crate::backend::piece::spec_combined_value_at(t, pos(x + dx, y + f)),
        None => 0,
    };
    let k: int = if kind == PieceType::Queen { 0 } else if kind == PieceType::Knight { 1 } else if kind == PieceType::Bishop { 2 } else { 3 };
    lemma_promotion_in_dir(s, x, y, p, dx, f, k);
    pawn_arrival(x, y, x + dx, y + f, p, taken)[k]
}

/// Pawns promote: a pawn of the side to move that pushes onto, or captures onto, its last
/// row has a generated move there for each of queen, knight, bishop and rook, of its colour.
pub proof fn lemma_pawn_promotes(s: BoardState, x: int, y: int, dx: int, kind: PieceType)
    requires
        in_bounds(x, y), sq(s.grid, x, y) == Some(Piece { piecetype: PieceType::Pawn, color: s.color }),
        y + forward(s.color) == last_row(s.color), in_bounds(x + dx, y + forward(s.color)),
        (dx == 0 && sq(s.grid, x, y + forward(s.color)) is None)
            || ((dx == 1 || dx == -1) && (sq(s.grid, x + dx, y + forward(s.color)) matches Some(t) && t.color != s.color)),
        kind == PieceType::Queen || kind == PieceType::Knight || kind == PieceType::Bishop || kind == PieceType::Rook,
    ensures
        exists|i: int| 0 <= i < pseudo_moves(s, 64).len() && (#[trigger] pseudo_moves(s, 64)[i]).from == pos(x, y)
            && pseudo_moves(s, 64)[i].to == pos(x + dx, y + forward(s.color))
            && pseudo_moves(s, 64)[i].promote == Some(Piece { piecetype: kind, color: s.color }),
{
    let p = Piece { piecetype: PieceType::Pawn, color: s.color };
    let d = spec_directions(p);
    let f = forward(s.color);
    let part: int = if dx == -1 { 0 } else if dx == 0 { 1 } else { 2 };
    assert(d[part].0 == dx && d[part].1 == f);
    let m = lemma_promotion_move(s, x, y, p, dx, f, kind);
    lemma_pawn_dir_contains(s, x, y, p, part, m);
    lemma_pseudo_has_piece_moves(s, 64, x, y, p, m);
    let ps = pseudo_moves(s, 64);
    let q = choose|q: int| 0 <= q < ps.len() && ps[q] == m;
    assert(ps[q].from == pos(x, y));
}


/// The piece `p` stands `k` steps from (x, y) in direction (dx, dy), on the board, with the
/// squares between empty.
pub open spec fn seen_at(g: GridView, x: int, y: int, dx: int, dy: int, k: int, p: Piece) -> bool {
    1 <= k && in_bounds(x + dx * k, y + dy * k) && between_empty(g, x, y, dx, dy, k)
        && sq(g, x + dx * k, y + dy * k) == Some(p)
}

proof fn lemma_ray_hit_is(g: GridView, x: int, y: int, dx: int, dy: int, n: nat, first: bool)
    requires ray_hit(g, x, y, dx, dy, n, first) is Some,
    ensures exists|k: int| k <= n && #[trigger] seen_at(g, x, y, dx, dy, k, ray_hit(g, x, y, dx, dy, n, first).unwrap().0)
        && ray_hit(g, x, y, dx, dy, n, first).unwrap().1 == (first && k == 1),
    decreases n,
{
    let h = ray_hit(g, x, y, dx, dy, n, first)->0;
    assert(x + dx * 1 == x + dx && y + dy * 1 == y + dy);
    match sq(g, x + dx, y + dy) {
        Some(p) => {
            assert(seen_at(g, x, y, dx, dy, 1, h.0));
        },
        None => {
            lemma_ray_hit_is(g, x + dx, y + dy, dx, dy, (n - 1) as nat, false);
            let k = choose|k: int| k <= n - 1 && #[trigger] seen_at(g, x + dx, y + dy, dx, dy, k, h.0) && h.1 == (false && k == 1);
            assert((x + dx) + dx * k == x + dx * (k + 1) && (y + dy) + dy * k == y + dy * (k + 1)) by (nonlinear_arith);
            assert forall|i: int| 1 <= i < k + 1 implies #[trigger] sq(g, x + dx * i, y + dy * i) is None by {
                if i == 1 {
                } else {
                    assert(x + dx * i == (x + dx) + dx * (i - 1) && y + dy * i == (y + dy) + dy * (i - 1)) by (nonlinear_arith);
                    assert(sq(g, (x + dx) + dx * (i - 1), (y + dy) + dy * (i - 1)) is None);
                }
            }
            assert(seen_at(g, x, y, dx, dy, k + 1, h.0));
        },
    }
}

/// What attacks square (x, y) for colour `c`: a knight of `c` a knight's jump away; a rook or
/// queen of `c` along a rank or file with the squares between empty; a bishop or queen of `c`
/// along a diagonal likewise; a king of `c` on a neighbouring square; or a pawn of `c` on a
/// square diagonally behind it, as seen from the direction that pawn moves in.
pub open spec fn attacked_by(g: GridView, x: int, y: int, c: Color) -> bool {
    ||| exists|dx: int, dy: int| knight_jump(dx, dy) && in_bounds(x + dx, y + dy)
            && #[trigger] sq(g, x + dx, y + dy) == Some(Piece { piecetype: PieceType::Knight, color: c })
    ||| exists|dx: int, dy: int, k: int, p: Piece| orthogonal(dx, dy) && #[trigger] seen_at(g, x, y, dx, dy, k, p) && p.color == c
            && (p.piecetype == PieceType::Rook || p.piecetype == PieceType::Queen || (p.piecetype == PieceType::King && k == 1))
    ||| exists|dx: int, dy: int, k: int, p: Piece| diagonal(dx, dy) && #[trigger] seen_at(g, x, y, dx, dy, k, p) && p.color == c
            && (p.piecetype == PieceType::Bishop || p.piecetype == PieceType::Queen || (p.piecetype == PieceType::King && k == 1)
                || (p.piecetype == PieceType::Pawn && k == 1 && dy == (if c == Color::White { 1int } else { -1int })))
}

/// `is_threatened_by` (and so `is_check`) answers exactly whether a square is attacked: for a
/// square on the board, it is threatened by `c` if and only if a piece of `c` attacks it the
/// way its kind attacks (see `attacked_by`).
pub proof fn lemma_threats_are_attacks(g: GridView, x: int, y: int, c: Color)
    requires in_bounds(x, y),
    ensures spec_is_threatened_by(g, pos(x, y), c) <==> attacked_by(g, x, y, c),
{
    lemma_small_cast(x);
    lemma_small_cast(y);
    if attacked_by(g, x, y, c) {
        if exists|dx: int, dy: int| knight_jump(dx, dy) && in_bounds(x + dx, y + dy)
            && #[trigger] sq(g, x + dx, y + dy) == Some(Piece { piecetype: PieceType::Knight, color: c }) {
            let (dx, dy) = choose|dx: int, dy: int| knight_jump(dx, dy) && in_bounds(x + dx, y + dy)
                && #[trigger] sq(g, x + dx, y + dy) == Some(Piece { piecetype: PieceType::Knight, color: c });
            lemma_knight_attacks(g, x, y, dx, dy, c);
        } else if exists|dx: int, dy: int, k: int, p: Piece| orthogonal(dx, dy) && #[trigger] seen_at(g, x, y, dx, dy, k, p) && p.color == c
            && (p.piecetype == PieceType::Rook || p.piecetype == PieceType::Queen || (p.piecetype == PieceType::King && k == 1)) {
            let (dx, dy, k, p) = choose|dx: int, dy: int, k: int, p: Piece| orthogonal(dx, dy) && #[trigger] seen_at(g, x, y, dx, dy, k, p) && p.color == c
                && (p.piecetype == PieceType::Rook || p.piecetype == PieceType::Queen || (p.piecetype == PieceType::King && k == 1));
            lemma_line_attacks(g, x, y, dx, dy, k, c);
        } else {
            let (dx, dy, k, p) = choose|dx: int, dy: int, k: int, p: Piece| diagonal(dx, dy) && #[trigger] seen_at(g, x, y, dx, dy, k, p) && p.color == c
                && (p.piecetype == PieceType::Bishop || p.piecetype == PieceType::Queen || (p.piecetype == PieceType::King && k == 1)
                    || (p.piecetype == PieceType::Pawn && k == 1 && dy == (if c == Color::White { 1int } else { -1int })));
            lemma_diagonal_attacks(g, x, y, dx, dy, k, c);
        }
    }
    if spec_is_threatened_by(g, pos(x, y), c) {
        if knight_threat(g, x, y, c) {
            if knight_at(g, x, y, 1, 2, c) { assert(knight_jump(1, 2)); }
            else if knight_at(g, x, y, 2, 1, c) { assert(knight_jump(2, 1)); }
            else if knight_at(g, x, y, 2, -1, c) { assert(knight_jump(2, -1)); }
            else if knight_at(g, x, y, 1, -2, c) { assert(knight_jump(1, -2)); }
            else if knight_at(g, x, y, -1, -2, c) { assert(knight_jump(-1, -2)); }
            else if knight_at(g, x, y, -2, -1, c) { assert(knight_jump(-2, -1)); }
            else if knight_at(g, x, y, -2, 1, c) { assert(knight_jump(-2, 1)); }
            else { assert(knight_jump(-1, 2)); }
        } else {
            lemma_threat_rays(g, x, y, c);
        }
    }
}

proof fn lemma_line_seen(g: GridView, x: int, y: int, dx: int, dy: int, c: Color)
    requires orthogonal(dx, dy), line_threat(ray_hit(g, x, y, dx, dy, 16, true), c),
    ensures attacked_by(g, x, y, c),
{
    lemma_ray_hit_is(g, x, y, dx, dy, 16, true);
    let h = ray_hit(g, x, y, dx, dy, 16, true)->0;
    let k = choose|k: int| k <= 16 && #[trigger] seen_at(g, x, y, dx, dy, k, h.0) && h.1 == (true && k == 1);
    assert(seen_at(g, x, y, dx, dy, k, h.0));
}

proof fn lemma_diag_seen(g: GridView, x: int, y: int, dx: int, dy: int, c: Color, pc: Color)
    requires diagonal(dx, dy), diag_threat(ray_hit(g, x, y, dx, dy, 16, true), c, pc),
        pc == (if dy == 1 { Color::White } else { Color::Black }),
    ensures attacked_by(g, x, y, c),
{
    lemma_ray_hit_is(g, x, y, dx, dy, 16, true);
    let h = ray_hit(g, x, y, dx, dy, 16, true)->0;
    let k = choose|k: int| k <= 16 && #[trigger] seen_at(g, x, y, dx, dy, k, h.0) && h.1 == (true && k == 1);
    assert(seen_at(g, x, y, dx, dy, k, h.0));
}

proof fn lemma_threat_rays(g: GridView, x: int, y: int, c: Color)
    requires ({
        ||| line_threat(ray_hit(g, x, y, 0, -1, 16, true), c)
        ||| line_threat(ray_hit(g, x, y, 1, 0, 16, true), c)
        ||| line_threat(ray_hit(g, x, y, 0, 1, 16, true), c)
        ||| line_threat(ray_hit(g, x, y, -1, 0, 16, true), c)
        ||| diag_threat(ray_hit(g, x, y, 1, 1, 16, true), c, Color::White)
        ||| diag_threat(ray_hit(g, x, y, -1, 1, 16, true), c, Color::White)
        ||| diag_threat(ray_hit(g, x, y, 1, -1, 16, true), c, Color::Black)
        ||| diag_threat(ray_hit(g, x, y, -1, -1, 16, true), c, Color::Black)
    }),
    ensures attacked_by(g, x, y, c),
{
    if line_threat(ray_hit(g, x, y, 0, -1, 16, true), c) { lemma_line_seen(g, x, y, 0, -1, c); }
    else if line_threat(ray_hit(g, x, y, 1, 0, 16, true), c) { lemma_line_seen(g, x, y, 1, 0, c); }
    else if line_threat(ray_hit(g, x, y, 0, 1, 16, true), c) { lemma_line_seen(g, x, y, 0, 1, c); }
    else if line_threat(ray_hit(g, x, y, -1, 0, 16, true), c) { lemma_line_seen(g, x, y, -1, 0, c); }
    else if diag_threat(ray_hit(g, x, y, 1, 1, 16, true), c, Color::White) { lemma_diag_seen(g, x, y, 1, 1, c, Color::White); }
    else if diag_threat(ray_hit(g, x, y, -1, 1, 16, true), c, Color::White) { lemma_diag_seen(g, x, y, -1, 1, c, Color::White); }
    else if diag_threat(ray_hit(g, x, y, 1, -1, 16, true), c, Color::Black) { lemma_diag_seen(g, x, y, 1, -1, c, Color::Black); }
    else { lemma_diag_seen(g, x, y, -1, -1, c, Color::Black); }
}


/// `is_check` answers whether the king of the side to move (on the board) is attacked by a
/// piece of the other side, the way that piece's kind attacks.
pub proof fn lemma_check_is_attack(s: BoardState)
    requires ({
        let k = if s.color == Color::White { s.wkingpos[s.counter as int] } else { s.bkingpos[s.counter as int] };
        k.x < 8 && k.y < 8
    }),
    ensures ({
        let k = if s.color == Color::White { s.wkingpos[s.counter as int] } else { s.bkingpos[s.counter as int] };
        let them = if s.color == Color::White { Color::Black } else { Color::White };
        spec_in_check(s) <==> attacked_by(s.grid, k.x as int, k.y as int, them)
    }),
{
    let k = if s.color == Color::White { s.wkingpos[s.counter as int] } else { s.bkingpos[s.counter as int] };
    let them = if s.color == Color::White { Color::Black } else { Color::White };
    lemma_threats_are_attacks(s.grid, k.x as int, k.y as int, them);
    assert(pos(k.x as int, k.y as int) == k);
}

/// Every pseudo-move is a move that the piece of the side to move on its start square
/// generates.
pub proof fn lemma_pseudo_from_piece(s: BoardState, n: nat, m: Move)
    requires pseudo_moves(s, n).contains(m), n <= 64,
    ensures exists|x: int, y: int| in_bounds(x, y) && #[trigger] sq(s.grid, x, y) is Some
        && sq(s.grid, x, y)->0.color == s.color && piece_moves(s, x, y, sq(s.grid, x, y)->0).contains(m),
    decreases n,
{
    let i = n - 1;
    let prev = pseudo_moves(s, (n - 1) as nat);
    let tail = match sq(s.grid, i % 8, i / 8) {
        Some(q) => if q.color == s.color { piece_moves(s, i % 8, i / 8, q) } else { Seq::empty() },
        None => Seq::empty(),
    };
    assert(pseudo_moves(s, n) == prev + tail);
    let j = choose|j: int| 0 <= j < (prev + tail).len() && (prev + tail)[j] == m;
    if j < prev.len() {
        assert(prev[j] == m);
        lemma_pseudo_from_piece(s, (n - 1) as nat, m);
    } else {
        assert(tail[j - prev.len()] == m);
        assert(in_bounds(i % 8, i / 8));
        assert(sq(s.grid, i % 8, i / 8) is Some);
    }
}

/// The square of the king of the side to move once `m` is played: the target when the king
/// is the piece moved, its square otherwise.
pub open spec fn own_king_after(s: BoardState, m: Move) -> Position {
    if sq(s.grid, m.from.x as int, m.from.y as int)->0.piecetype == PieceType::King {
        m.to
    } else if s.color == Color::White {
        s.wkingpos[s.counter as int]
    } else {
        s.bkingpos[s.counter as int]
    }
}

/// The legal moves are the castling moves and the generated moves after which the king of
/// the side to move is not attacked: with the piece moved from its square to the target (and
/// the king, if it is the piece moved, on the target), no piece of the other side attacks the
/// king's square.
pub proof fn lemma_legal_moves_are_safe(s: BoardState, m: Move)
    requires spec_moves(s).contains(m), in_bounds(own_king_after(s, m).x as int, own_king_after(s, m).y as int),
    ensures
        spec_castle_moves(s).contains(m) || {
            &&& pseudo_moves(s, 64).contains(m)
            &&& !attacked_by(grid_after_step(s, m), own_king_after(s, m).x as int, own_king_after(s, m).y as int,
                    spec_opposite(s.color))
        },
{
    let ps = pseudo_moves(s, 64);
    let f = ps.filter(king_safe_after(s));
    let cs = spec_castle_moves(s);
    assert(spec_moves(s) == f + cs);
    assert(own_king_after(s, m) == king_square_after(s, m));
    let j = choose|j: int| 0 <= j < (f + cs).len() && (f + cs)[j] == m;
    if j < f.len() {
        assert(f[j] == m);
        assert(f.contains(m));
        ps.lemma_filter_contains_rev(king_safe_after(s), m);
        ps.filter_lemma(king_safe_after(s));
        assert(king_safe_after(s)(f[j]));
        let k = own_king_after(s, m);
        lemma_threats_are_attacks(grid_after_step(s, m), k.x as int, k.y as int, spec_opposite(s.color));
        assert(pos(k.x as int, k.y as int) == k);
    } else {
        assert(cs[j - f.len()] == m);
    }
}

/// And the other way round: a generated move after which the king of the side to move (on
/// the board) is not attacked is a legal move.
pub proof fn lemma_safe_moves_are_legal(s: BoardState, m: Move)
    requires
        pseudo_moves(s, 64).contains(m), in_bounds(own_king_after(s, m).x as int, own_king_after(s, m).y as int),
        !attacked_by(grid_after_step(s, m), own_king_after(s, m).x as int, own_king_after(s, m).y as int, spec_opposite(s.color)),
    ensures spec_moves(s).contains(m),
{
    let k = own_king_after(s, m);
    assert(own_king_after(s, m) == king_square_after(s, m));
    lemma_threats_are_attacks(grid_after_step(s, m), k.x as int, k.y as int, spec_opposite(s.color));
    assert(pos(k.x as int, k.y as int) == k);
    lemma_safe_pseudo_is_legal(s, m);
}

/// What a pawn move of the side to move from (x, y) is: one square forward onto an empty
/// square; two squares forward from the starting row over an empty square onto an empty one;
/// or one square diagonally forward onto an enemy piece, or onto the empty square behind an
/// enemy pawn that has just made a double step beside it (en passant). It promotes exactly
/// when it reaches its last row, and then to a queen, knight, bishop or rook of its colour.
pub open spec fn pawn_move_ok(s: BoardState, x: int, y: int, m: Move) -> bool {
    let f = forward(s.color);
    let g = s.grid;
    let start: int = if s.color == Color::White { 6 } else { 1 };
    let ep_row: int = if s.color == Color::White { 3 } else { 4 };
    &&& m.from == pos(x, y)
    &&& {
        ||| m.to == pos(x, y + f) && sq(g, x, y + f) is None
        ||| m.to == pos(x, y + 2 * f) && y == start && sq(g, x, y + f) is None && sq(g, x, y + 2 * f) is None
        ||| exists|dx: int| (dx == 1 || dx == -1) && #[trigger] pos(x + dx, y + f) == m.to && in_bounds(x + dx, y + f) && {
                ||| sq(g, x + dx, y + f) matches Some(t) && t.color != s.color
                ||| sq(g, x + dx, y + f) is None && s.passants[s.counter as int] == Some((x + dx) as i8) && y == ep_row
            }
    }
    &&& (m.promote is Some <==> m.to.y == last_row(s.color))
    &&& (m.promote matches Some(q) ==> q.color == s.color && (q.piecetype == PieceType::Queen || q.piecetype == PieceType::Knight
            || q.piecetype == PieceType::Bishop || q.piecetype == PieceType::Rook))
}

proof fn lemma_arrival_is(s: BoardState, x: int, y: int, tx: int, ty: int, p: Piece, taken: int, m: Move)
    requires
        pawn_arrival(x, y, tx, ty, p, taken).contains(m), in_bounds(tx, ty),
        ty == y + forward(s.color), in_bounds(x, y), p.color == s.color,
    ensures
        m.from == pos(x, y), m.to == pos(tx, ty),
        (m.promote is Some <==> m.to.y == last_row(s.color)),
        (m.promote matches Some(q) ==> q.color == s.color && (q.piecetype == PieceType::Queen || q.piecetype == PieceType::Knight
            || q.piecetype == PieceType::Bishop || q.piecetype == PieceType::Rook)),
{
    let a = pawn_arrival(x, y, tx, ty, p, taken);
    let j = choose|j: int| 0 <= j < a.len() && a[j] == m;
    lemma_small_cast(ty);
    assert(m.to.y as int == ty);
}

proof fn lemma_pawn_capture_part(s: BoardState, x: int, y: int, dx: int, m: Move)
    requires
        in_bounds(x, y), in_bounds(x, y + forward(s.color)), dx == 1 || dx == -1,
        pawn_dir_moves(s, x, y, Piece { piecetype: PieceType::Pawn, color: s.color }, dx, forward(s.color)).contains(m),
    ensures pawn_move_ok(s, x, y, m),
{
    let p = Piece { piecetype: PieceType::Pawn, color: s.color };
    let f = forward(s.color);
    let g = s.grid;
    let ty = y + f;
    let tx = x + dx;
    let pd = pawn_dir_moves(s, x, y, p, dx, f);
    lemma_small_cast(ty);
    if !(0 <= tx < 8) {
        assert(pd.len() == 0);
        assert(false);
    }
    lemma_small_cast(tx);
    match sq(g, tx, ty) {
        Some(t) => {
            lemma_arrival_is(s, x, y, tx, ty, p, crate::backend::piece::spec_combined_value_at(t, pos(tx, ty)), m);
            assert(pos(x + dx, y + f) == m.to);
        },
        None => {
            assert(pd.len() == 1 && pd[0] == m);
            assert(pos(x + dx, y + f) == m.to);
            assert(m.to.y != last_row(s.color));
        },
    }
}

proof fn lemma_pawn_push_part(s: BoardState, x: int, y: int, m: Move)
    requires
        in_bounds(x, y), in_bounds(x, y + forward(s.color)),
        pawn_dir_moves(s, x, y, Piece { piecetype: PieceType::Pawn, color: s.color }, 0, forward(s.color)).contains(m),
    ensures pawn_move_ok(s, x, y, m),
{
    let p = Piece { piecetype: PieceType::Pawn, color: s.color };
    let f = forward(s.color);
    let g = s.grid;
    let ty = y + f;
    let b = pawn_dir_moves(s, x, y, p, 0, f);
    lemma_small_cast(x);
    lemma_small_cast(ty);
    let arr = pawn_arrival(x, y, x, ty, p, 0);
    let white = s.color == Color::White;
    let extra = if y == 6 && white && sq(g, x, ty - 1) is None {
        seq![crate::backend::board_representation::movement::spec_move(x, y, x, ty - 1, None,
            crate::backend::piece::spec_value_at(p, pos(x, ty - 1)) - crate::backend::piece::spec_value_at(p, pos(x, y)))]
    } else if y == 1 && !white && sq(g, x, ty + 1) is None {
        seq![crate::backend::board_representation::movement::spec_move(x, y, x, ty + 1, None,
            crate::backend::piece::spec_value_at(p, pos(x, ty + 1)) - crate::backend::piece::spec_value_at(p, pos(x, y)))]
    } else {
        Seq::empty()
    };
    assert(b == arr + extra);
    let k = choose|k: int| 0 <= k < b.len() && b[k] == m;
    if k < arr.len() {
        assert(arr[k] == m);
        lemma_arrival_is(s, x, y, x, ty, p, 0, m);
    } else {
        assert(extra[k - arr.len()] == m);
        if white {
            assert(y + 2 * f == ty - 1);
            lemma_small_cast(ty - 1);
        } else {
            assert(y + 2 * f == ty + 1);
            lemma_small_cast(ty + 1);
        }
    }
}

proof fn lemma_pawn_part_of(s: BoardState, x: int, y: int, m: Move) -> (dx: int)
    requires piece_moves(s, x, y, Piece { piecetype: PieceType::Pawn, color: s.color }).contains(m),
    ensures
        -1 <= dx <= 1,
        pawn_dir_moves(s, x, y, Piece { piecetype: PieceType::Pawn, color: s.color }, dx, forward(s.color)).contains(m),
{
    let p = Piece { piecetype: PieceType::Pawn, color: s.color };
    let d = spec_directions(p);
    let f = forward(s.color);
    let a = pawn_dir_moves(s, x, y, p, d[0].0 as int, d[0].1 as int);
    let b = pawn_dir_moves(s, x, y, p, d[1].0 as int, d[1].1 as int);
    let c = pawn_dir_moves(s, x, y, p, d[2].0 as int, d[2].1 as int);
    assert(pawn_moves(s, x, y, p) == a + b + c);
    assert(d[0].0 == -1 && d[1].0 == 0 && d[2].0 == 1 && d[0].1 == f && d[1].1 == f && d[2].1 == f);
    let j = choose|j: int| 0 <= j < (a + b + c).len() && (a + b + c)[j] == m;
    if j < a.len() {
        assert(a[j] == m);
        -1
    } else if j < a.len() + b.len() {
        assert(b[j - a.len()] == m);
        0
    } else {
        assert(c[j - a.len() - b.len()] == m);
        1
    }
}

/// Pawns move only as pawns do: every move a pawn of the side to move generates from (x, y)
/// (not standing on its last row) is one `pawn_move_ok` describes.
pub proof fn lemma_pawn_moves_are(s: BoardState, x: int, y: int, m: Move)
    requires
        in_bounds(x, y), in_bounds(x, y + forward(s.color)),
        sq(s.grid, x, y) == Some(Piece { piecetype: PieceType::Pawn, color: s.color }),
        piece_moves(s, x, y, Piece { piecetype: PieceType::Pawn, color: s.color }).contains(m),
    ensures pawn_move_ok(s, x, y, m),
{
    let dx = lemma_pawn_part_of(s, x, y, m);
    if dx == 0 {
        lemma_pawn_push_part(s, x, y, m);
    } else {
        lemma_pawn_capture_part(s, x, y, dx, m);
    }
}


/// What `is_legal` accepts of kings and pawns (before looking at checks): a king steps to a
/// neighbouring square; a pawn (not on its last row) moves as `pawn_move_ok` describes.
pub proof fn lemma_legal_way_king_pawn(s: BoardState, m: Move)
    requires spec_legal_shape(s, m), grid_shape(s.grid), in_bounds(m.from.x as int, m.from.y as int),
    ensures ({
        let fx = m.from.x as int;
        let fy = m.from.y as int;
        let t = sq(s.grid, fx, fy)->0.piecetype;
        &&& (t == PieceType::King ==> king_step(m.to.x - m.from.x, m.to.y - m.from.y))
        &&& (t == PieceType::Pawn && in_bounds(fx, fy + forward(s.color)) ==> pawn_move_ok(s, fx, fy, m))
    }),
{
    let fx = m.from.x as int;
    let fy = m.from.y as int;
    let g = s.grid;
    let p = sq(g, fx, fy)->0;
    let d0 = m.to.x - m.from.x;
    let d1 = m.to.y - m.from.y;
    let knight_shape = abs_int(d0) != 0 && abs_int(d1) != 0 && abs_int(d0) + abs_int(d1) == 3;
    if !knight_shape && p.piecetype == PieceType::King {
        let ms = step_moves(set_sq(g, fx, fy, None), s.color, fx, fy, p, spec_directions(p));
        let i = choose|i: int| 0 <= i < ms.len() && same_move(#[trigger] ms[i], m);
        assert(ms.contains(ms[i]));
        lemma_step_moves_are(set_sq(g, fx, fy, None), s.color, fx, fy, p, spec_directions(p), ms[i]);
        let dirs = spec_directions(p);
        let j = choose|j: int| 0 <= j < dirs.len() && ms[i].from == pos(fx, fy) && ms[i].to == pos(fx + dirs[j].0, fy + dirs[j].1)
            && in_bounds(fx + dirs[j].0, fy + dirs[j].1) && not_own(set_sq(g, fx, fy, None), fx + dirs[j].0, fy + dirs[j].1, s.color)
            && ms[i].promote is None;
        lemma_small_cast(fx + dirs[j].0);
        lemma_small_cast(fy + dirs[j].1);
        assert(m.to.x as int == fx + dirs[j].0 && m.to.y as int == fy + dirs[j].1);
    }
    if !knight_shape && p.piecetype == PieceType::Pawn && in_bounds(fx, fy + forward(s.color)) {
        let ms = pawn_moves(s, fx, fy, p);
        let i = choose|i: int| 0 <= i < ms.len() && same_move(#[trigger] ms[i], m);
        assert(ms.contains(ms[i]));
        assert(p == Piece { piecetype: PieceType::Pawn, color: s.color });
        lemma_pawn_moves_are(s, fx, fy, ms[i]);
        assert(ms[i].from == m.from && ms[i].to == m.to && ms[i].promote == m.promote);
    }
}


/// Every castling move offered is one of the legal moves.
pub proof fn lemma_castling_is_legal(s: BoardState, m: Move)
    requires spec_castle_moves(s).contains(m),
    ensures spec_moves(s).contains(m),
{
    let f = pseudo_moves(s, 64).filter(king_safe_after(s));
    let cs = spec_castle_moves(s);
    let j = choose|j: int| 0 <= j < cs.len() && cs[j] == m;
    assert((f + cs)[f.len() + j] == m);
}


/// What `is_legal` accepts of kings and pawns, the other way round: a king of the side to
/// move stepping to a neighbouring square on the board without a piece of its own, promoting
/// nothing, and any move a pawn of the side to move generates, have the way of moving
/// `is_legal` asks for.
pub proof fn lemma_legal_way_king_pawn_complete(s: BoardState, m: Move)
    requires
        grid_shape(s.grid), in_bounds(m.from.x as int, m.from.y as int),
        ({
            let fx = m.from.x as int;
            let fy = m.from.y as int;
            ||| sq(s.grid, fx, fy) == Some(Piece { piecetype: PieceType::King, color: s.color })
                    && king_step(m.to.x - m.from.x, m.to.y - m.from.y) && in_bounds(m.to.x as int, m.to.y as int)
                    && not_own(s.grid, m.to.x as int, m.to.y as int, s.color) && m.promote is None
            ||| sq(s.grid, fx, fy) == Some(Piece { piecetype: PieceType::Pawn, color: s.color })
                    && piece_moves(s, fx, fy, Piece { piecetype: PieceType::Pawn, color: s.color }).contains(m)
                    && in_bounds(fx, fy + forward(s.color))
        }),
    ensures spec_legal_shape(s, m),
{
    let fx = m.from.x as int;
    let fy = m.from.y as int;
    let g = s.grid;
    let p = sq(g, fx, fy)->0;
    let d0 = m.to.x - m.from.x;
    let d1 = m.to.y - m.from.y;
    if p.piecetype == PieceType::King {
        lemma_king_steps_generated_in(s, fx, fy, d0, d1);
        let ms = step_moves(set_sq(g, fx, fy, None), s.color, fx, fy, p, spec_directions(p));
        let i = choose|i: int| 0 <= i < ms.len() && (#[trigger] ms[i]).from == pos(fx, fy) && ms[i].to == pos(fx + d0, fy + d1);
        lemma_step_moves_are(set_sq(g, fx, fy, None), s.color, fx, fy, p, spec_directions(p), ms[i]);
        assert(pos(fx, fy) == m.from && pos(fx + d0, fy + d1) == m.to);
        assert(same_move(ms[i], m));
        assert(has_same_move(ms, m));
    } else {
        lemma_pawn_moves_are(s, fx, fy, m);
        let ms = pawn_moves(s, fx, fy, p);
        let i = choose|i: int| 0 <= i < ms.len() && ms[i] == m;
        assert(same_move(ms[i], m));
        assert(has_same_move(ms, m));
        let ty = fy + forward(s.color);
        if m.to == pos(fx, ty) {
        } else if m.to == pos(fx, fy + 2 * forward(s.color)) {
        } else {
            let dx = choose|dx: int| (dx == 1 || dx == -1) && #[trigger] pos(fx + dx, ty) == m.to && in_bounds(fx + dx, ty) && {
                ||| sq(g, fx + dx, ty) matches Some(t) && t.color != s.color
                ||| sq(g, fx + dx, ty) is None && s.passants[s.counter as int] == Some((fx + dx) as i8)
                        && fy == (if s.color == Color::White { 3int } else { 4int })
            };
            lemma_small_cast(fx + dx);
            lemma_small_cast(ty);
        }
        lemma_small_cast(fx);
        lemma_small_cast(fy);
    }
}

proof fn lemma_king_steps_generated_in(s: BoardState, x: int, y: int, dx: int, dy: int)
    requires
        grid_shape(s.grid), in_bounds(x, y),
        sq(s.grid, x, y) == Some(Piece { piecetype: PieceType::King, color: s.color }),
        king_step(dx, dy), in_bounds(x + dx, y + dy), not_own(s.grid, x + dx, y + dy, s.color),
    ensures has_move(step_moves(set_sq(s.grid, x, y, None), s.color, x, y,
        Piece { piecetype: PieceType::King, color: s.color }, spec_directions(Piece { piecetype: PieceType::King, color: s.color })),
        x, y, x + dx, y + dy),
{
    let p = Piece { piecetype: PieceType::King, color: s.color };
    let dirs = spec_directions(p);
    let j: int = if dx == -1 && dy == -1 { 0 } else if dx == 0 && dy == -1 { 1 } else if dx == 1 && dy == -1 { 2 }
        else if dx == 1 && dy == 0 { 3 } else if dx == 1 && dy == 1 { 4 } else if dx == 0 && dy == 1 { 5 }
        else if dx == -1 && dy == 1 { 6 } else { 7 };
    assert(dirs[j].0 == dx && dirs[j].1 == dy);
    lemma_set_sq_other(s.grid, x, y, None, x + dx, y + dy);
    lemma_step_moves_has(set_sq(s.grid, x, y, None), s.color, x, y, p, dirs, j);
}


/// The check test of `is_legal` and of move generation: a move passes it exactly when,
/// with the piece moved to the target, the king of the side to move (on the board) is not
/// attacked by a piece of the other side.
pub proof fn lemma_check_test_is_safety(s: BoardState, m: Move)
    requires in_bounds(own_king_after(s, m).x as int, own_king_after(s, m).y as int),
    ensures spec_not_check_if(s, m) <==> !attacked_by(grid_after_step(s, m), own_king_after(s, m).x as int,
        own_king_after(s, m).y as int, spec_opposite(s.color)),
{
    let k = own_king_after(s, m);
    assert(own_king_after(s, m) == king_square_after(s, m));
    lemma_threats_are_attacks(grid_after_step(s, m), k.x as int, k.y as int, spec_opposite(s.color));
    assert(pos(k.x as int, k.y as int) == k);
}

} // verus!
