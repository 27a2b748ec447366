use vstd::prelude::*;
use super::board::{BoardState, Castle, wf, move_ok, spec_move_piece, sq, set_sq, grid_shape,
    grid_after_step, grid_after_ep, grid_after_promo, grid_after_move, hash_after_pieces, ep_victim,
    is_promotion, rook_step_of, next_castle, abs_diff, is_custom_board};
use super::zobrist::{Zobrist, GridView, piece_key, square_key, xor_squares, spec_castle_toggle,
    lemma_xor_zero, lemma_xor_squares_keys, pcg64_stream, ZOBRIST_SEED, ZOBRIST_DRAWS};
use super::piece::{Piece, Color, PieceType, spec_opposite};
use super::board_representation::movement::Move;
use super::rules::{spec_moves, moves_ok, spec_castle_moves};
use super::move_values::lemma_legal_move_shape;

verus! {

/// The key of what stands on square (x, y): its piece's key, or nothing.
pub open spec fn occupant_key(z: Zobrist, x: int, y: int, v: Option<Piece>) -> i64 {
    match v {
        Some(p) => piece_key(z, x, y, p),
        None => 0,
    }
}

/// The side key when Black is to move.
pub open spec fn side_key(z: Zobrist, c: Color) -> i64 {
    if c == Color::Black { z.color_to_move } else { 0 }
}

/// The key of the en-passant file, if there is one.
pub open spec fn passant_key(z: Zobrist, p: Option<i8>) -> i64 {
    match p {
        Some(f) => z.en_passant@[f as int],
        None => 0,
    }
}

/// The castling keys of the rights that differ between `a` and `b`.
pub open spec fn castle_key(z: Zobrist, a: Castle, b: Castle) -> i64 {
    (((if a.0 != b.0 { z.castle.0 } else { 0 }) ^ (if a.1 != b.1 { z.castle.1 } else { 0 }))
        ^ (if a.2 != b.2 { z.castle.2 } else { 0 })) ^ (if a.3 != b.3 { z.castle.3 } else { 0 })
}

/// The hash of a position, from the starting number `start`: the keys of the pieces on their
/// squares, the side key when Black is to move, the key of the en-passant file, and the
/// castling key of every right that differs from the rights the board started with.
pub open spec fn position_hash(z: Zobrist, start: i64, g: GridView, color: Color, passant: Option<i8>, initial: Castle, current: Castle) -> i64 {
    xor_squares(z, g, start, 64) ^ ((side_key(z, color) ^ passant_key(z, passant)) ^ castle_key(z, initial, current))
}

/// The board's hash is the hash of its position, from the starting number `start`.
pub open spec fn hash_matches(s: BoardState, start: i64) -> bool {
    let c = s.counter as int;
    s.zobrist.hash == position_hash(s.zobrist, start, s.grid, s.color, s.passants[c], s.castles[0], s.castles[c])
}

proof fn lemma_square_index(i: int, x: int, y: int)
    requires 0 <= x < 8, 0 <= y < 8, 0 <= i,
    ensures (i == y * 8 + x) <==> (i / 8 == y && i % 8 == x),
{
}

proof fn lemma_xor_step_other(a: i64, d: i64, b: i64)
    ensures (a ^ d) ^ b == (a ^ b) ^ d,
{
    assert((a ^ d) ^ b == (a ^ b) ^ d) by (bit_vector);
}

proof fn lemma_xor_step_here(a: i64, o: i64, n: i64)
    ensures a ^ n == (a ^ o) ^ (o ^ n),
{
    assert(a ^ n == (a ^ o) ^ (o ^ n)) by (bit_vector);
}

/// Setting one square changes the XOR of the square keys by the keys of what stood there
/// and what stands there now.
proof fn lemma_xor_set(z: Zobrist, g: GridView, start: i64, x: int, y: int, v: Option<Piece>, n: nat)
    requires grid_shape(g), 0 <= x < 8, 0 <= y < 8, n <= 64,
    ensures
        xor_squares(z, set_sq(g, x, y, v), start, n) == xor_squares(z, g, start, n)
            ^ (if y * 8 + x < n { occupant_key(z, x, y, sq(g, x, y)) ^ occupant_key(z, x, y, v) } else { 0 }),
    decreases n,
{
    let g2 = set_sq(g, x, y, v);
    let idx = y * 8 + x;
    let d = occupant_key(z, x, y, sq(g, x, y)) ^ occupant_key(z, x, y, v);
    if n == 0 {
        lemma_xor_zero(start);
    } else {
        let k = n - 1;
        lemma_xor_set(z, g, start, x, y, v, k as nat);
        let a = xor_squares(z, g, start, k as nat);
        lemma_square_index(k, x, y);
        assert(0 <= k / 8 < 8);
        if k == idx {
            lemma_xor_zero(a);
            assert(square_key(z, g2, k) == occupant_key(z, x, y, v));
            assert(square_key(z, g, k) == occupant_key(z, x, y, sq(g, x, y)));
            lemma_xor_step_here(a, occupant_key(z, x, y, sq(g, x, y)), occupant_key(z, x, y, v));
        } else {
            assert(square_key(z, g2, k) == square_key(z, g, k));
            if idx < k {
                lemma_xor_step_other(a, d, square_key(z, g, k));
            } else {
                lemma_xor_zero(a);
                lemma_xor_zero(a ^ square_key(z, g, k));
            }
        }
    }
}


proof fn lemma_zero_xor(a: i64)
    ensures 0 ^ a == a,
{
    assert(0 ^ a == a) by (bit_vector);
}

proof fn lemma_set_shape(g: GridView, x: int, y: int, v: Option<Piece>)
    requires grid_shape(g), 0 <= x < 8, 0 <= y < 8,
    ensures grid_shape(set_sq(g, x, y, v)),
{
    let g2 = set_sq(g, x, y, v);
    assert forall|yy: int| 0 <= yy < 8 implies #[trigger] g2[yy].len() == 8 by {
        if yy != y {
            assert(g2[yy] == g[yy]);
        }
    }
}

/// Flipping the side to move toggles the side key.
proof fn lemma_side_flip(z: Zobrist, c: Color)
    ensures side_key(z, spec_opposite(c)) == side_key(z, c) ^ z.color_to_move,
{
    let k = z.color_to_move;
    if c == Color::White {
        lemma_zero_xor(k);
    } else {
        assert(k ^ k == 0) by (bit_vector);
    }
}

proof fn lemma_castle_bit(k: i64, a: bool, b: bool, c: bool)
    ensures (if a != c { k } else { 0 }) == (if a != b { k } else { 0 }) ^ (if b != c { k } else { 0 }),
{
    lemma_xor_zero(k);
    lemma_zero_xor(k);
    lemma_xor_zero(0);
    assert(k ^ k == 0) by (bit_vector);
}

proof fn lemma_xor4(q0: i64, q1: i64, q2: i64, q3: i64, r0: i64, r1: i64, r2: i64, r3: i64)
    ensures (((q0 ^ r0) ^ (q1 ^ r1)) ^ (q2 ^ r2)) ^ (q3 ^ r3) == (((q0 ^ q1) ^ q2) ^ q3) ^ (((r0 ^ r1) ^ r2) ^ r3),
{
    assert((((q0 ^ r0) ^ (q1 ^ r1)) ^ (q2 ^ r2)) ^ (q3 ^ r3) == (((q0 ^ q1) ^ q2) ^ q3) ^ (((r0 ^ r1) ^ r2) ^ r3)) by (bit_vector);
}

/// The castling keys from `a` to `c` are those from `a` to `b` and from `b` to `c`.
proof fn lemma_castle_parity(z: Zobrist, a: Castle, b: Castle, c: Castle)
    ensures castle_key(z, a, c) == castle_key(z, a, b) ^ castle_key(z, b, c),
{
    lemma_castle_bit(z.castle.0, a.0, b.0, c.0);
    lemma_castle_bit(z.castle.1, a.1, b.1, c.1);
    lemma_castle_bit(z.castle.2, a.2, b.2, c.2);
    lemma_castle_bit(z.castle.3, a.3, b.3, c.3);
    lemma_xor4(if a.0 != b.0 { z.castle.0 } else { 0 }, if a.1 != b.1 { z.castle.1 } else { 0 },
        if a.2 != b.2 { z.castle.2 } else { 0 }, if a.3 != b.3 { z.castle.3 } else { 0 },
        if b.0 != c.0 { z.castle.0 } else { 0 }, if b.1 != c.1 { z.castle.1 } else { 0 },
        if b.2 != c.2 { z.castle.2 } else { 0 }, if b.3 != c.3 { z.castle.3 } else { 0 });
}

proof fn lemma_toggle_bits(h: i64, k0: i64, k1: i64, k2: i64, k3: i64, d0: bool, d1: bool, d2: bool, d3: bool)
    by (bit_vector)
    ensures
        ({
            let h0 = if d0 { h ^ k0 } else { h };
            let h1 = if d1 { h0 ^ k1 } else { h0 };
            let h2 = if d2 { h1 ^ k2 } else { h1 };
            if d3 { h2 ^ k3 } else { h2 }
        }) == h ^ ((((if d0 { k0 } else { 0 }) ^ (if d1 { k1 } else { 0 })) ^ (if d2 { k2 } else { 0 })) ^ (if d3 { k3 } else { 0 })),
{
}

/// Toggling the castling keys of the rights that change from `a` to `b`.
proof fn lemma_toggle(z: Zobrist, h: i64, a: Castle, b: Castle)
    ensures spec_castle_toggle(z, h, (a.0 != b.0, a.1 != b.1, a.2 != b.2, a.3 != b.3)) == h ^ castle_key(z, a, b),
{
    lemma_toggle_bits(h, z.castle.0, z.castle.1, z.castle.2, z.castle.3, a.0 != b.0, a.1 != b.1, a.2 != b.2, a.3 != b.3);
}

proof fn lemma_combine(h: i64, x0: i64, sd: i64, eo: i64, ck: i64, t: i64, a: i64, b: i64, en: i64, v: i64,
    c: i64, p: i64, r1: i64, r2: i64, side: i64, dk: i64, x4: i64, hp: i64, h8: i64, sd2: i64, ck2: i64)
    by (bit_vector)
    requires
        h == x0 ^ ((sd ^ eo) ^ ck),
        x4 == ((((x0 ^ a) ^ (t ^ b)) ^ v) ^ (c ^ p)) ^ (r1 ^ r2),
        hp == (((((((((h ^ t) ^ a) ^ b) ^ eo) ^ en) ^ v) ^ c) ^ p) ^ r1) ^ r2,
        h8 == (hp ^ side) ^ dk,
        sd2 == sd ^ side,
        ck2 == ck ^ dk,
    ensures h8 == x4 ^ ((sd2 ^ en) ^ ck2),
{
}

/// The key of the piece standing on the target square before the move.
pub open spec fn target_key(s: BoardState, m: Move) -> i64 {
    occupant_key(s.zobrist, m.to.x as int, m.to.y as int, sq(s.grid, m.to.x as int, m.to.y as int))
}

pub open spec fn mover(s: BoardState, m: Move) -> Piece {
    sq(s.grid, m.from.x as int, m.from.y as int).unwrap()
}

/// The key of the pawn an en-passant capture removes.
pub open spec fn victim_key(s: BoardState, m: Move) -> i64 {
    if mover(s, m).piecetype == PieceType::Pawn && ep_victim(s, m) is Some {
        let pos = ep_victim(s, m)->0;
        piece_key(s.zobrist, pos.x as int, pos.y as int, sq(grid_after_step(s, m), pos.x as int, pos.y as int).unwrap())
    } else {
        0
    }
}

/// The keys a promotion toggles: the pawn's and the new piece's on the target square.
pub open spec fn promo_keys(s: BoardState, m: Move) -> (i64, i64) {
    if is_promotion(s, m) {
        let cur = sq(grid_after_ep(s, m), m.to.x as int, m.to.y as int).unwrap();
        (piece_key(s.zobrist, m.to.x as int, m.to.y as int, cur), piece_key(s.zobrist, m.to.x as int, m.to.y as int, m.promote->0))
    } else {
        (0, 0)
    }
}

/// The keys a castling rook toggles on its two squares.
pub open spec fn rook_keys(s: BoardState, m: Move) -> (i64, i64) {
    match rook_step_of(s, m) {
        Some(r) => {
            let rook = sq(grid_after_promo(s, m), r.from_x, r.row).unwrap();
            (piece_key(s.zobrist, r.from_x, r.row, rook), piece_key(s.zobrist, r.to_x, r.row, rook))
        },
        None => (0, 0),
    }
}

/// The en-passant file a move opens: the file of a pawn's double step.
pub open spec fn new_passant(s: BoardState, m: Move) -> Option<i8> {
    if mover(s, m).piecetype == PieceType::Pawn && abs_diff(m.from.y, m.to.y) == 2 { Some(m.from.x as i8) } else { None }
}

/// The moves whose hash update matches the pieces they move: the piece leaves its square
/// for another one, and a castling rook lands on an empty square.
pub open spec fn hash_move_ok(s: BoardState, m: Move) -> bool {
    &&& m.from != m.to
    &&& rook_step_of(s, m) matches Some(r) ==> sq(grid_after_promo(s, m), r.to_x, r.row) is None
}

proof fn lemma_hash_after_pieces(s: BoardState, m: Move)
    requires wf(s), move_ok(s, m),
    ensures
        hash_after_pieces(s, m) == ((((((((((s.zobrist.hash ^ target_key(s, m)) ^ piece_key(s.zobrist, m.from.x as int, m.from.y as int, mover(s, m)))
            ^ piece_key(s.zobrist, m.to.x as int, m.to.y as int, mover(s, m))) ^ passant_key(s.zobrist, s.passants[s.counter as int]))
            ^ passant_key(s.zobrist, new_passant(s, m))) ^ victim_key(s, m)) ^ promo_keys(s, m).0) ^ promo_keys(s, m).1)
            ^ rook_keys(s, m).0) ^ rook_keys(s, m).1),
{
    reveal(hash_after_pieces);
    let z = s.zobrist;
    let h = z.hash;
    lemma_xor_zero(h);
    let h1 = ((h ^ target_key(s, m)) ^ piece_key(z, m.from.x as int, m.from.y as int, mover(s, m))) ^ piece_key(z, m.to.x as int, m.to.y as int, mover(s, m));
    lemma_xor_zero(h1);
    let h2 = h1 ^ passant_key(z, s.passants[s.counter as int]);
    lemma_xor_zero(h2);
    assert(m.from.x < 8);
    let h3 = h2 ^ passant_key(z, new_passant(s, m));
    lemma_xor_zero(h3);
    let h4 = h3 ^ victim_key(s, m);
    lemma_xor_zero(h4);
    let h5 = (h4 ^ promo_keys(s, m).0) ^ promo_keys(s, m).1;
    lemma_xor_zero(h5);
    lemma_xor_zero(h5 ^ rook_keys(s, m).0);
    if !is_promotion(s, m) {
        lemma_xor_zero(h4 ^ 0);
    }
}


proof fn lemma_pair_zero(x: i64, r1: i64, r2: i64)
    ensures (x ^ (r1 ^ 0)) ^ (0 ^ r2) == x ^ (r1 ^ r2),
{
    assert((x ^ (r1 ^ 0)) ^ (0 ^ r2) == x ^ (r1 ^ r2)) by (bit_vector);
}

/// The square keys after a move: those before, toggled by every square the move changes.
proof fn lemma_pieces_xor(s: BoardState, m: Move, start: i64)
    requires wf(s), move_ok(s, m), hash_move_ok(s, m),
    ensures
        xor_squares(s.zobrist, grid_after_move(s, m), start, 64)
            == ((((xor_squares(s.zobrist, s.grid, start, 64) ^ piece_key(s.zobrist, m.from.x as int, m.from.y as int, mover(s, m)))
                ^ (target_key(s, m) ^ piece_key(s.zobrist, m.to.x as int, m.to.y as int, mover(s, m)))) ^ victim_key(s, m))
                ^ (promo_keys(s, m).0 ^ promo_keys(s, m).1)) ^ (rook_keys(s, m).0 ^ rook_keys(s, m).1),
{
    reveal(grid_after_move);
    reveal(grid_after_promo);
    reveal(grid_after_ep);
    let z = s.zobrist;
    let g = s.grid;
    let fx = m.from.x as int;
    let fy = m.from.y as int;
    let tx = m.to.x as int;
    let ty = m.to.y as int;
    let pie = mover(s, m);
    let a = piece_key(z, fx, fy, pie);
    let b = piece_key(z, tx, ty, pie);
    let x0 = xor_squares(z, g, start, 64);
    let ga = set_sq(g, fx, fy, None);
    lemma_xor_set(z, g, start, fx, fy, None, 64);
    lemma_xor_zero(a);
    lemma_set_shape(g, fx, fy, None);
    let g1 = set_sq(ga, tx, ty, Some(pie));
    assert(g1 == grid_after_step(s, m));
    assert(sq(ga, tx, ty) == sq(g, tx, ty));
    lemma_xor_set(z, ga, start, tx, ty, Some(pie), 64);
    lemma_set_shape(ga, tx, ty, Some(pie));
    let x1 = xor_squares(z, g1, start, 64);
    assert(x1 == (x0 ^ a) ^ (target_key(s, m) ^ b));
    let g2 = grid_after_ep(s, m);
    let v = victim_key(s, m);
    if pie.piecetype == PieceType::Pawn && ep_victim(s, m) is Some {
        let pos = ep_victim(s, m)->0;
        lemma_xor_set(z, g1, start, pos.x as int, pos.y as int, None, 64);
        lemma_xor_zero(v);
        lemma_set_shape(g1, pos.x as int, pos.y as int, None);
        assert(sq(g2, tx, ty) == Some(pie));
    } else {
        lemma_xor_zero(x1);
    }
    let x2 = xor_squares(z, g2, start, 64);
    assert(x2 == x1 ^ v);
    assert(grid_shape(g2));
    let g3 = grid_after_promo(s, m);
    let cp = promo_keys(s, m);
    if is_promotion(s, m) {
        lemma_xor_set(z, g2, start, tx, ty, m.promote, 64);
        lemma_set_shape(g2, tx, ty, m.promote);
    } else {
        lemma_xor_zero(0);
        lemma_xor_zero(x2);
    }
    let x3 = xor_squares(z, g3, start, 64);
    assert(x3 == x2 ^ (cp.0 ^ cp.1));
    assert(grid_shape(g3));
    let rk = rook_keys(s, m);
    match rook_step_of(s, m) {
        Some(r) => {
            assert(g3 == g1);
            let rook = sq(g3, r.from_x, r.row);
            let g3a = set_sq(g3, r.from_x, r.row, None);
            assert(sq(g3, r.to_x, r.row) is None);
            lemma_xor_set(z, g3, start, r.from_x, r.row, None, 64);
            lemma_set_shape(g3, r.from_x, r.row, None);
            lemma_xor_set(z, g3a, start, r.to_x, r.row, rook, 64);
            assert(sq(g3a, r.to_x, r.row) is None);
            assert(grid_after_move(s, m) == set_sq(g3a, r.to_x, r.row, rook));
            lemma_pair_zero(x3, rk.0, rk.1);
        },
        None => {
            lemma_xor_zero(0);
            lemma_xor_zero(x3);
        },
    }
}

/// A move keeps the board's hash equal to the hash of its position, where the piece leaves
/// its square for another one and a castling rook lands on an empty square.
pub proof fn lemma_move_keeps_hash(s: BoardState, m: Move, start: i64)
    requires wf(s), move_ok(s, m), hash_move_ok(s, m), hash_matches(s, start),
    ensures hash_matches(spec_move_piece(s, m), start),
{
    reveal(spec_move_piece);
    let t = spec_move_piece(s, m);
    let z = s.zobrist;
    let c = s.counter as int;
    let cr = s.castles[c];
    let nc = next_castle(cr, m);
    lemma_hash_after_pieces(s, m);
    lemma_pieces_xor(s, m, start);
    let hp = hash_after_pieces(s, m);
    let h7 = hp ^ z.color_to_move;
    lemma_toggle(z, h7, cr, nc);
    lemma_castle_parity(z, s.castles[0], cr, nc);
    lemma_side_flip(z, s.color);
    lemma_xor_squares_keys(t.zobrist, z, t.grid, start, 64);
    assert(t.castles[0] == s.castles[0]);
    assert(t.passants[c + 1] == new_passant(s, m));
    let pk = promo_keys(s, m);
    let rk = rook_keys(s, m);
    lemma_combine(z.hash, xor_squares(z, s.grid, start, 64), side_key(z, s.color), passant_key(z, s.passants[c]),
        castle_key(z, s.castles[0], cr), target_key(s, m), piece_key(z, m.from.x as int, m.from.y as int, mover(s, m)),
        piece_key(z, m.to.x as int, m.to.y as int, mover(s, m)), passant_key(z, new_passant(s, m)), victim_key(s, m),
        pk.0, pk.1, rk.0, rk.1, z.color_to_move, castle_key(z, cr, nc), xor_squares(z, t.grid, start, 64), hp,
        t.zobrist.hash, side_key(z, t.color), castle_key(z, s.castles[0], nc));
}

/// A board built from a picture, the starting board among them, has the hash of its
/// position from the first number the generator draws.
pub proof fn lemma_custom_hash(b: BoardState, s: Seq<char>, c: Color)
    requires is_custom_board(b, s, c),
    ensures hash_matches(b, pcg64_stream(ZOBRIST_SEED, ZOBRIST_DRAWS as nat)[0]),
{
    let z = b.zobrist;
    let x = xor_squares(z, b.grid, pcg64_stream(ZOBRIST_SEED, ZOBRIST_DRAWS as nat)[0], 64);
    lemma_xor_zero(0);
    lemma_xor_zero(side_key(z, c));
    assert(b.passants[0] is None);
    assert(castle_key(z, b.castles[0], b.castles[0]) == 0);
    lemma_xor_zero(x);
}

/// Two boards whose hashes match their positions from the same starting number, with the
/// same keys, have the same hash when their positions agree: the same pieces on the same
/// squares, the same side to move, the same en-passant file, the same castling rights and
/// the same rights at the start.
pub proof fn lemma_same_position_same_hash(s1: BoardState, s2: BoardState, start: i64)
    requires
        hash_matches(s1, start),
        hash_matches(s2, start),
        s1.zobrist.arr == s2.zobrist.arr,
        s1.zobrist.color_to_move == s2.zobrist.color_to_move,
        s1.zobrist.castle == s2.zobrist.castle,
        s1.zobrist.en_passant == s2.zobrist.en_passant,
        s1.grid == s2.grid,
        s1.color == s2.color,
        s1.passants[s1.counter as int] == s2.passants[s2.counter as int],
        s1.castles[s1.counter as int] == s2.castles[s2.counter as int],
        s1.castles[0] == s2.castles[0],
    ensures s1.zobrist.hash == s2.zobrist.hash,
{
    lemma_xor_squares_keys(s1.zobrist, s2.zobrist, s1.grid, start, 64);
}


/// Every legal move is one whose hash update matches the pieces it moves.
proof fn lemma_legal_moves_hash_ok(s: BoardState, m: Move)
    requires wf(s), moves_ok(s), spec_moves(s).contains(m),
    ensures hash_move_ok(s, m),
{
    lemma_legal_move_shape(s, m);
    if let Some(r) = rook_step_of(s, m) {
        reveal(grid_after_promo);
        reveal(grid_after_ep);
        let castles = spec_castle_moves(s);
        let k = choose|k: int| 0 <= k < castles.len() && castles[k] == m;
        assert(castles[k] == m);
        assert(sq(grid_after_step(s, m), r.to_x, r.row) == sq(s.grid, r.to_x, r.row));
    }
}

/// A legal move keeps the board's hash equal to the hash of its position: from a board
/// built from a picture (the starting board among them), every sequence of legal moves
/// leads to boards whose hash is the hash of their position.
pub proof fn lemma_legal_move_keeps_hash(s: BoardState, m: Move, start: i64)
    requires wf(s), moves_ok(s), spec_moves(s).contains(m), move_ok(s, m), hash_matches(s, start),
    ensures hash_matches(spec_move_piece(s, m), start),
{
    lemma_legal_moves_hash_ok(s, m);
    lemma_move_keeps_hash(s, m, start);
}

} // verus!
