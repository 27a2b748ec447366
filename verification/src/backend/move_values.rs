use vstd::prelude::*;
use super::piece::{Piece, PieceType, Color, spec_value_at, spec_combined_value_at,
    spec_directions, spec_can_run, lemma_value_bounds, lemma_direction_bounds};
use super::board_representation::movement::{Move, Position, spec_move};
use super::board::{BoardState, wf, sq, set_sq, rook_step_of, move_undoable, history_ok, move_ok, spec_move_piece,
    spec_go_back, with_hash, can_go_back, lemma_go_back_undoes_move, lemma_move_piece_wf};
use super::rules::{in_bounds, pos, step_target, step_moves, ray_moves, running_moves, pawn_arrival,
    pawn_dir_moves, piece_moves, pseudo_moves, spec_castle_moves, spec_moves, king_safe_after,
    moves_ok, spec_value_of, takes_en_passant, white_queen, white_knight, black_queen, black_knight,
    white_bishop, white_rook, black_bishop, black_rook};
use super::zobrist::GridView;

verus! {

// Every generated move carries the value that `value_of` computes for it.

/// Moves whose value `value_of` reads as the generator meant it: a pawn's diagonal step
/// onto the en-passant square finds that square empty (as it always is after a double
/// step; a piece standing there would be counted against the move twice).
pub open spec fn lands_fairly(s: BoardState, m: Move) -> bool {
    takes_en_passant(s, m) ==> sq(s.grid, m.to.x as int, m.to.y as int) is None
}

/// The castling rights of the current turn are backed by the kings on their squares.
pub open spec fn castles_backed(s: BoardState) -> bool {
    let c = s.castles[s.counter as int];
    &&& (c.0 || c.1) ==> sq(s.grid, 4, 7) == Some(Piece { piecetype: PieceType::King, color: Color::White })
    &&& (c.2 || c.3) ==> sq(s.grid, 4, 0) == Some(Piece { piecetype: PieceType::King, color: Color::Black })
}

/// What holds of every move the piece generators make: it carries the value `value_of`
/// computes for it (where it lands fairly), it leaves its square, and it is not a king's
/// castling step (those come from the castling generator), and taking it back restores the board.
pub open spec fn generated_well(s: BoardState, m: Move) -> bool {
    &&& lands_fairly(s, m) ==> spec_value_of(s, m) == m.heuristic_value as int
    &&& m.from != m.to
    &&& rook_step_of(s, m) is None
    &&& move_undoable(s, m)
}

/// `g` agrees with the board's grid on every square but (x, y).
pub open spec fn same_but(s: BoardState, g: GridView, x: int, y: int) -> bool {
    forall|a: int, b: int| 0 <= a < 8 && 0 <= b < 8 && !(a == x && b == y) ==> #[trigger] sq(g, a, b) == sq(s.grid, a, b)
}

proof fn lemma_step_target(s: BoardState, g: GridView, x: int, y: int, p: Piece, tx: int, ty: int)
    requires
        wf(s), 0 <= x < 8, 0 <= y < 8, in_bounds(tx, ty), !(tx == x && ty == y),
        sq(s.grid, x, y) == Some(p), p.piecetype != PieceType::Pawn,
        p.piecetype == PieceType::King ==> -1 <= tx - x <= 1,
        same_but(s, g, x, y),
    ensures
        forall|k: int| 0 <= k < step_target(g, s.color, x, y, p, tx, ty).len()
            ==> generated_well(s, #[trigger] step_target(g, s.color, x, y, p, tx, ty)[k]),
{
    let from = Position { x: x as usize, y: y as usize };
    let to = Position { x: tx as usize, y: ty as usize };
    lemma_value_bounds(p, from);
    lemma_value_bounds(p, to);
    assert(sq(g, tx, ty) == sq(s.grid, tx, ty));
    match sq(g, tx, ty) {
        Some(t) => { lemma_value_bounds(t, to); },
        None => {},
    }
}

proof fn lemma_step_moves(s: BoardState, g: GridView, x: int, y: int, p: Piece, dirs: Seq<(i8, i8)>)
    requires
        wf(s), 0 <= x < 8, 0 <= y < 8,
        sq(s.grid, x, y) == Some(p), p.piecetype != PieceType::Pawn,
        forall|i: int| 0 <= i < dirs.len() ==> (#[trigger] dirs[i]).0 != 0 || dirs[i].1 != 0,
        p.piecetype == PieceType::King ==> forall|i: int| 0 <= i < dirs.len() ==> -1 <= (#[trigger] dirs[i]).0 <= 1,
        same_but(s, g, x, y),
    ensures
        forall|k: int| 0 <= k < step_moves(g, s.color, x, y, p, dirs).len()
            ==> generated_well(s, #[trigger] step_moves(g, s.color, x, y, p, dirs)[k]),
    decreases dirs.len(),
{
    if dirs.len() > 0 {
        let d = dirs.last();
        let rest = dirs.drop_last();
        assert forall|i: int| 0 <= i < rest.len() implies (#[trigger] rest[i]).0 != 0 || rest[i].1 != 0 by {
            assert(rest[i] == dirs[i]);
        }
        if p.piecetype == PieceType::King {
            assert forall|i: int| 0 <= i < rest.len() implies -1 <= (#[trigger] rest[i]).0 <= 1 by {
                assert(rest[i] == dirs[i]);
            }
        }
        lemma_step_moves(s, g, x, y, p, rest);
        let tx = x + d.0;
        let ty = y + d.1;
        let a = step_moves(g, s.color, x, y, p, rest);
        let b = if in_bounds(tx, ty) { step_target(g, s.color, x, y, p, tx, ty) } else { Seq::empty() };
        if in_bounds(tx, ty) {
            assert(dirs[dirs.len() - 1] == d);
            lemma_step_target(s, g, x, y, p, tx, ty);
        }
        assert forall|k: int| 0 <= k < (a + b).len() implies generated_well(s, #[trigger] (a + b)[k]) by {
            if k < a.len() {
                assert((a + b)[k] == a[k]);
            } else {
                assert((a + b)[k] == b[k - a.len()]);
            }
        }
    }
}

proof fn lemma_ray_moves(s: BoardState, x: int, y: int, p: Piece, cx: int, cy: int, dx: int, dy: int, n: nat)
    requires
        wf(s), 0 <= x < 8, 0 <= y < 8, sq(s.grid, x, y) == Some(p), spec_can_run(p),
        dx != 0 || dy != 0, -1 <= dx <= 1, -1 <= dy <= 1,
        dx == 0 ==> cx == x, dy == 0 ==> cy == y,
        dx == 1 ==> cx >= x, dx == -1 ==> cx <= x, dy == 1 ==> cy >= y, dy == -1 ==> cy <= y,
    ensures
        forall|k: int| 0 <= k < ray_moves(s.grid, s.color, x, y, p, cx, cy, dx, dy, n).len()
            ==> generated_well(s, #[trigger] ray_moves(s.grid, s.color, x, y, p, cx, cy, dx, dy, n)[k]),
    decreases n,
{
    let tx = cx + dx;
    let ty = cy + dy;
    if n > 0 && in_bounds(tx, ty) {
        assert(same_but(s, s.grid, x, y));
        lemma_step_target(s, s.grid, x, y, p, tx, ty);
        lemma_ray_moves(s, x, y, p, tx, ty, dx, dy, (n - 1) as nat);
        let a = step_target(s.grid, s.color, x, y, p, tx, ty);
        let b = ray_moves(s.grid, s.color, x, y, p, tx, ty, dx, dy, (n - 1) as nat);
        assert forall|k: int| 0 <= k < (a + b).len() implies generated_well(s, #[trigger] (a + b)[k]) by {
            if k < a.len() {
                assert((a + b)[k] == a[k]);
            } else {
                assert((a + b)[k] == b[k - a.len()]);
            }
        }
    }
}

proof fn lemma_running_moves(s: BoardState, x: int, y: int, p: Piece, dirs: Seq<(i8, i8)>)
    requires
        wf(s), 0 <= x < 8, 0 <= y < 8, sq(s.grid, x, y) == Some(p), spec_can_run(p),
        forall|i: int| 0 <= i < dirs.len() ==> ((#[trigger] dirs[i]).0 != 0 || dirs[i].1 != 0)
            && -1 <= dirs[i].0 <= 1 && -1 <= dirs[i].1 <= 1,
    ensures
        forall|k: int| 0 <= k < running_moves(s.grid, s.color, x, y, p, dirs).len()
            ==> generated_well(s, #[trigger] running_moves(s.grid, s.color, x, y, p, dirs)[k]),
    decreases dirs.len(),
{
    if dirs.len() > 0 {
        let d = dirs.last();
        let rest = dirs.drop_last();
        assert forall|i: int| 0 <= i < rest.len() implies ((#[trigger] rest[i]).0 != 0 || rest[i].1 != 0)
            && -1 <= rest[i].0 <= 1 && -1 <= rest[i].1 <= 1 by {
            assert(rest[i] == dirs[i]);
        }
        assert(dirs[dirs.len() - 1] == d);
        lemma_running_moves(s, x, y, p, rest);
        lemma_ray_moves(s, x, y, p, x, y, d.0 as int, d.1 as int, 8);
        let a = running_moves(s.grid, s.color, x, y, p, rest);
        let b = ray_moves(s.grid, s.color, x, y, p, x, y, d.0 as int, d.1 as int, 8);
        assert forall|k: int| 0 <= k < (a + b).len() implies generated_well(s, #[trigger] (a + b)[k]) by {
            if k < a.len() {
                assert((a + b)[k] == a[k]);
            } else {
                assert((a + b)[k] == b[k - a.len()]);
            }
        }
    }
}

proof fn lemma_concat_matches(s: BoardState, a: Seq<Move>, b: Seq<Move>)
    requires
        forall|k: int| 0 <= k < a.len() ==> generated_well(s, #[trigger] a[k]),
        forall|k: int| 0 <= k < b.len() ==> generated_well(s, #[trigger] b[k]),
    ensures
        forall|k: int| 0 <= k < (a + b).len() ==> generated_well(s, #[trigger] (a + b)[k]),
{
    assert forall|k: int| 0 <= k < (a + b).len() implies generated_well(s, #[trigger] (a + b)[k]) by {
        if k < a.len() {
            assert((a + b)[k] == a[k]);
        } else {
            assert((a + b)[k] == b[k - a.len()]);
        }
    }
}

#[verifier::spinoff_prover]
#[verifier::rlimit(50)]
proof fn lemma_pawn_arrival(s: BoardState, x: int, y: int, p: Piece, tx: int, ty: int, taken: int)
    requires
        wf(s), 0 <= x < 8, 0 <= y < 8, in_bounds(tx, ty), sq(s.grid, x, y) == Some(p),
        p.piecetype == PieceType::Pawn, -1300 < taken < 1300, ty != y,
        taken == (match sq(s.grid, tx, ty) { Some(t) => spec_combined_value_at(t, pos(tx, ty)), None => 0 }),
        tx == x || sq(s.grid, tx, ty) is Some,
    ensures
        forall|k: int| 0 <= k < pawn_arrival(x, y, tx, ty, p, taken).len()
            ==> generated_well(s, #[trigger] pawn_arrival(x, y, tx, ty, p, taken)[k]),
{
    let from = Position { x: x as usize, y: y as usize };
    let to = Position { x: tx as usize, y: ty as usize };
    lemma_value_bounds(p, from);
    lemma_value_bounds(p, to);
    lemma_value_bounds(white_queen(), to);
    lemma_value_bounds(white_knight(), to);
    lemma_value_bounds(black_queen(), to);
    lemma_value_bounds(black_knight(), to);
    lemma_value_bounds(white_bishop(), to);
    lemma_value_bounds(white_rook(), to);
    lemma_value_bounds(black_bishop(), to);
    lemma_value_bounds(black_rook(), to);
}

proof fn lemma_pawn_dir(s: BoardState, x: int, y: int, p: Piece, dx: int, dy: int)
    requires
        wf(s), 0 <= x < 8, 0 <= y < 8, sq(s.grid, x, y) == Some(p),
        p.piecetype == PieceType::Pawn, p.color == s.color,
        -1 <= dx <= 1, dy == (if p.color == Color::White { -1int } else { 1int }),
        0 <= y + dy < 8,
    ensures
        forall|k: int| 0 <= k < pawn_dir_moves(s, x, y, p, dx, dy).len()
            ==> generated_well(s, #[trigger] pawn_dir_moves(s, x, y, p, dx, dy)[k]),
{
    let g = s.grid;
    let ty = y + dy;
    let from = Position { x: x as usize, y: y as usize };
    lemma_value_bounds(p, from);
    if dx == 0 {
        if sq(g, x, ty) is None {
            lemma_pawn_arrival(s, x, y, p, x, ty, 0);
            let a = pawn_arrival(x, y, x, ty, p, 0);
            if y == 6 && s.color == Color::White && sq(g, x, ty - 1) is None {
                lemma_value_bounds(p, Position { x: x as usize, y: (ty - 1) as usize });
            } else if y == 1 && s.color == Color::Black && sq(g, x, ty + 1) is None {
                lemma_value_bounds(p, Position { x: x as usize, y: (ty + 1) as usize });
            }
            let b = if y == 6 && s.color == Color::White && sq(g, x, ty - 1) is None {
                seq![spec_move(x, y, x, ty - 1, None, spec_value_at(p, pos(x, ty - 1)) - spec_value_at(p, pos(x, y)))]
            } else if y == 1 && s.color == Color::Black && sq(g, x, ty + 1) is None {
                seq![spec_move(x, y, x, ty + 1, None, spec_value_at(p, pos(x, ty + 1)) - spec_value_at(p, pos(x, y)))]
            } else {
                Seq::empty()
            };
            lemma_concat_matches(s, a, b);
        }
    } else {
        let tx = x + dx;
        if 0 <= tx < 8 {
            let to = Position { x: tx as usize, y: ty as usize };
            lemma_value_bounds(p, to);
            match sq(g, tx, ty) {
                Some(t) => {
                    if t.color != s.color {
                        lemma_value_bounds(t, to);
                        lemma_pawn_arrival(s, x, y, p, tx, ty, spec_combined_value_at(t, pos(tx, ty)));
                    }
                },
                None => {
                    match s.passants[s.counter as int] {
                        Some(c) => {
                            let victim = sq(g, c as int, y).unwrap();
                            lemma_value_bounds(victim, Position { x: c as usize, y: y as usize });
                        },
                        None => {},
                    }
                },
            }
        }
    }
}

proof fn lemma_piece_moves(s: BoardState, x: int, y: int, p: Piece)
    requires
        wf(s), moves_ok(s), 0 <= x < 8, 0 <= y < 8, sq(s.grid, x, y) == Some(p), p.color == s.color,
    ensures
        forall|k: int| 0 <= k < piece_moves(s, x, y, p).len() ==> generated_well(s, #[trigger] piece_moves(s, x, y, p)[k]),
{
    let dirs = spec_directions(p);
    assert forall|i: int| 0 <= i < dirs.len() implies ((#[trigger] dirs[i]).0 != 0 || dirs[i].1 != 0)
        && -2 <= dirs[i].0 <= 2 && -2 <= dirs[i].1 <= 2
        && (p.piecetype != PieceType::Knight ==> -1 <= dirs[i].0 <= 1 && -1 <= dirs[i].1 <= 1) by {
        lemma_direction_bounds(p, i);
        if p.piecetype == PieceType::Knight {
            assert(i == 0 || i == 1 || i == 2 || i == 3 || i == 4 || i == 5 || i == 6 || i == 7);
        }
    }
    if p.piecetype == PieceType::Pawn {
        if y == super::rules::far_row(p.color) {
            assert(sq(s.grid, x, super::rules::far_row(s.color)) == Some(Piece { piecetype: PieceType::Pawn, color: s.color }));
        }
        lemma_direction_bounds(p, 0);
        lemma_direction_bounds(p, 1);
        lemma_direction_bounds(p, 2);
        lemma_pawn_dir(s, x, y, p, dirs[0].0 as int, dirs[0].1 as int);
        lemma_pawn_dir(s, x, y, p, dirs[1].0 as int, dirs[1].1 as int);
        lemma_pawn_dir(s, x, y, p, dirs[2].0 as int, dirs[2].1 as int);
        let a = pawn_dir_moves(s, x, y, p, dirs[0].0 as int, dirs[0].1 as int);
        let b = pawn_dir_moves(s, x, y, p, dirs[1].0 as int, dirs[1].1 as int);
        let c = pawn_dir_moves(s, x, y, p, dirs[2].0 as int, dirs[2].1 as int);
        lemma_concat_matches(s, a, b);
        lemma_concat_matches(s, a + b, c);
    } else if p.piecetype == PieceType::King {
        let g = set_sq(s.grid, x, y, None);
        assert(same_but(s, g, x, y));
        lemma_step_moves(s, g, x, y, p, dirs);
    } else if spec_can_run(p) {
        lemma_running_moves(s, x, y, p, dirs);
    } else {
        assert(same_but(s, s.grid, x, y));
        lemma_step_moves(s, s.grid, x, y, p, dirs);
    }
}

proof fn lemma_pseudo_moves(s: BoardState, n: nat)
    requires wf(s), moves_ok(s), n <= 64,
    ensures
        forall|k: int| 0 <= k < pseudo_moves(s, n).len() ==> generated_well(s, #[trigger] pseudo_moves(s, n)[k]),
    decreases n,
{
    if n > 0 {
        let i = n - 1;
        let x = i % 8;
        let y = i / 8;
        lemma_pseudo_moves(s, (n - 1) as nat);
        let a = pseudo_moves(s, (n - 1) as nat);
        let b = match sq(s.grid, x, y) {
            Some(p) => if p.color == s.color { piece_moves(s, x, y, p) } else { Seq::empty() },
            None => Seq::empty(),
        };
        match sq(s.grid, x, y) {
            Some(p) => if p.color == s.color { lemma_piece_moves(s, x, y, p); },
            None => {},
        }
        lemma_concat_matches(s, a, b);
    }
}

/// Every legal move of a board carries, as its value, the change in evaluation that
/// `value_of` computes for it, provided the castling rights are backed by the kings on
/// their squares and the move does not land on the en-passant square without being an
/// en-passant capture.
pub proof fn lemma_generated_values(s: BoardState, m: Move)
    requires wf(s), moves_ok(s), castles_backed(s), spec_moves(s).contains(m), lands_fairly(s, m),
    ensures spec_value_of(s, m) == m.heuristic_value as int,
{
    let all = pseudo_moves(s, 64);
    let kept = all.filter(king_safe_after(s));
    let castles = spec_castle_moves(s);
    let k = choose|k: int| 0 <= k < spec_moves(s).len() && spec_moves(s)[k] == m;
    lemma_pseudo_moves(s, 64);
    if k < kept.len() {
        assert(kept[k] == m);
        assert(kept.contains(m));
        all.lemma_filter_contains_rev(king_safe_after(s), m);
        let j = choose|j: int| 0 <= j < all.len() && all[j] == m;
        assert(generated_well(s, all[j]));
    } else {
        assert(castles[k - kept.len()] == m);
        assert(m.promote is None);
        assert(sq(s.grid, m.to.x as int, m.to.y as int) is None);
        assert(m.to.y == 0 || m.to.y == 7);
    }
}


/// Every legal move leaves its square, a king's move with a castling rook is one of the
/// castling moves, and taking a legal move back restores the board (see `move_undoable`).
#[verifier::spinoff_prover]
#[verifier::rlimit(50)]
pub proof fn lemma_legal_move_shape(s: BoardState, m: Move)
    requires wf(s), moves_ok(s), spec_moves(s).contains(m),
    ensures
        m.from != m.to,
        rook_step_of(s, m) is Some ==> spec_castle_moves(s).contains(m),
        move_undoable(s, m),
{
    let all = pseudo_moves(s, 64);
    let kept = all.filter(king_safe_after(s));
    let castles = spec_castle_moves(s);
    let k = choose|k: int| 0 <= k < spec_moves(s).len() && spec_moves(s)[k] == m;
    lemma_pseudo_moves(s, 64);
    if k < kept.len() {
        assert(kept[k] == m);
        assert(kept.contains(m));
        all.lemma_filter_contains_rev(king_safe_after(s), m);
        let j = choose|j: int| 0 <= j < all.len() && all[j] == m;
        assert(generated_well(s, all[j]));
    } else {
        assert(castles[k - kept.len()] == m);
        assert(m.promote is None);
        assert(sq(s.grid, m.to.x as int, m.to.y as int) is None);
        assert(m.to.y == 0 || m.to.y == 7);
    }
}


/// Taking back a legal move restores the board, with the hash recorded for its turn, and
/// the board the move leads to keeps its capture record in order, so that its own moves can
/// be taken back in turn.
pub proof fn lemma_legal_move_undone(s: BoardState, m: Move)
    requires wf(s), history_ok(s), moves_ok(s), spec_moves(s).contains(m), move_ok(s, m),
    ensures
        can_go_back(spec_move_piece(s, m)),
        spec_go_back(spec_move_piece(s, m)) == with_hash(s, s.hashes[s.counter as int]),
        wf(spec_move_piece(s, m)),
        history_ok(spec_move_piece(s, m)),
{
    lemma_legal_move_shape(s, m);
    lemma_go_back_undoes_move(s, m);
    lemma_move_piece_wf(s, m);
}

} // verus!
