use vstd::prelude::*;
use super::board::{BoardState, wf, history_ok, move_ok, move_undoable, can_go_back, spec_move_piece, spec_go_back,
    with_hash, grid_after_ep, grid_after_promo, grid_after_move, captures_of, graveyard_after_move, grid_back_step, grid_after_back, graveyard_after_back, lemma_go_back_undoes_move,
    lemma_move_piece_wf};
use super::board_representation::movement::Move;
use super::rules::{pseudo_moves, spec_moves, king_safe_after, moves_ok, spec_end_score};

verus! {

// Boards that differ only in their hash values: everything the rules read is the same.

/// `a` and `b` are the same position with the same history; only the current hash and the
/// recorded hashes may differ (the number of recorded hashes is the same).
pub open spec fn same_position(a: BoardState, b: BoardState) -> bool {
    &&& a.grid == b.grid
    &&& a.color == b.color
    &&& a.scores == b.scores
    &&& a.counter == b.counter
    &&& a.graveyard == b.graveyard
    &&& a.moves == b.moves
    &&& a.passants == b.passants
    &&& a.castles == b.castles
    &&& a.wkingpos == b.wkingpos
    &&& a.bkingpos == b.bkingpos
    &&& a.queens == b.queens
    &&& a.hashes.len() == b.hashes.len()
    &&& a.zobrist.arr == b.zobrist.arr
    &&& a.zobrist.color_to_move == b.zobrist.color_to_move
    &&& a.zobrist.castle == b.zobrist.castle
    &&& a.zobrist.en_passant == b.zobrist.en_passant
}

#[verifier::spinoff_prover]
#[verifier::rlimit(50)]
proof fn lemma_pseudo_same(a: BoardState, b: BoardState, n: nat)
    requires same_position(a, b),
    ensures pseudo_moves(a, n) == pseudo_moves(b, n),
    decreases n,
{
    if n > 0 {
        lemma_pseudo_same(a, b, (n - 1) as nat);
    }
}

/// Boards in the same position have the same legal moves, validity and scores.
pub proof fn lemma_same_position_rules(a: BoardState, b: BoardState)
    requires same_position(a, b),
    ensures
        spec_moves(a) == spec_moves(b),
        wf(a) == wf(b),
        history_ok(a) == history_ok(b),
        moves_ok(a) == moves_ok(b),
        can_go_back(a) == can_go_back(b),
        spec_end_score(a) == spec_end_score(b),
        forall|m: Move| move_ok(a, m) == move_ok(b, m) && move_undoable(a, m) == move_undoable(b, m),
{
    lemma_pseudo_same(a, b, 64);
    assert(king_safe_after(a) =~= king_safe_after(b));
}

/// A move played on boards in the same position leads to boards in the same position.
pub proof fn lemma_same_position_move(a: BoardState, b: BoardState, m: Move)
    requires same_position(a, b),
    ensures same_position(spec_move_piece(a, m), spec_move_piece(b, m)),
{
    reveal(spec_move_piece);
    reveal(grid_after_ep);
    reveal(grid_after_promo);
    reveal(grid_after_move);
    reveal(captures_of);
    reveal(graveyard_after_move);
    assert(grid_after_move(a, m) == grid_after_move(b, m));
    assert(graveyard_after_move(a, m) == graveyard_after_move(b, m));
}

/// Taking back the last move of boards in the same position leads to boards in the same position.
pub proof fn lemma_same_position_back(a: BoardState, b: BoardState)
    requires same_position(a, b), a.hashes.len() > 0,
    ensures same_position(spec_go_back(a), spec_go_back(b)),
{
    reveal(spec_go_back);
    reveal(grid_back_step);
    reveal(grid_after_back);
    reveal(graveyard_after_back);
    assert(grid_after_back(a) == grid_after_back(b));
    assert(graveyard_after_back(a) == graveyard_after_back(b));
}

/// Making a move and taking it back, on any board in the same position as `s`, gives a
/// board in the same position as `s`.
pub proof fn lemma_move_and_back(s: BoardState, t: BoardState, m: Move, u: BoardState)
    requires
        wf(s), history_ok(s), move_ok(s, m), move_undoable(s, m),
        same_position(t, spec_move_piece(s, m)),
        u == spec_go_back(t),
    ensures
        same_position(u, s),
        can_go_back(t),
{
    lemma_go_back_undoes_move(s, m);
    let t0 = spec_move_piece(s, m);
    lemma_move_piece_wf(s, m);
    lemma_same_position_rules(t, t0);
    lemma_same_position_back(t, t0);
    assert(same_position(with_hash(s, s.hashes[s.counter as int]), s));
}

} // verus!
