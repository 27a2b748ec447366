use vstd::prelude::*;
use crate::backend::board::{BoardState, spec_move_piece, spec_draw_by_repetition};
use crate::backend::piece::{Color, spec_opposite};
use crate::backend::rules::spec_moves;
use crate::backend::search::{searchable, board_before, minimax, minimax_over, negamax, negamax_over, infinity,
    lemma_step, lemma_negamax_bounds, negaalpha, negaalpha_from, alphabeta, alphabeta_from, sorted_moves,
    moves_sorted_for, lemma_sorted_moves, lemma_step_move, lemma_negaalpha_bounds, lemma_alphabeta_bounds};
use crate::backend::ai::negamax::{nega_root_value, nega_choice};
use crate::backend::pruning::tree_draw_free;
use crate::backend::ai::negaalpha::{alpha_choice, move_value, lemma_negaalpha_picks_best};
use super::minimax::{root_value, first_best};
use super::alphabeta::root_search;

verus! {

// The two-player minimax search and the negamax search agree.

/// No board the search evaluates at depth 0 is a draw by repetition (the two searches look
/// at repetitions and at the depth in opposite orders there).
pub open spec fn leaves_draw_free(s: BoardState, d: nat) -> bool
    decreases d,
{
    if d == 0 {
        !spec_draw_by_repetition(s)
    } else if spec_draw_by_repetition(s) || spec_moves(s).len() == 0 {
        true
    } else {
        forall|i: int| 0 <= i < spec_moves(s).len() ==>
            leaves_draw_free(#[trigger] spec_move_piece(board_before(s, i), spec_moves(s)[i]), (d - 1) as nat)
    }
}

/// The boards the moves of `s` lead to have no draw by repetition among their leaves.
pub open spec fn children_draw_free(s: BoardState, d: nat) -> bool {
    forall|i: int| 0 <= i < spec_moves(s).len() ==>
        leaves_draw_free(#[trigger] spec_move_piece(board_before(s, i), spec_moves(s)[i]), (d - 1) as nat)
}

proof fn lemma_child_color(s: BoardState, i: int)
    ensures spec_move_piece(board_before(s, i), spec_moves(s)[i]).color == spec_opposite(s.color),
{
    reveal(spec_move_piece);
}

/// The negamax value is the minimax value seen from the side to move: the value for White,
/// negated for Black.
pub proof fn lemma_negamax_is_minimax(s: BoardState, d: nat)
    requires searchable(s, d), leaves_draw_free(s, d),
    ensures negamax(s, d) == if s.color == Color::White { minimax(s, d, true) } else { -minimax(s, d, false) },
    decreases d, 1nat, 0nat,
{
    if d > 0 && !spec_draw_by_repetition(s) && spec_moves(s).len() > 0 {
        lemma_over(s, d, spec_moves(s).len());
    }
}

proof fn lemma_over(s: BoardState, d: nat, n: nat)
    requires
        searchable(s, d), d > 0, !spec_draw_by_repetition(s), spec_moves(s).len() > 0,
        leaves_draw_free(s, d), n <= spec_moves(s).len(),
    ensures
        negamax_over(s, d, n) == if s.color == Color::White { minimax_over(s, d, true, n) } else { -minimax_over(s, d, false, n) },
    decreases d, 0nat, n,
{
    if n > 0 {
        lemma_over(s, d, (n - 1) as nat);
        lemma_step(s, d, n - 1);
        let c = spec_move_piece(board_before(s, n - 1), spec_moves(s)[n - 1]);
        lemma_child_color(s, n - 1);
        assert(leaves_draw_free(c, (d - 1) as nat));
        lemma_negamax_is_minimax(c, (d - 1) as nat);
    }
}

proof fn lemma_root_values(s: BoardState, d: nat, i: int)
    requires searchable(s, d), d > 0, children_draw_free(s, d), 0 <= i < spec_moves(s).len(),
    ensures
        nega_root_value(s, d, i) == if s.color == Color::White { root_value(s, d, i) } else { -root_value(s, d, i) },
        -infinity() <= nega_root_value(s, d, i) <= infinity(),
{
    lemma_step(s, d, i);
    let c = spec_move_piece(board_before(s, i), spec_moves(s)[i]);
    lemma_child_color(s, i);
    assert(leaves_draw_free(c, (d - 1) as nat));
    lemma_negamax_is_minimax(c, (d - 1) as nat);
    lemma_negamax_bounds(c, (d - 1) as nat);
}

proof fn lemma_choices(s: BoardState, d: nat, n: nat)
    requires searchable(s, d), d > 0, children_draw_free(s, d), 1 <= n <= spec_moves(s).len(),
    ensures
        nega_choice(s, d, n).0 == first_best(s, d, n),
        nega_choice(s, d, n).1 == nega_root_value(s, d, first_best(s, d, n)),
        0 <= first_best(s, d, n) < n,
    decreases n,
{
    lemma_root_values(s, d, n - 1);
    if n > 1 {
        lemma_choices(s, d, (n - 1) as nat);
        lemma_root_values(s, d, first_best(s, d, (n - 1) as nat));
    } else {
        assert(nega_choice(s, d, 0) == (0int, -infinity()));
        assert(first_best(s, d, 1) == 0);
    }
}

/// The two-player minimax bot and the negamax bot, searching a board to the same depth,
/// pick the same move, as long as no board they evaluate at depth 0 is a draw by repetition.
pub proof fn lemma_minimax_negamax_same_move(s: BoardState, d: nat)
    requires searchable(s, d), d >= 1, spec_moves(s).len() > 0, children_draw_free(s, d),
    ensures first_best(s, d, spec_moves(s).len()) == nega_choice(s, d, spec_moves(s).len()).0,
{
    lemma_choices(s, d, spec_moves(s).len());
}

/// The pruned negamax value is the pruned two-player value seen from the side to move,
/// with the window turned around for Black.
pub proof fn lemma_negaalpha_is_alphabeta(s: BoardState, a: int, b: int, d: nat)
    requires
        searchable(s, d), tree_draw_free(s, d),
        -infinity() <= a <= infinity(), -infinity() <= b <= infinity(),
    ensures
        negaalpha(s, a, b, d) == if s.color == Color::White {
            alphabeta(s, a, b, d, true)
        } else {
            -alphabeta(s, -b, -a, d, false)
        },
    decreases d, 1nat, 0nat,
{
    if d > 0 && spec_moves(s).len() > 0 {
        lemma_pruned_over(s, a, b, d, 0, -infinity());
    }
}

proof fn lemma_pruned_over(s: BoardState, a: int, b: int, d: nat, i: nat, v: int)
    requires
        searchable(s, d), tree_draw_free(s, d), d > 0, spec_moves(s).len() > 0,
        -infinity() <= a <= infinity(), -infinity() <= b <= infinity(), -infinity() <= v <= infinity(),
    ensures
        negaalpha_from(s, a, b, d, i, v) == if s.color == Color::White {
            alphabeta_from(s, a, b, d, true, i, v)
        } else {
            -alphabeta_from(s, -b, -a, d, false, i, -v)
        },
    decreases d, 0nat, sorted_moves(s).len() - i,
{
    let white = s.color == Color::White;
    assert(moves_sorted_for(s, white) == sorted_moves(s));
    if i < sorted_moves(s).len() {
        lemma_sorted_moves(s);
        let m = sorted_moves(s)[i as int];
        lemma_step_move(s, d, i as int, m);
        let c = spec_move_piece(board_before(s, i as int), m);
        reveal(spec_move_piece);
        assert(c.color == spec_opposite(s.color));
        assert(tree_draw_free(c, (d - 1) as nat));
        lemma_negaalpha_is_alphabeta(c, -b, -a, (d - 1) as nat);
        lemma_negaalpha_bounds(c, -b, -a, (d - 1) as nat);
        let w = -negaalpha(c, -b, -a, (d - 1) as nat);
        let nv = if w > v { w } else { v };
        let na = if nv > a { nv } else { a };
        if nv < b {
            lemma_pruned_over(s, na, b, d, i + 1, nv);
        }
    }
}

/// The pruned two-player bot and the pruned negamax bot, searching a board to the same
/// depth, pick the same move, as long as no board below the root is a draw by repetition.
pub proof fn lemma_alphabeta_negaalpha_same_move(s: BoardState, d: nat)
    requires
        searchable(s, d), d >= 1, spec_moves(s).len() > 0,
        forall|i: int| 0 <= i < sorted_moves(s).len() ==>
            tree_draw_free(#[trigger] spec_move_piece(board_before(s, i), sorted_moves(s)[i]), (d - 1) as nat),
    ensures
        root_search(s, d, spec_moves(s).len()).0 == alpha_choice(s, d, spec_moves(s).len()).0,
{
    lemma_sorted_moves(s);
    lemma_roots(s, d, spec_moves(s).len());
}

/// The pruned two-player bot picks a move of best full value (see `move_value`), as long as
/// no board below the root is a draw by repetition.
pub proof fn lemma_alphabeta_picks_best(s: BoardState, d: nat)
    requires
        searchable(s, d), d >= 1, spec_moves(s).len() > 0,
        forall|i: int| 0 <= i < sorted_moves(s).len() ==>
            tree_draw_free(#[trigger] spec_move_piece(board_before(s, i), sorted_moves(s)[i]), (d - 1) as nat),
    ensures
        forall|i: int| 0 <= i < spec_moves(s).len() ==>
            #[trigger] move_value(s, d, i) <= move_value(s, d, root_search(s, d, spec_moves(s).len()).0),
{
    lemma_alphabeta_negaalpha_same_move(s, d);
    lemma_negaalpha_picks_best(s, d);
}

proof fn lemma_roots(s: BoardState, d: nat, n: nat)
    requires
        searchable(s, d), d >= 1, spec_moves(s).len() > 0, n <= sorted_moves(s).len(),
        sorted_moves(s).len() == spec_moves(s).len(),
        forall|i: int| 0 <= i < sorted_moves(s).len() ==>
            tree_draw_free(#[trigger] spec_move_piece(board_before(s, i), sorted_moves(s)[i]), (d - 1) as nat),
    ensures
        root_search(s, d, n).0 == alpha_choice(s, d, n).0,
        alpha_choice(s, d, n).1 == if s.color == Color::White { root_search(s, d, n).2 } else { -root_search(s, d, n).2 },
        n >= 1 ==> root_search(s, d, n).1 == root_search(s, d, n).2,
        -infinity() <= root_search(s, d, n).2 <= infinity(),
    decreases n,
{
    if n > 0 {
        lemma_roots(s, d, (n - 1) as nat);
        lemma_sorted_moves(s);
        let m = sorted_moves(s)[n - 1];
        lemma_step_move(s, d, n - 1, m);
        let c = spec_move_piece(board_before(s, n - 1), m);
        reveal(spec_move_piece);
        assert(c.color == spec_opposite(s.color));
        assert(tree_draw_free(c, (d - 1) as nat));
        let alpha = alpha_choice(s, d, (n - 1) as nat).1;
        let bound = root_search(s, d, (n - 1) as nat).2;
        lemma_negaalpha_is_alphabeta(c, -infinity(), -alpha, (d - 1) as nat);
        lemma_alphabeta_bounds(c, bound, infinity(), (d - 1) as nat, false);
        lemma_alphabeta_bounds(c, -infinity(), bound, (d - 1) as nat, true);
    }
}

} // verus!
