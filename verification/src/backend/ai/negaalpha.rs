use vstd::prelude::*;
use crate::backend::board::{Board, Move, Score, INFINITY, BoardState, with_hash, spec_move_piece,
    spec_draw_by_repetition, spec_go_back};
use crate::backend::rules::spec_moves;
use crate::backend::search::{negamax, searchable, board_before, negaalpha, negaalpha_from, sorted_moves, lemma_sorted_moves,
    lemma_step_move, lemma_back_move, lemma_negaalpha_bounds, infinity};
use crate::backend::pruning::{fullmax, fullmax_over, sorted_child, lemma_negaalpha_window, tree_draw_free,
    plain_tree_draw_free, lemma_fullmax_is_negamax,
    lemma_negaalpha_full_window, lemma_fullmax_bounds};
use super::interface::AI;

verus! {

/// Negamax with alpha-beta pruning, without memoisation.
pub struct NegaAlpha {
    depth: usize,
}

pub const INITIAL_DEPTH: usize = 6;

impl View for NegaAlpha {
    /// The search depth.
    type V = usize;

    closed spec fn view(&self) -> usize {
        self.depth
    }
}

/// The move the search picks among the first `n` sorted moves of `s`, with the best value
/// so far as alpha: each move is searched with window (-infinity, -alpha) and taken when its
/// negated value beats alpha.
pub open spec fn alpha_choice(s: BoardState, d: nat, n: nat) -> (int, int)
    decreases n,
{
    if n == 0 {
        (0, -infinity())
    } else {
        let (j, alpha) = alpha_choice(s, d, (n - 1) as nat);
        let child = spec_move_piece(board_before(s, n - 1), sorted_moves(s)[n - 1]);
        let v = -negaalpha(child, -infinity(), -alpha, (d - 1) as nat);
        if v > alpha { (n - 1, v) } else { (j, alpha) }
    }
}

proof fn lemma_alpha_choice(s: BoardState, d: nat, n: nat)
    requires searchable(s, d), d > 0, n <= sorted_moves(s).len(),
    ensures
        0 <= alpha_choice(s, d, n).0 < (if n == 0 { 1 } else { n as int }),
        -infinity() <= alpha_choice(s, d, n).1 <= infinity(),
    decreases n,
{
    if n > 0 {
        lemma_alpha_choice(s, d, (n - 1) as nat);
        lemma_sorted_moves(s);
        let m = sorted_moves(s)[n - 1];
        lemma_step_move(s, d, n - 1, m);
        let alpha = alpha_choice(s, d, (n - 1) as nat).1;
        lemma_negaalpha_bounds(spec_move_piece(board_before(s, n - 1), m), -infinity(), -alpha, (d - 1) as nat);
    }
}

/// The value of the `i`-th sorted move of `s` for the side to move: the full value of the
/// board it leads to, searched one move less deep, negated.
pub open spec fn move_value(s: BoardState, d: nat, i: int) -> int {
    -fullmax(sorted_child(s, i), (d - 1) as nat)
}

proof fn lemma_over_at_least(s: BoardState, d: nat, i: int, n: nat)
    requires d > 0, 0 <= i < n <= sorted_moves(s).len(),
    ensures move_value(s, d, i) <= fullmax_over(s, d, n),
    decreases n,
{
    if i < n - 1 {
        lemma_over_at_least(s, d, i, (n - 1) as nat);
    }
}

/// After the first `n` moves the root search holds, as its alpha, the best full value of
/// those moves, and the move it has picked has that value.
proof fn lemma_choice_value(s: BoardState, d: nat, n: nat)
    requires searchable(s, d), d > 0, 1 <= n <= sorted_moves(s).len(),
    ensures
        alpha_choice(s, d, n).1 == fullmax_over(s, d, n),
        move_value(s, d, alpha_choice(s, d, n).0) == fullmax_over(s, d, n),
    decreases n,
{
    lemma_sorted_moves(s);
    let m = sorted_moves(s)[n - 1];
    lemma_step_move(s, d, n - 1, m);
    let child = sorted_child(s, n - 1);
    lemma_fullmax_bounds(child, (d - 1) as nat);
    if n == 1 {
        lemma_negaalpha_full_window(child, (d - 1) as nat);
        assert(alpha_choice(s, d, 0) == (0int, -infinity()));
        assert(child == spec_move_piece(board_before(s, 0), sorted_moves(s)[0]));
        let v = -negaalpha(child, -infinity(), infinity(), (d - 1) as nat);
        assert(v == move_value(s, d, 0));
        assert(fullmax_over(s, d, 0) == -infinity());
        assert(fullmax_over(s, d, 1) == (if v > -infinity() { v } else { -infinity() }));
        assert(alpha_choice(s, d, 1) == (if v > -infinity() { (0int, v) } else { (0int, -infinity()) }));
    } else {
        lemma_choice_value(s, d, (n - 1) as nat);
        lemma_alpha_choice(s, d, (n - 1) as nat);
        let alpha = alpha_choice(s, d, (n - 1) as nat).1;
        lemma_negaalpha_bounds(child, -infinity(), -alpha, (d - 1) as nat);
        if alpha < infinity() {
            lemma_negaalpha_window(child, -infinity(), -alpha, (d - 1) as nat);
        }
    }
}

/// The move the NegaAlpha search picks has the best full value among all the moves: pruning
/// loses nothing of the search without it.
pub proof fn lemma_negaalpha_picks_best(s: BoardState, d: nat)
    requires searchable(s, d), d > 0, spec_moves(s).len() > 0,
    ensures
        forall|i: int| 0 <= i < spec_moves(s).len() ==>
            #[trigger] move_value(s, d, i) <= move_value(s, d, alpha_choice(s, d, spec_moves(s).len()).0),
{
    lemma_sorted_moves(s);
    let n = spec_moves(s).len();
    lemma_choice_value(s, d, n);
    assert forall|i: int| 0 <= i < n implies #[trigger] move_value(s, d, i) <= move_value(s, d, alpha_choice(s, d, n).0) by {
        lemma_over_at_least(s, d, i, n);
    }
}

/// Where neither the pruned search nor the plain negamax search meets a repetition, the
/// move the NegaAlpha search picks is worth the negamax value of the position.
pub proof fn lemma_negaalpha_attains_negamax(s: BoardState, d: nat)
    requires
        searchable(s, d), d > 0, spec_moves(s).len() > 0,
        tree_draw_free(s, d), plain_tree_draw_free(s, d),
    ensures move_value(s, d, alpha_choice(s, d, spec_moves(s).len()).0) == negamax(s, d),
{
    lemma_sorted_moves(s);
    lemma_choice_value(s, d, spec_moves(s).len());
    lemma_fullmax_is_negamax(s, d);
}

impl NegaAlpha {
    /// The pruned negamax value of `b` with window (alpha, beta), `depth` moves deep.
    fn alphabeta(&mut self, b: &mut Board, old_alpha: Score, beta: Score, depth: usize) -> (r: Score)
        requires
            searchable(old(b)@, depth as nat),
            -infinity() <= old_alpha <= infinity(), -infinity() <= beta <= infinity(),
        ensures
            r == negaalpha(old(b)@, old_alpha as int, beta as int, depth as nat),
            final(b)@ == old(b)@ || final(b)@ == with_hash(old(b)@, old(b)@.hashes[old(b)@.counter as int]),
            final(self)@ == old(self)@,
        decreases depth,
    {
        if b.is_draw_by_repetition() {
            return 0;
        }
        if depth == 0 {
            return b.symmetric_heuristic_value();
        }
        let ghost s = b@;
        let mut ms = b.moves();
        if ms.len() == 0 {
            return b.symmetric_end_score();
        }
        ms.sort_by_heuristic(b.color_to_move());
        proof { lemma_sorted_moves(s); }
        let ghost a0 = old_alpha;
        let mut alpha = old_alpha;
        let mut value: Score = -INFINITY;
        let mut i: usize = 0;
        while i < ms.len()
            invariant
                searchable(s, depth as nat), depth > 0, !spec_draw_by_repetition(s), spec_moves(s).len() > 0,
                ms.0@ == sorted_moves(s), ms.0@.len() == spec_moves(s).len(),
                forall|k: int| 0 <= k < ms.0@.len() ==> spec_moves(s).contains(#[trigger] ms.0@[k]),
                i <= ms.0@.len(), b@ == board_before(s, i as int),
                -infinity() <= alpha <= infinity(), -infinity() <= beta <= infinity(), -infinity() <= value <= infinity(),
                self@ == old(self)@, old(b)@ == s, a0 == old_alpha,
                negaalpha(s, a0 as int, beta as int, depth as nat)
                    == negaalpha_from(s, alpha as int, beta as int, depth as nat, i as nat, value as int),
            decreases ms.0@.len() - i,
        {
            let m = ms.0[i];
            let ghost alpha_before = alpha;
            let ghost value_before = value;
            proof {
                lemma_step_move(s, depth as nat, i as int, m);
                lemma_negaalpha_bounds(spec_move_piece(board_before(s, i as int), m), -beta as int, -alpha as int, (depth - 1) as nat);
            }
            b.move_piece(&m);
            let w = -self.alphabeta(b, -beta, -alpha, depth - 1);
            proof { lemma_back_move(s, depth as nat, i as int, m, b@, spec_go_back(b@)); }
            b.go_back();
            if w > value {
                value = w;
            }
            if value > alpha {
                alpha = value;
            }
            proof {
                assert(negaalpha_from(s, alpha_before as int, beta as int, depth as nat, i as nat, value_before as int)
                    == if value >= beta { value as int } else {
                        negaalpha_from(s, alpha as int, beta as int, depth as nat, i as nat + 1, value as int)
                    });
            }
            if value >= beta {
                return value;
            }
            i += 1;
        }
        value
    }
}

impl AI for NegaAlpha {
    open spec fn can_search(&self, s: BoardState) -> bool {
        &&& self@ >= 1
        &&& searchable(s, self@ as nat)
        &&& spec_moves(s).len() > 0
    }

    /// The move `search` takes: the first sorted move that raised alpha, at the bot's depth;
    /// the bot is left as it was.
    open spec fn picks(&self, s: BoardState, m: Move, after: Self) -> bool {
        &&& m == sorted_moves(s)[alpha_choice(s, self@ as nat, spec_moves(s).len()).0]
        &&& after@ == self@
    }

    fn new() -> (r: Self)
        ensures r@ == INITIAL_DEPTH,
    {
        NegaAlpha { depth: INITIAL_DEPTH }
    }

    /// Sorts the moves best first and searches them in turn, each with the window closed
    /// at the best value found so far; picks the first move that raised it.
    #[verifier::spinoff_prover]
    fn search(&mut self, b: Board) -> (m: Move)
        ensures m == sorted_moves(b@)[alpha_choice(b@, old(self)@ as nat, spec_moves(b@).len()).0],
    {
        let ghost b_entry = b;
        let mut b = b;
        let ghost s = b@;
        let mut ms = b.moves();
        ms.sort_by_heuristic(b.color_to_move());
        proof { lemma_sorted_moves(s); }
        let mut alpha: Score = -INFINITY;
        let mut best: usize = 0;
        let mut i: usize = 0;
        while i < ms.len()
            invariant
                self.depth >= 1, searchable(s, self.depth as nat), spec_moves(s).len() > 0,
                self@ == old(self)@, s == b_entry@,
                ms.0@ == sorted_moves(s), ms.0@.len() == spec_moves(s).len(),
                forall|k: int| 0 <= k < ms.0@.len() ==> spec_moves(s).contains(#[trigger] ms.0@[k]),
                i <= ms.0@.len(), b@ == board_before(s, i as int),
                (best as int, alpha as int) == alpha_choice(s, self.depth as nat, i as nat),
            decreases ms.0@.len() - i,
        {
            let m = ms.0[i];
            proof {
                lemma_alpha_choice(s, self.depth as nat, i as nat);
                lemma_step_move(s, self.depth as nat, i as int, m);
                lemma_negaalpha_bounds(spec_move_piece(board_before(s, i as int), m), -infinity(), -alpha as int, (self.depth - 1) as nat);
            }
            b.move_piece(&m);
            let value = -self.alphabeta(&mut b, -INFINITY, -alpha, self.depth - 1);
            proof { lemma_back_move(s, self.depth as nat, i as int, m, b@, spec_go_back(b@)); }
            b.go_back();
            if value > alpha {
                alpha = value;
                best = i;
            }
            i += 1;
        }
        proof {
            lemma_alpha_choice(s, self.depth as nat, ms.0@.len());
        }
        ms.0[best]
    }

    fn set_depth(&mut self, depth: usize)
        ensures final(self)@ == depth,
    {
        self.depth = depth;
    }

    fn get_name(&self) -> (r: &str)
        ensures r@ == "NegaAlpha"@,
    {
        "NegaAlpha"
    }
}

} // verus!
