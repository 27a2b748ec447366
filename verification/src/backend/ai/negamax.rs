use vstd::prelude::*;
use crate::backend::board::{Board, Move, Score, INFINITY, BoardState, with_hash, spec_move_piece,
    spec_draw_by_repetition, spec_go_back};
use crate::backend::rules::spec_moves;
use crate::backend::search::{searchable, board_before, negamax, negamax_over, lemma_step, lemma_back, infinity,
    lemma_negamax_bounds};
use super::interface::AI;

verus! {

/// A plain negamax search to a fixed depth.
pub struct NegaMax {
    depth: usize,
}

pub const INITIAL_DEPTH: usize = 5;

impl View for NegaMax {
    /// The search depth.
    type V = usize;

    closed spec fn view(&self) -> usize {
        self.depth
    }
}

/// The value the search gives the `i`-th move of `s`: the negated negamax value of the
/// board it leads to, searched `d - 1` deeper.
pub open spec fn nega_root_value(s: BoardState, d: nat, i: int) -> int {
    -negamax(spec_move_piece(board_before(s, i), spec_moves(s)[i]), (d - 1) as nat)
}

/// The move the search picks among the first `n` of `s`: the first whose value beats all
/// before it and minus infinity, or the first move when none does.
pub open spec fn nega_choice(s: BoardState, d: nat, n: nat) -> (int, int)
    decreases n,
{
    if n == 0 {
        (0, -infinity())
    } else {
        let (j, best) = nega_choice(s, d, (n - 1) as nat);
        let v = nega_root_value(s, d, n - 1);
        if v > best { (n - 1, v) } else { (j, best) }
    }
}

proof fn lemma_nega_choice_range(s: BoardState, d: nat, n: nat)
    ensures 0 <= nega_choice(s, d, n).0 < (if n == 0 { 1 } else { n as int }),
    decreases n,
{
    if n > 0 {
        lemma_nega_choice_range(s, d, (n - 1) as nat);
    }
}

proof fn lemma_nega_choice_value(s: BoardState, d: nat, n: nat)
    requires searchable(s, d), d > 0, 1 <= n <= spec_moves(s).len(),
    ensures
        nega_choice(s, d, n).1 == negamax_over(s, d, n),
        nega_root_value(s, d, nega_choice(s, d, n).0) == negamax_over(s, d, n),
    decreases n,
{
    lemma_step(s, d, n - 1);
    lemma_negamax_bounds(spec_move_piece(board_before(s, n - 1), spec_moves(s)[n - 1]), (d - 1) as nat);
    let v = nega_root_value(s, d, n - 1);
    if n > 1 {
        lemma_nega_choice_value(s, d, (n - 1) as nat);
    } else {
        assert(nega_choice(s, d, 0) == (0int, -infinity()));
        assert(negamax_over(s, d, 0) == -infinity());
    }
    assert(negamax_over(s, d, n) == if v > negamax_over(s, d, (n - 1) as nat) { v } else { negamax_over(s, d, (n - 1) as nat) });
}

/// The move the NegaMax search picks is worth the negamax value of the position, unless
/// the position itself is a draw by repetition.
pub proof fn lemma_negamax_attains(s: BoardState, d: nat)
    requires searchable(s, d), d > 0, spec_moves(s).len() > 0, !spec_draw_by_repetition(s),
    ensures nega_root_value(s, d, nega_choice(s, d, spec_moves(s).len()).0) == negamax(s, d),
{
    lemma_nega_choice_value(s, d, spec_moves(s).len());
}

impl NegaMax {
    /// The negamax value of `b` searched `depth` moves deep.
    fn negamax(&self, b: &mut Board, depth: usize) -> (r: Score)
        requires searchable(old(b)@, depth as nat),
        ensures
            r == negamax(old(b)@, depth as nat),
            final(b)@ == old(b)@ || final(b)@ == with_hash(old(b)@, old(b)@.hashes[old(b)@.counter as int]),
        decreases depth,
    {
        if depth == 0 {
            return b.symmetric_heuristic_value();
        }
        if b.is_draw_by_repetition() {
            return 0;
        }
        let ghost s = b@;
        let ms = b.moves();
        if ms.len() == 0 {
            return b.symmetric_end_score();
        }
        let mut ret: Score = -INFINITY;
        let mut i: usize = 0;
        while i < ms.len()
            invariant
                searchable(s, depth as nat), depth > 0, !spec_draw_by_repetition(s),
                ms.0@ == spec_moves(s), ms.0@.len() > 0,
                i <= ms.0@.len(), b@ == board_before(s, i as int),
                ret == negamax_over(s, depth as nat, i as nat),
            decreases ms.0@.len() - i,
        {
            let m = ms.0[i];
            proof {
                lemma_step(s, depth as nat, i as int);
                lemma_negamax_bounds(spec_move_piece(board_before(s, i as int), m), (depth - 1) as nat);
            }
            b.move_piece(&m);
            let v = -self.negamax(b, depth - 1);
            proof { lemma_back(s, depth as nat, i as int, b@, spec_go_back(b@)); }
            b.go_back();
            if v > ret {
                ret = v;
            }
            i += 1;
        }
        ret
    }
}

impl AI for NegaMax {
    open spec fn can_search(&self, s: BoardState) -> bool {
        &&& self@ >= 1
        &&& searchable(s, self@ as nat)
        &&& spec_moves(s).len() > 0
    }

    /// The move `search` takes: the first with the best negated value, at the bot's depth;
    /// the bot is left as it was.
    open spec fn picks(&self, s: BoardState, m: Move, after: Self) -> bool {
        &&& m == spec_moves(s)[nega_choice(s, self@ as nat, spec_moves(s).len()).0]
        &&& after@ == self@
    }

    fn new() -> (r: Self)
        ensures r@ == INITIAL_DEPTH,
    {
        NegaMax { depth: INITIAL_DEPTH }
    }

    /// Searches every move and picks the first with the highest negated value.
    fn search(&mut self, b: Board) -> (m: Move)
        ensures m == spec_moves(b@)[nega_choice(b@, old(self)@ as nat, spec_moves(b@).len()).0],
    {
        let mut b = b;
        let ghost s = b@;
        let ms = b.moves();
        let mut best_value: Score = -INFINITY;
        let mut best: usize = 0;
        let mut i: usize = 0;
        while i < ms.len()
            invariant
                self.depth >= 1, searchable(s, self.depth as nat),
                ms.0@ == spec_moves(s), ms.0@.len() > 0,
                i <= ms.0@.len(), b@ == board_before(s, i as int),
                (best as int, best_value as int) == nega_choice(s, self.depth as nat, i as nat),
            decreases ms.0@.len() - i,
        {
            let m = ms.0[i];
            proof {
                lemma_step(s, self.depth as nat, i as int);
                lemma_negamax_bounds(spec_move_piece(board_before(s, i as int), m), (self.depth - 1) as nat);
            }
            b.move_piece(&m);
            let value = -self.negamax(&mut b, self.depth - 1);
            proof { lemma_back(s, self.depth as nat, i as int, b@, spec_go_back(b@)); }
            b.go_back();
            if value > best_value {
                best_value = value;
                best = i;
            }
            i += 1;
        }
        proof {
            lemma_nega_choice_range(s, self.depth as nat, ms.0@.len());
            assert(spec_moves(s).contains(ms.0@[best as int]));
        }
        ms.0[best]
    }

    fn set_depth(&mut self, depth: usize)
        ensures final(self)@ == depth,
    {
        self.depth = depth;
    }

    fn get_name(&self) -> (r: &str)
        ensures r@ == "NegaMax"@,
    {
        "NegaMax"
    }
}

} // verus!
