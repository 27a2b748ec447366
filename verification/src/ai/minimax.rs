use vstd::prelude::*;
use crate::backend::board::{Board, Move, Score, INFINITY, BoardState, with_hash, spec_move_piece,
    spec_draw_by_repetition};
use crate::backend::piece::Color;
use crate::backend::rules::spec_moves;
use crate::backend::search::{searchable, board_before, minimax, minimax_over, lemma_minimax_bounds,
    lemma_step, lemma_back};
use super::interface::AI;

verus! {

/// A plain minimax search to a fixed depth.
pub struct MiniMax {
    depth: usize,
}

pub const INITIAL_DEPTH: usize = 5;

impl View for MiniMax {
    /// The search depth.
    type V = usize;

    closed spec fn view(&self) -> usize {
        self.depth
    }
}

/// The value the search gives the `i`-th move of `s`: the minimax value of the board it
/// leads to, searched `d - 1` deeper with the opponent to move.
pub open spec fn root_value(s: BoardState, d: nat, i: int) -> int {
    minimax(spec_move_piece(board_before(s, i), spec_moves(s)[i]), (d - 1) as nat, s.color != Color::White)
}

/// The index of the first best of the first `n` moves of `s`: highest value for White,
/// lowest for Black.
pub open spec fn first_best(s: BoardState, d: nat, n: nat) -> int
    decreases n,
{
    if n <= 1 {
        0
    } else {
        let j = first_best(s, d, (n - 1) as nat);
        let v = root_value(s, d, n - 1);
        let w = root_value(s, d, j);
        if (s.color == Color::White && v > w) || (s.color != Color::White && v < w) { n - 1 } else { j }
    }
}

proof fn lemma_first_best_range(s: BoardState, d: nat, n: nat)
    requires n >= 1,
    ensures 0 <= first_best(s, d, n) < n,
    decreases n,
{
    if n > 1 {
        lemma_first_best_range(s, d, (n - 1) as nat);
    }
}

impl MiniMax {
    pub fn set_depth(&mut self, depth: usize)
        ensures final(self)@ == depth,
    {
        self.depth = depth;
    }

    /// The minimax value of `b` with the side to move maximizing.
    fn maxi(&self, b: &mut Board, depth: usize) -> (r: Score)
        requires searchable(old(b)@, depth as nat),
        ensures
            r == minimax(old(b)@, depth as nat, true),
            final(b)@ == old(b)@ || final(b)@ == with_hash(old(b)@, old(b)@.hashes[old(b)@.counter as int]),
        decreases depth, 1nat,
    {
        self.search_node(b, depth, true)
    }

    /// The minimax value of `b` with the side to move minimizing.
    fn mini(&self, b: &mut Board, depth: usize) -> (r: Score)
        requires searchable(old(b)@, depth as nat),
        ensures
            r == minimax(old(b)@, depth as nat, false),
            final(b)@ == old(b)@ || final(b)@ == with_hash(old(b)@, old(b)@.hashes[old(b)@.counter as int]),
        decreases depth, 1nat,
    {
        self.search_node(b, depth, false)
    }

    /// The body shared by `maxi` and `mini`: a draw by repetition is worth 0, the board's
    /// evaluation ends the search, a board without moves is scored as finished, and
    /// otherwise every move is made, searched by the other of the two, and taken back.
    fn search_node(&self, b: &mut Board, depth: usize, maxim: bool) -> (r: Score)
        requires searchable(old(b)@, depth as nat),
        ensures
            r == minimax(old(b)@, depth as nat, maxim),
            final(b)@ == old(b)@ || final(b)@ == with_hash(old(b)@, old(b)@.hashes[old(b)@.counter as int]),
        decreases depth, 0nat,
    {
        if b.is_draw_by_repetition() {
            return 0;
        }
        if depth == 0 {
            return b.heuristic_value();
        }
        let ghost s = b@;
        let ms = b.moves();
        if ms.len() == 0 {
            return b.end_score();
        }
        let mut ret: Score = if maxim { -INFINITY } else { INFINITY };
        let mut i: usize = 0;
        while i < ms.len()
            invariant
                searchable(s, depth as nat), depth > 0, !spec_draw_by_repetition(s),
                ms.0@ == spec_moves(s), ms.0@.len() > 0,
                i <= ms.0@.len(), b@ == board_before(s, i as int),
                ret == minimax_over(s, depth as nat, maxim, i as nat),
            decreases ms.0@.len() - i,
        {
            let m = ms.0[i];
            proof {
                lemma_step(s, depth as nat, i as int);
                lemma_minimax_bounds(spec_move_piece(board_before(s, i as int), m), (depth - 1) as nat, !maxim);
            }
            b.move_piece(&m);
            let v = if maxim { self.mini(b, depth - 1) } else { self.maxi(b, depth - 1) };
            proof { lemma_back(s, depth as nat, i as int, b@, crate::backend::board::spec_go_back(b@)); }
            b.go_back();
            if maxim {
                if v > ret {
                    ret = v;
                }
            } else {
                if v < ret {
                    ret = v;
                }
            }
            i += 1;
        }
        ret
    }
}

impl AI for MiniMax {
    open spec fn can_search(&self, s: BoardState) -> bool {
        &&& self@ >= 1
        &&& searchable(s, self@ as nat)
        &&& spec_moves(s).len() > 0
    }

    /// The move `search` takes: the first best, at the bot's depth; the bot is left as it was.
    open spec fn picks(&self, s: BoardState, m: Move, after: Self) -> bool {
        &&& m == spec_moves(s)[first_best(s, self@ as nat, spec_moves(s).len())]
        &&& after@ == self@
    }

    fn new() -> (r: Self)
        ensures r@ == INITIAL_DEPTH,
    {
        MiniMax { depth: INITIAL_DEPTH }
    }

    /// Searches every move `self.depth` moves deep and picks the first best one: highest
    /// value for White, lowest for Black.
    fn search(&mut self, b: Board) -> (m: Move)
        ensures m == spec_moves(b@)[first_best(b@, old(self)@ as nat, spec_moves(b@).len())],
    {
        let mut b = b;
        let ghost s = b@;
        let ms = b.moves();
        let white = b.color_to_move() == Color::White;
        let mut best: usize = 0;
        let mut best_value: Score = 0;
        let mut i: usize = 0;
        while i < ms.len()
            invariant
                self.depth >= 1, searchable(s, self.depth as nat), white == (s.color == Color::White),
                ms.0@ == spec_moves(s), ms.0@.len() > 0,
                i <= ms.0@.len(), b@ == board_before(s, i as int),
                i > 0 ==> best == first_best(s, self.depth as nat, i as nat) && best_value == root_value(s, self.depth as nat, best as int),
            decreases ms.0@.len() - i,
        {
            let m = ms.0[i];
            proof { lemma_step(s, self.depth as nat, i as int); }
            b.move_piece(&m);
            let v = if white { self.mini(&mut b, self.depth - 1) } else { self.maxi(&mut b, self.depth - 1) };
            proof { lemma_back(s, self.depth as nat, i as int, b@, crate::backend::board::spec_go_back(b@)); }
            b.go_back();
            if i == 0 || (white && v > best_value) || (!white && v < best_value) {
                best = i;
                best_value = v;
            }
            i += 1;
        }
        proof {
            lemma_first_best_range(s, self.depth as nat, ms.0@.len());
            assert(spec_moves(s).contains(ms.0@[best as int]));
        }
        ms.0[best]
    }
}

} // verus!
