use vstd::prelude::*;
use crate::backend::board::{Board, Move, Score, INFINITY, BoardState, with_hash, spec_move_piece, spec_go_back};
use crate::backend::piece::Color;
use crate::backend::rules::spec_moves;
use crate::backend::search::{searchable, board_before, alphabeta, alphabeta_from, moves_sorted_for, sorted_moves,
    lemma_sorted_for, lemma_sorted_moves, lemma_step_move, lemma_back_move, lemma_alphabeta_bounds, infinity};
use crate::backend::pruning::{fullab, fullab_over, ab_child, lemma_fullab_bounds, lemma_alphabeta_window, lemma_alphabeta_full_window};
use crate::backend::positions::{same_position, lemma_same_position_rules, lemma_same_position_move};
use crate::backend::board_representation::movement::lemma_sort_by_heuristic;
use super::interface::AI;

verus! {

pub const INITIAL_DEPTH: usize = 6;

/// Minimax with alpha-beta pruning, moves searched best first by their values.
pub struct AlphaBeta {
    depth: usize,
}

impl View for AlphaBeta {
    /// The search depth.
    type V = usize;

    closed spec fn view(&self) -> usize {
        self.depth
    }
}

/// The search at the root over the first `n` sorted moves of `s`: the index of the first
/// best move, its value, and the window bound so far. White searches each reply with window
/// (bound, infinity) and raises the bound; Black with (-infinity, bound) and lowers it.
pub open spec fn root_search(s: BoardState, d: nat, n: nat) -> (int, int, int)
    decreases n,
{
    let white = s.color == Color::White;
    if n == 0 {
        (0, 0, if white { -infinity() } else { infinity() })
    } else {
        let (j, best, bound) = root_search(s, d, (n - 1) as nat);
        let child = spec_move_piece(board_before(s, n - 1), sorted_moves(s)[n - 1]);
        let v = if white {
            alphabeta(child, bound, infinity(), (d - 1) as nat, false)
        } else {
            alphabeta(child, -infinity(), bound, (d - 1) as nat, true)
        };
        let new_bound = if white { if v > bound { v } else { bound } } else { if v < bound { v } else { bound } };
        if n == 1 || (white && v > best) || (!white && v < best) { (n - 1, v, new_bound) } else { (j, best, new_bound) }
    }
}

proof fn lemma_root_search(s: BoardState, d: nat, n: nat)
    requires searchable(s, d), d > 0, n <= sorted_moves(s).len(),
    ensures
        0 <= root_search(s, d, n).0 < (if n == 0 { 1 } else { n as int }),
        -infinity() <= root_search(s, d, n).2 <= infinity(),
    decreases n,
{
    if n > 0 {
        lemma_root_search(s, d, (n - 1) as nat);
        lemma_sorted_moves(s);
        let m = sorted_moves(s)[n - 1];
        lemma_step_move(s, d, n - 1, m);
        let bound = root_search(s, d, (n - 1) as nat).2;
        let child = spec_move_piece(board_before(s, n - 1), m);
        lemma_alphabeta_bounds(child, bound, infinity(), (d - 1) as nat, false);
        lemma_alphabeta_bounds(child, -infinity(), bound, (d - 1) as nat, true);
    }
}

/// The full two-player value of the `i`-th sorted move of `s`: the value of the board it
/// leads to, searched one move less deep, for the other side.
pub open spec fn ab_move_value(s: BoardState, d: nat, i: int) -> int {
    fullab(spec_move_piece(board_before(s, i), sorted_moves(s)[i]), (d - 1) as nat, s.color != Color::White)
}

/// The best full value among the first `n` sorted moves of `s` for the side to move: the
/// highest for White, the lowest for Black.
pub open spec fn root_best(s: BoardState, d: nat, n: nat) -> int
    decreases n,
{
    if n == 0 {
        if s.color == Color::White { -infinity() } else { infinity() }
    } else {
        let prev = root_best(s, d, (n - 1) as nat);
        let v = ab_move_value(s, d, n - 1);
        if s.color == Color::White { if v > prev { v } else { prev } } else { if v < prev { v } else { prev } }
    }
}

proof fn lemma_root_best_bounds(s: BoardState, d: nat, i: int, n: nat)
    requires 0 <= i < n,
    ensures
        s.color == Color::White ==> ab_move_value(s, d, i) <= root_best(s, d, n),
        s.color != Color::White ==> ab_move_value(s, d, i) >= root_best(s, d, n),
    decreases n,
{
    if i < n - 1 {
        lemma_root_best_bounds(s, d, i, (n - 1) as nat);
    }
}

/// After the first `n` moves the root search holds, as its bound and its best value, the
/// best full value of those moves, and the move it has picked has that value.
proof fn lemma_root_values(s: BoardState, d: nat, n: nat)
    requires searchable(s, d), d > 0, 1 <= n <= sorted_moves(s).len(),
    ensures
        root_search(s, d, n).2 == root_best(s, d, n),
        root_search(s, d, n).1 == root_best(s, d, n),
        ab_move_value(s, d, root_search(s, d, n).0) == root_best(s, d, n),
    decreases n,
{
    lemma_sorted_moves(s);
    let m = sorted_moves(s)[n - 1];
    lemma_step_move(s, d, n - 1, m);
    let child = spec_move_piece(board_before(s, n - 1), m);
    let white = s.color == Color::White;
    lemma_fullab_bounds(child, (d - 1) as nat, !white);
    if n == 1 {
        lemma_alphabeta_full_window(child, (d - 1) as nat, !white);
        assert(root_search(s, d, 0) == (0int, 0int, if white { -infinity() } else { infinity() }));
        assert(root_best(s, d, 0) == if white { -infinity() } else { infinity() });
    } else {
        lemma_root_values(s, d, (n - 1) as nat);
        lemma_root_search(s, d, (n - 1) as nat);
        let bound = root_search(s, d, (n - 1) as nat).2;
        lemma_alphabeta_bounds(child, bound, infinity(), (d - 1) as nat, false);
        lemma_alphabeta_bounds(child, -infinity(), bound, (d - 1) as nat, true);
        if white && bound < infinity() {
            lemma_alphabeta_window(child, bound, infinity(), (d - 1) as nat, false);
        }
        if !white && bound > -infinity() {
            lemma_alphabeta_window(child, -infinity(), bound, (d - 1) as nat, true);
        }
    }
}

/// The move the AlphaBeta bot picks has the best full two-player value among all the moves
/// for the side to move: the highest for White, the lowest for Black. No condition on
/// repetitions is needed, as neither search looks for them.
pub proof fn lemma_alphabeta_picks_best_value(s: BoardState, d: nat)
    requires searchable(s, d), d > 0, spec_moves(s).len() > 0,
    ensures
        forall|i: int| 0 <= i < spec_moves(s).len() ==> (
            if s.color == Color::White {
                #[trigger] ab_move_value(s, d, i) <= ab_move_value(s, d, root_search(s, d, spec_moves(s).len()).0)
            } else {
                ab_move_value(s, d, i) >= ab_move_value(s, d, root_search(s, d, spec_moves(s).len()).0)
            }),
{
    lemma_sorted_moves(s);
    let n = spec_moves(s).len();
    lemma_root_values(s, d, n);
    assert forall|i: int| 0 <= i < n implies (
        if s.color == Color::White {
            #[trigger] ab_move_value(s, d, i) <= ab_move_value(s, d, root_search(s, d, n).0)
        } else {
            ab_move_value(s, d, i) >= ab_move_value(s, d, root_search(s, d, n).0)
        }) by {
        lemma_root_best_bounds(s, d, i, n);
    }
}

/// Two boards with the same position have the same full two-player value.
pub proof fn lemma_fullab_same_position(a: BoardState, b: BoardState, d: nat, maxim: bool)
    requires same_position(a, b),
    ensures fullab(a, d, maxim) == fullab(b, d, maxim),
    decreases d, 1nat, 0nat,
{
    lemma_same_position_rules(a, b);
    if d > 0 && spec_moves(a).len() > 0 {
        lemma_fullab_over_same_position(a, b, d, maxim, moves_sorted_for(a, maxim).len());
    }
}

proof fn lemma_fullab_over_same_position(a: BoardState, b: BoardState, d: nat, maxim: bool, n: nat)
    requires same_position(a, b), d > 0,
    ensures fullab_over(a, d, maxim, n) == fullab_over(b, d, maxim, n),
    decreases d, 0nat, n,
{
    lemma_same_position_rules(a, b);
    if n > 0 && n <= moves_sorted_for(a, maxim).len() {
        lemma_fullab_over_same_position(a, b, d, maxim, (n - 1) as nat);
        let m = moves_sorted_for(a, maxim)[n - 1];
        assert(same_position(board_before(a, n - 1), board_before(b, n - 1)));
        lemma_same_position_move(board_before(a, n - 1), board_before(b, n - 1), m);
        lemma_fullab_same_position(ab_child(a, maxim, n - 1), ab_child(b, maxim, n - 1), (d - 1) as nat, !maxim);
    }
}

/// The move the AlphaBeta bot picks is one of the moves of `s`, and no move of `s` leads to
/// a board of better full two-player value for the side to move (searched one move less
/// deep, the other side to move): none higher for White, none lower for Black. Repetitions
/// play no part, as the search does not look for them.
pub proof fn lemma_alphabeta_picks_a_best_move(s: BoardState, d: nat)
    requires searchable(s, d), d > 0, spec_moves(s).len() > 0,
    ensures ({
        let m = sorted_moves(s)[root_search(s, d, spec_moves(s).len()).0];
        let white = s.color == Color::White;
        &&& spec_moves(s).contains(m)
        &&& forall|m2: Move| #[trigger] spec_moves(s).contains(m2) ==> {
            let v2 = fullab(spec_move_piece(s, m2), (d - 1) as nat, !white);
            let v = fullab(spec_move_piece(s, m), (d - 1) as nat, !white);
            if white { v2 <= v } else { v2 >= v }
        }
    }),
{
    let n = spec_moves(s).len();
    let white = s.color == Color::White;
    lemma_sorted_moves(s);
    lemma_root_search(s, d, n);
    lemma_alphabeta_picks_best_value(s, d);
    let k = root_search(s, d, n).0;
    let m = sorted_moves(s)[k];
    assert(same_position(board_before(s, k), s));
    lemma_same_position_move(board_before(s, k), s, m);
    lemma_fullab_same_position(spec_move_piece(board_before(s, k), m), spec_move_piece(s, m), (d - 1) as nat, !white);
    assert forall|m2: Move| #[trigger] spec_moves(s).contains(m2) implies {
        let v2 = fullab(spec_move_piece(s, m2), (d - 1) as nat, !white);
        let v = fullab(spec_move_piece(s, m), (d - 1) as nat, !white);
        if white { v2 <= v } else { v2 >= v }
    } by {
        let a = sorted_moves(s);
        let b = spec_moves(s);
        lemma_sort_by_heuristic(b, s.color);
        a.to_multiset_ensures();
        b.to_multiset_ensures();
        assert(b.to_multiset().count(m2) > 0);
        assert(a.to_multiset().count(m2) > 0);
        assert(a.contains(m2));
        let i = choose|i: int| 0 <= i < a.len() && a[i] == m2;
        assert(same_position(board_before(s, i), s));
        lemma_same_position_move(board_before(s, i), s, m2);
        lemma_fullab_same_position(spec_move_piece(board_before(s, i), m2), spec_move_piece(s, m2), (d - 1) as nat, !white);
        assert(ab_move_value(s, d, i) == fullab(spec_move_piece(s, m2), (d - 1) as nat, !white));
    }
}

impl AlphaBeta {
    pub fn set_depth(&mut self, depth: usize)
        ensures final(self)@ == depth,
    {
        self.depth = depth;
    }

    /// The pruned value of `b` for the maximizing side, window (alpha, beta).
    fn maximize_alpha(&mut self, b: &mut Board, alpha: Score, beta: Score, depth: usize) -> (r: Score)
        requires
            searchable(old(b)@, depth as nat),
            -infinity() <= alpha <= infinity(), -infinity() <= beta <= infinity(),
        ensures
            r == alphabeta(old(b)@, alpha as int, beta as int, depth as nat, true),
            final(b)@ == old(b)@ || final(b)@ == with_hash(old(b)@, old(b)@.hashes[old(b)@.counter as int]),
            final(self)@ == old(self)@,
        decreases depth, 1nat,
    {
        self.search_node(b, alpha, beta, depth, true)
    }

    /// The pruned value of `b` for the minimizing side, window (alpha, beta).
    fn minimize_beta(&mut self, b: &mut Board, alpha: Score, beta: Score, depth: usize) -> (r: Score)
        requires
            searchable(old(b)@, depth as nat),
            -infinity() <= alpha <= infinity(), -infinity() <= beta <= infinity(),
        ensures
            r == alphabeta(old(b)@, alpha as int, beta as int, depth as nat, false),
            final(b)@ == old(b)@ || final(b)@ == with_hash(old(b)@, old(b)@.hashes[old(b)@.counter as int]),
            final(self)@ == old(self)@,
        decreases depth, 1nat,
    {
        self.search_node(b, alpha, beta, depth, false)
    }

    /// The body shared by `maximize_alpha` and `minimize_beta`.
    #[verifier::spinoff_prover]
    fn search_node(&mut self, b: &mut Board, old_alpha: Score, old_beta: Score, depth: usize, maxim: bool) -> (r: Score)
        requires
            searchable(old(b)@, depth as nat),
            -infinity() <= old_alpha <= infinity(), -infinity() <= old_beta <= infinity(),
        ensures
            r == alphabeta(old(b)@, old_alpha as int, old_beta as int, depth as nat, maxim),
            final(b)@ == old(b)@ || final(b)@ == with_hash(old(b)@, old(b)@.hashes[old(b)@.counter as int]),
            final(self)@ == old(self)@,
        decreases depth, 0nat,
    {
        if depth == 0 {
            return b.heuristic_value();
        }
        let ghost s = b@;
        let mut ms = b.moves();
        if ms.len() == 0 {
            return b.end_score();
        }
        ms.sort_by_heuristic(if maxim { Color::White } else { Color::Black });
        proof { lemma_sorted_for(s, if maxim { Color::White } else { Color::Black }); }
        let mut alpha = old_alpha;
        let mut beta = old_beta;
        let mut value: Score = if maxim { -INFINITY } else { INFINITY };
        let mut i: usize = 0;
        while i < ms.len()
            invariant
                searchable(s, depth as nat), depth > 0, spec_moves(s).len() > 0,
                ms.0@ == moves_sorted_for(s, maxim), ms.0@.len() == spec_moves(s).len(),
                forall|k: int| 0 <= k < ms.0@.len() ==> spec_moves(s).contains(#[trigger] ms.0@[k]),
                i <= ms.0@.len(), b@ == board_before(s, i as int),
                -infinity() <= alpha <= infinity(), -infinity() <= beta <= infinity(), -infinity() <= value <= infinity(),
                self@ == old(self)@, old(b)@ == s,
                alphabeta(s, old_alpha as int, old_beta as int, depth as nat, maxim)
                    == alphabeta_from(s, alpha as int, beta as int, depth as nat, maxim, i as nat, value as int),
            decreases ms.0@.len() - i,
        {
            let m = ms.0[i];
            let ghost alpha_before = alpha;
            let ghost beta_before = beta;
            let ghost value_before = value;
            proof {
                lemma_step_move(s, depth as nat, i as int, m);
                lemma_alphabeta_bounds(spec_move_piece(board_before(s, i as int), m), alpha as int, beta as int, (depth - 1) as nat, !maxim);
            }
            b.move_piece(&m);
            let w = if maxim {
                self.minimize_beta(b, alpha, beta, depth - 1)
            } else {
                self.maximize_alpha(b, alpha, beta, depth - 1)
            };
            proof { lemma_back_move(s, depth as nat, i as int, m, b@, spec_go_back(b@)); }
            b.go_back();
            let stop;
            if maxim {
                if w > value {
                    value = w;
                }
                if value > alpha {
                    alpha = value;
                }
                stop = value >= beta;
            } else {
                if w < value {
                    value = w;
                }
                if value < beta {
                    beta = value;
                }
                stop = value <= alpha;
            }
            proof {
                assert(alphabeta_from(s, alpha_before as int, beta_before as int, depth as nat, maxim, i as nat, value_before as int)
                    == if stop { value as int } else {
                        alphabeta_from(s, alpha as int, beta as int, depth as nat, maxim, i as nat + 1, value as int)
                    });
            }
            if stop {
                return value;
            }
            i += 1;
        }
        value
    }
}

impl AI for AlphaBeta {
    open spec fn can_search(&self, s: BoardState) -> bool {
        &&& self@ >= 1
        &&& searchable(s, self@ as nat)
        &&& spec_moves(s).len() > 0
    }

    /// The move `search` takes, at the bot's depth; the bot is left as it was.
    open spec fn picks(&self, s: BoardState, m: Move, after: Self) -> bool {
        &&& m == sorted_moves(s)[root_search(s, self@ as nat, spec_moves(s).len()).0]
        &&& after@ == self@
    }

    fn new() -> (r: Self)
        ensures r@ == INITIAL_DEPTH,
    {
        AlphaBeta { depth: INITIAL_DEPTH }
    }

    /// Sorts the moves best first for the side to move and searches them in turn with the
    /// window bounded by the best value found so far; picks the first best move.
    #[verifier::spinoff_prover]
    fn search(&mut self, b: Board) -> (m: Move)
        ensures m == sorted_moves(b@)[root_search(b@, old(self)@ as nat, spec_moves(b@).len()).0],
    {
        let ghost b_entry = b;
        let mut b = b;
        let ghost s = b@;
        let mut ms = b.moves();
        let white = b.color_to_move() == Color::White;
        ms.sort_by_heuristic(b.color_to_move());
        proof { lemma_sorted_moves(s); }
        let mut bound: Score = if white { -INFINITY } else { INFINITY };
        let mut best: usize = 0;
        let mut best_value: Score = 0;
        let mut i: usize = 0;
        while i < ms.len()
            invariant
                self.depth >= 1, searchable(s, self.depth as nat), spec_moves(s).len() > 0,
                self@ == old(self)@, s == b_entry@, white == (s.color == Color::White),
                ms.0@ == sorted_moves(s), ms.0@.len() == spec_moves(s).len(),
                forall|k: int| 0 <= k < ms.0@.len() ==> spec_moves(s).contains(#[trigger] ms.0@[k]),
                i <= ms.0@.len(), b@ == board_before(s, i as int),
                (best as int, best_value as int, bound as int) == root_search(s, self.depth as nat, i as nat),
            decreases ms.0@.len() - i,
        {
            let m = ms.0[i];
            proof {
                lemma_root_search(s, self.depth as nat, i as nat);
                lemma_step_move(s, self.depth as nat, i as int, m);
                lemma_alphabeta_bounds(spec_move_piece(board_before(s, i as int), m), bound as int, infinity(), (self.depth - 1) as nat, false);
                lemma_alphabeta_bounds(spec_move_piece(board_before(s, i as int), m), -infinity(), bound as int, (self.depth - 1) as nat, true);
            }
            b.move_piece(&m);
            let value = if white {
                self.minimize_beta(&mut b, bound, INFINITY, self.depth - 1)
            } else {
                self.maximize_alpha(&mut b, -INFINITY, bound, self.depth - 1)
            };
            proof { lemma_back_move(s, self.depth as nat, i as int, m, b@, spec_go_back(b@)); }
            b.go_back();
            if white {
                if value > bound {
                    bound = value;
                }
            } else {
                if value < bound {
                    bound = value;
                }
            }
            if i == 0 || (white && value > best_value) || (!white && value < best_value) {
                best = i;
                best_value = value;
            }
            i += 1;
        }
        proof {
            lemma_root_search(s, self.depth as nat, ms.0@.len());
        }
        ms.0[best]
    }
}

} // verus!
