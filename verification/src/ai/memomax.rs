use vstd::prelude::*;
use std::collections::HashMap;
use crate::backend::board::{Board, Move, Score, INFINITY, BoardState, with_hash, spec_go_back, spec_move_piece};
use crate::backend::piece::Color;
use crate::backend::rules::{spec_moves, spec_end_score};
use crate::backend::search::{searchable, board_before, lemma_step, lemma_back, infinity};
use super::interface::AI;

verus! {

broadcast use vstd::std_specs::hash::group_hash_axioms;

/// The search depth.
pub const DEPTH: usize = 5;

/// A value found for a position, and the depth it was searched to.
pub struct Memory {
    pub value: Score,
    pub depth: usize,
}

/// Minimax with memoisation: the value of a position searched before (by its hash) at
/// least as deep is reused.
pub struct MemoMax {
    memo: HashMap<i64, Memory>,
}

impl View for MemoMax {
    /// The remembered values by hash.
    type V = Map<i64, (Score, usize)>;

    closed spec fn view(&self) -> Map<i64, (Score, usize)> {
        self.memo@.map_values(|m: Memory| (m.value, m.depth))
    }
}

/// Every remembered value lies within plus and minus infinity.
pub open spec fn memo_in_range(memo: Map<i64, (Score, usize)>) -> bool {
    forall|k: i64| memo.dom().contains(k) ==> -infinity() <= (#[trigger] memo[k]).0 <= infinity()
}

/// What the memo search gives for `s` searched `depth` moves deep, the side to move
/// maximizing when `maxim` holds, starting from the memo `memo`: the value, and the memo
/// afterwards. The evaluation at depth 0; the end score without moves; the value
/// remembered for the hash of `s` when it was searched at least as deep; otherwise the
/// best value among the moves in the order generated, each searched with the memo as the
/// moves before it left it, and that value is then remembered with the depth under the
/// hash of the board the search is back on.
pub open spec fn memo_search(s: BoardState, depth: nat, maxim: bool, memo: Map<i64, (Score, usize)>)
    -> (int, Map<i64, (Score, usize)>)
    decreases depth, 1nat, 0nat,
{
    let h = s.zobrist.hash;
    if depth == 0 {
        (s.scores[s.counter as int] as int, memo)
    } else if spec_moves(s).len() == 0 {
        (spec_end_score(s), memo)
    } else if memo.contains_key(h) && memo[h].1 >= depth {
        (memo[h].0 as int, memo)
    } else {
        let r = memo_search_over(s, depth, maxim, memo, spec_moves(s).len());
        (r.0, r.1.insert(s.hashes[s.counter as int], (r.0 as Score, depth as usize)))
    }
}

/// The best value among the first `n` moves of `s` (starting from minus infinity when
/// maximizing, infinity otherwise), and the memo after searching them.
pub open spec fn memo_search_over(s: BoardState, depth: nat, maxim: bool, memo: Map<i64, (Score, usize)>, n: nat)
    -> (int, Map<i64, (Score, usize)>)
    decreases depth, 0nat, n,
{
    if depth == 0 {
        (0, memo)
    } else if n == 0 {
        (if maxim { -infinity() } else { infinity() }, memo)
    } else {
        let prev = memo_search_over(s, depth, maxim, memo, (n - 1) as nat);
        let child = spec_move_piece(board_before(s, n - 1), spec_moves(s)[n - 1]);
        let c = memo_search(child, (depth - 1) as nat, !maxim, prev.1);
        let v = if maxim {
            if c.0 > prev.0 { c.0 } else { prev.0 }
        } else {
            if c.0 < prev.0 { c.0 } else { prev.0 }
        };
        (v, c.1)
    }
}

/// The choice among the first `n` moves of `s`: the index of the first best move (highest
/// value for White, lowest for Black), its value, and the memo afterwards; each move is
/// searched `depth - 1` deeper with the opponent to move, with the memo as the moves
/// before it left it.
pub open spec fn memo_choice(s: BoardState, depth: nat, memo: Map<i64, (Score, usize)>, n: nat)
    -> (int, int, Map<i64, (Score, usize)>)
    decreases n,
{
    if n == 0 {
        (0, 0, memo)
    } else {
        let p = memo_choice(s, depth, memo, (n - 1) as nat);
        let white = s.color == Color::White;
        let child = spec_move_piece(board_before(s, n - 1), spec_moves(s)[n - 1]);
        let c = memo_search(child, (depth - 1) as nat, !white, p.2);
        if n == 1 || (white && c.0 > p.1) || (!white && c.0 < p.1) {
            ((n - 1) as int, c.0, c.1)
        } else {
            (p.0, p.1, c.1)
        }
    }
}

proof fn lemma_memo_choice_range(s: BoardState, depth: nat, memo: Map<i64, (Score, usize)>, n: nat)
    requires n >= 1,
    ensures 0 <= memo_choice(s, depth, memo, n).0 < n,
    decreases n,
{
    if n > 1 {
        lemma_memo_choice_range(s, depth, memo, (n - 1) as nat);
    }
}

impl MemoMax {

    /// The memo holds finitely many values.
    pub proof fn lemma_finite(&self)
        ensures self@.dom().finite(),
    {
        assert(self@.dom() =~= self.memo@.dom());
    }
    /// The value of `b` for the side maximizing (when `maxim`) or minimizing, and the memo
    /// it leaves, as `memo_search` gives them.
    fn search_node(&mut self, b: &mut Board, depth: usize, maxim: bool) -> (r: Score)
        requires searchable(old(b)@, depth as nat), memo_in_range(old(self)@),
        ensures
            r == memo_search(old(b)@, depth as nat, maxim, old(self)@).0,
            final(self)@ == memo_search(old(b)@, depth as nat, maxim, old(self)@).1,
            -infinity() <= r <= infinity(),
            memo_in_range(final(self)@),
            final(b)@ == old(b)@ || final(b)@ == with_hash(old(b)@, old(b)@.hashes[old(b)@.counter as int]),
        decreases depth,
    {
        if depth == 0 {
            return b.heuristic_value();
        }
        let ghost s = b@;
        let ms = b.moves();
        if ms.len() == 0 {
            return b.end_score();
        }
        let h = b.hash();
        match self.memo.get(&h) {
            Some(m) => {
                assert(self@.dom().contains(h) && self@[h] == (m.value, m.depth));
                if m.depth >= depth {
                    return m.value;
                }
            },
            None => {
                assert(!self@.dom().contains(h));
            },
        }
        let ghost memo0 = self@;
        let mut ret: Score = if maxim { -INFINITY } else { INFINITY };
        let mut i: usize = 0;
        while i < ms.len()
            invariant
                searchable(s, depth as nat), depth > 0, ms.0@ == spec_moves(s), ms.0@.len() > 0,
                i <= ms.0@.len(), b@ == board_before(s, i as int),
                -infinity() <= ret <= infinity(), memo_in_range(self@),
                ret as int == memo_search_over(s, depth as nat, maxim, memo0, i as nat).0,
                self@ == memo_search_over(s, depth as nat, maxim, memo0, i as nat).1,
            decreases ms.0@.len() - i,
        {
            let m = ms.0[i];
            proof { lemma_step(s, depth as nat, i as int); }
            b.move_piece(&m);
            let v = self.search_node(b, depth - 1, !maxim);
            proof { lemma_back(s, depth as nat, i as int, b@, spec_go_back(b@)); }
            b.go_back();
            if maxim {
                if v > ret {
                    ret = v;
                }
            } else {
                if v < ret {
                    ret = v;
                }
            }
            i += 1;
        }
        let h = b.hash();
        let ghost before = self@;
        self.memo.insert(h, Memory { value: ret, depth });
        proof {
            assert(self@ =~= before.insert(h, (ret, depth)));
        }
        ret
    }
}

impl AI for MemoMax {
    open spec fn can_search(&self, s: BoardState) -> bool {
        &&& searchable(s, DEPTH as nat)
        &&& spec_moves(s).len() > 0
        &&& memo_in_range(self@)
    }

    /// The move `search` takes, and the memo it leaves: with one move, that move and the memo
    /// as it was; otherwise as `memo_choice` gives them.
    open spec fn picks(&self, s: BoardState, m: Move, after: Self) -> bool {
        if spec_moves(s).len() == 1 {
            m == spec_moves(s)[0] && after@ == self@
        } else {
            let c = memo_choice(s, DEPTH as nat, self@, spec_moves(s).len());
            &&& m == spec_moves(s)[c.0]
            &&& after@ == c.2
        }
    }

    fn new() -> (r: Self)
        ensures r@ == Map::<i64, (Score, usize)>::empty(),
    {
        let r = MemoMax { memo: HashMap::new() };
        assert(r@ =~= Map::<i64, (Score, usize)>::empty());
        r
    }

    /// With one move, that move; otherwise every move is searched and the first best
    /// taken: highest value for White, lowest for Black.
    fn search(&mut self, b: Board) -> (m: Move)
        ensures
            memo_in_range(final(self)@),
            spec_moves(b@).len() == 1 ==> m == spec_moves(b@)[0] && final(self)@ == old(self)@,
            spec_moves(b@).len() != 1 ==> {
                let c = memo_choice(b@, DEPTH as nat, old(self)@, spec_moves(b@).len());
                &&& m == spec_moves(b@)[c.0]
                &&& final(self)@ == c.2
            },
    {
        let ghost b_entry = b;
        let mut b = b;
        let ghost s = b@;
        let ms = b.moves();
        if ms.len() == 1 {
            proof { assert(spec_moves(s).contains(ms.0@[0])); }
            return ms.0[0];
        }
        let white = b.color_to_move() == Color::White;
        let ghost memo0 = self@;
        let mut best: usize = 0;
        let mut best_value: Score = 0;
        let mut i: usize = 0;
        while i < ms.len()
            invariant
                searchable(s, DEPTH as nat), s == b_entry@, ms.0@ == spec_moves(s), ms.0@.len() > 0,
                i <= ms.0@.len(), b@ == board_before(s, i as int), best < ms.0@.len(),
                memo_in_range(self@), white == (s.color == Color::White),
                best as int == memo_choice(s, DEPTH as nat, memo0, i as nat).0,
                best_value as int == memo_choice(s, DEPTH as nat, memo0, i as nat).1,
                self@ == memo_choice(s, DEPTH as nat, memo0, i as nat).2,
            decreases ms.0@.len() - i,
        {
            let m = ms.0[i];
            proof { lemma_step(s, DEPTH as nat, i as int); }
            b.move_piece(&m);
            let v = self.search_node(&mut b, DEPTH - 1, !white);
            proof { lemma_back(s, DEPTH as nat, i as int, b@, spec_go_back(b@)); }
            b.go_back();
            if i == 0 || (white && v > best_value) || (!white && v < best_value) {
                best = i;
                best_value = v;
            }
            i += 1;
        }
        proof {
            lemma_memo_choice_range(s, DEPTH as nat, memo0, ms.0@.len());
            assert(spec_moves(s).contains(ms.0@[best as int]));
        }
        ms.0[best]
    }
}

} // verus!
