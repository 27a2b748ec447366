use vstd::prelude::*;
use std::collections::HashMap;
use crate::backend::board::{Board, Move, Score, INFINITY, BoardState, with_hash, spec_go_back, spec_move_piece,
    spec_draw_by_repetition, spec_symmetric_heuristic};
use crate::backend::rules::{spec_moves, spec_end_score};
use crate::backend::search::{searchable, board_before, lemma_step, lemma_back, infinity};
use super::interface::AI;

verus! {

broadcast use vstd::std_specs::hash::group_hash_axioms;

pub const INITIAL_DEPTH: usize = 5;

/// A value found for a position, and the depth it was searched to.
pub struct Memory {
    pub value: Score,
    pub depth: usize,
}

/// Negamax with memoisation: the value of a position searched before (by its hash) at
/// least as deep is reused.
pub struct NegaMemoMax {
    memo: HashMap<i64, Memory>,
    depth: usize,
}

impl View for NegaMemoMax {
    /// The remembered values by hash.
    type V = Map<i64, (Score, usize)>;

    closed spec fn view(&self) -> Map<i64, (Score, usize)> {
        self.memo@.map_values(|m: Memory| (m.value, m.depth))
    }
}

impl NegaMemoMax {

    /// The memo holds finitely many values.
    pub proof fn lemma_finite(&self)
        ensures self@.dom().finite(),
    {
        assert(self@.dom() =~= self.memo@.dom());
    }
    /// The depth the bot searches to.
    pub closed spec fn search_depth(&self) -> usize {
        self.depth
    }
}

/// Every remembered value lies within plus and minus infinity.
pub open spec fn memo_in_range(memo: Map<i64, (Score, usize)>) -> bool {
    forall|k: i64| memo.dom().contains(k) ==> -infinity() <= (#[trigger] memo[k]).0 <= infinity()
}

/// What the memo search gives for `s` searched `depth` moves deep, from the side to
/// move's point of view, starting from the memo `memo`: the value, and the memo afterwards.
/// 0 for a draw by repetition; its evaluation for the side to move at depth 0; the value
/// remembered for the hash of `s` when it was searched at least as deep; the end score
/// (from White's point of view) without moves; otherwise the best among the negated values
/// of the moves in the order generated, each searched with the memo as the moves before it
/// left it, and that value is then remembered with the depth under the hash of the board
/// the search is back on.
pub open spec fn nega_memo_search(s: BoardState, depth: nat, memo: Map<i64, (Score, usize)>)
    -> (int, Map<i64, (Score, usize)>)
    decreases depth, 1nat, 0nat,
{
    let h = s.zobrist.hash;
    if spec_draw_by_repetition(s) {
        (0, memo)
    } else if depth == 0 {
        (spec_symmetric_heuristic(s), memo)
    } else if memo.contains_key(h) && memo[h].1 >= depth {
        (memo[h].0 as int, memo)
    } else if spec_moves(s).len() == 0 {
        (spec_end_score(s), memo)
    } else {
        let r = nega_memo_search_over(s, depth, memo, spec_moves(s).len());
        (r.0, r.1.insert(s.hashes[s.counter as int], (r.0 as Score, depth as usize)))
    }
}

/// The best negated value among the first `n` moves of `s` (starting from minus infinity),
/// and the memo after searching them.
pub open spec fn nega_memo_search_over(s: BoardState, depth: nat, memo: Map<i64, (Score, usize)>, n: nat)
    -> (int, Map<i64, (Score, usize)>)
    decreases depth, 0nat, n,
{
    if depth == 0 {
        (0, memo)
    } else if n == 0 {
        (-infinity(), memo)
    } else {
        let prev = nega_memo_search_over(s, depth, memo, (n - 1) as nat);
        let child = spec_move_piece(board_before(s, n - 1), spec_moves(s)[n - 1]);
        let c = nega_memo_search(child, (depth - 1) as nat, prev.1);
        let v = -c.0;
        (if v > prev.0 { v } else { prev.0 }, c.1)
    }
}

/// The choice among the first `n` moves of `s`: the index of the first move with the
/// highest negated value, that value, and the memo afterwards; each move is searched
/// `depth - 1` deeper, with the memo as the moves before it left it.
pub open spec fn nega_memo_choice(s: BoardState, depth: nat, memo: Map<i64, (Score, usize)>, n: nat)
    -> (int, int, Map<i64, (Score, usize)>)
    decreases n,
{
    if n == 0 {
        (0, -infinity(), memo)
    } else {
        let p = nega_memo_choice(s, depth, memo, (n - 1) as nat);
        let child = spec_move_piece(board_before(s, n - 1), spec_moves(s)[n - 1]);
        let c = nega_memo_search(child, (depth - 1) as nat, p.2);
        let v = -c.0;
        if v > p.1 {
            ((n - 1) as int, v, c.1)
        } else {
            (p.0, p.1, c.1)
        }
    }
}

proof fn lemma_nega_memo_choice_range(s: BoardState, depth: nat, memo: Map<i64, (Score, usize)>, n: nat)
    requires n >= 1,
    ensures 0 <= nega_memo_choice(s, depth, memo, n).0 < n,
    decreases n,
{
    if n > 1 {
        lemma_nega_memo_choice_range(s, depth, memo, (n - 1) as nat);
    } else {
        assert(nega_memo_choice(s, depth, memo, 0).0 == 0);
    }
}

impl NegaMemoMax {
    /// The value of `b` for the side to move, and the memo it leaves, as `nega_memo_search`
    /// gives them.
    fn memomax(&mut self, b: &mut Board, depth: usize) -> (r: Score)
        requires searchable(old(b)@, depth as nat), memo_in_range(old(self)@),
        ensures
            r == nega_memo_search(old(b)@, depth as nat, old(self)@).0,
            final(self)@ == nega_memo_search(old(b)@, depth as nat, old(self)@).1,
            -infinity() <= r <= infinity(),
            memo_in_range(final(self)@), final(self).depth == old(self).depth,
            final(b)@ == old(b)@ || final(b)@ == with_hash(old(b)@, old(b)@.hashes[old(b)@.counter as int]),
        decreases depth,
    {
        if b.is_draw_by_repetition() {
            return 0;
        }
        if depth == 0 {
            return b.symmetric_heuristic_value();
        }
        let h = b.hash();
        match self.memo.get(&h) {
            Some(m) => {
                assert(self@.dom().contains(h) && self@[h] == (m.value, m.depth));
                if m.depth >= depth {
                    return m.value;
                }
            },
            None => {
                assert(!self@.dom().contains(h));
            },
        }
        let ghost s = b@;
        let ms = b.moves();
        if ms.len() == 0 {
            return b.end_score();
        }
        let ghost memo0 = self@;
        let mut ret: Score = -INFINITY;
        let mut i: usize = 0;
        while i < ms.len()
            invariant
                searchable(s, depth as nat), depth > 0, ms.0@ == spec_moves(s), ms.0@.len() > 0,
                !spec_draw_by_repetition(s),
                i <= ms.0@.len(), b@ == board_before(s, i as int),
                -infinity() <= ret <= infinity(), memo_in_range(self@), self.depth == old(self).depth,
                ret as int == nega_memo_search_over(s, depth as nat, memo0, i as nat).0,
                self@ == nega_memo_search_over(s, depth as nat, memo0, i as nat).1,
            decreases ms.0@.len() - i,
        {
            let m = ms.0[i];
            proof { lemma_step(s, depth as nat, i as int); }
            b.move_piece(&m);
            let v = -self.memomax(b, depth - 1);
            proof { lemma_back(s, depth as nat, i as int, b@, spec_go_back(b@)); }
            b.go_back();
            if v > ret {
                ret = v;
            }
            i += 1;
        }
        let h = b.hash();
        let ghost before = self@;
        self.memo.insert(h, Memory { value: ret, depth });
        proof {
            assert(self@ =~= before.insert(h, (ret, depth)));
        }
        ret
    }
}

impl AI for NegaMemoMax {
    closed spec fn can_search(&self, s: BoardState) -> bool {
        &&& self.depth >= 1
        &&& searchable(s, self.depth as nat)
        &&& spec_moves(s).len() > 0
        &&& memo_in_range(self@)
    }

    /// The move `search` takes, and the memo it leaves, as `nega_memo_choice` gives them at
    /// the bot's depth; the depth is kept.
    open spec fn picks(&self, s: BoardState, m: Move, after: Self) -> bool {
        let c = nega_memo_choice(s, self.search_depth() as nat, self@, spec_moves(s).len());
        &&& m == spec_moves(s)[c.0]
        &&& after@ == c.2
        &&& after.search_depth() == self.search_depth()
    }

    fn new() -> (r: Self)
        ensures r@ == Map::<i64, (Score, usize)>::empty(),
    {
        let r = NegaMemoMax { memo: HashMap::new(), depth: INITIAL_DEPTH };
        assert(r@ =~= Map::<i64, (Score, usize)>::empty());
        r
    }

    /// Every move is searched and the first with the highest negated value taken.
    fn search(&mut self, b: Board) -> (m: Move)
        ensures
            memo_in_range(final(self)@),
            ({
                let c = nega_memo_choice(b@, old(self).search_depth() as nat, old(self)@, spec_moves(b@).len());
                &&& m == spec_moves(b@)[c.0]
                &&& final(self)@ == c.2
            }),
    {
        let ghost b_entry = b;
        let mut b = b;
        let ghost s = b@;
        let ms = b.moves();
        let ghost memo0 = self@;
        let mut best: usize = 0;
        let mut best_value: Score = -INFINITY;
        let mut i: usize = 0;
        while i < ms.len()
            invariant
                self.depth >= 1, searchable(s, self.depth as nat), s == b_entry@, ms.0@ == spec_moves(s), ms.0@.len() > 0,
                i <= ms.0@.len(), b@ == board_before(s, i as int), best < ms.0@.len(),
                memo_in_range(self@), -infinity() <= best_value <= infinity(), self.depth == old(self).depth,
                best as int == nega_memo_choice(s, self.depth as nat, memo0, i as nat).0,
                best_value as int == nega_memo_choice(s, self.depth as nat, memo0, i as nat).1,
                self@ == nega_memo_choice(s, self.depth as nat, memo0, i as nat).2,
            decreases ms.0@.len() - i,
        {
            let m = ms.0[i];
            proof { lemma_step(s, self.depth as nat, i as int); }
            b.move_piece(&m);
            let ghost child = b@;
            let r = self.memomax(&mut b, self.depth - 1);
            let v = -r;
            proof {
                lemma_back(s, self.depth as nat, i as int, b@, spec_go_back(b@));
                let p = nega_memo_choice(s, self.depth as nat, memo0, i as nat);
                assert(child == spec_move_piece(board_before(s, i as int), spec_moves(s)[i as int]));
                assert(nega_memo_choice(s, self.depth as nat, memo0, (i + 1) as nat) == {
                    let c = nega_memo_search(child, (self.depth - 1) as nat, p.2);
                    if -c.0 > p.1 { (i as int, -c.0, c.1) } else { (p.0, p.1, c.1) }
                });
            }
            b.go_back();
            if v > best_value {
                best = i;
                best_value = v;
            }
            i += 1;
        }
        proof {
            lemma_nega_memo_choice_range(s, self.depth as nat, memo0, ms.0@.len());
            assert(spec_moves(s).contains(ms.0@[best as int]));
        }
        ms.0[best]
    }

    fn set_depth(&mut self, depth: usize)
        ensures final(self).search_depth() == depth, final(self)@ == old(self)@,
    {
        self.depth = depth;
    }

    fn get_name(&self) -> (r: &str)
        ensures r@ == "NegaMemoMax"@,
    {
        "NegaMemoMax"
    }
}

} // verus!
