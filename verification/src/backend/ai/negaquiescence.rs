use vstd::prelude::*;
use crate::backend::board::{Board, Move, Score, INFINITY, BoardState, with_hash, spec_move_piece,
    spec_draw_by_repetition, spec_go_back, spec_symmetric_heuristic, spec_symmetric_end_score};
use crate::backend::board_representation::movement::{Moves, spec_sort_by_heuristic, lemma_sort_by_heuristic};
use crate::backend::piece::{Color, spec_opposite};
use crate::backend::rules::{spec_moves, spec_is_threatened_by};
use crate::backend::search::{searchable, board_before, sorted_moves, lemma_sorted_moves,
    lemma_step_move, lemma_back_move, infinity};
use crate::ai::structures::killerray::{Killerray, SIZE};
use super::structures::memomap::{MemoMap, Key, Transposition, TransFlag, fresh_part, memo_read, memo_write};
use super::negaalphakiller::{Tables, entries_in_range, find_same, holds_same, stage_ok,
    find_move, holds, lemma_find_same, lemma_own_hash, pv_walk, walk_memo};
use super::interface::AI;
use crate::backend::positions::{same_position, lemma_same_position_rules};

verus! {

pub const INITIAL_DEPTH: usize = 8;

/// Negamax with alpha-beta pruning, a memo and killer moves, that ends its search one move
/// early with a quiescence estimate: the evaluation for the side to move, or the gain of the
/// best move to a square the opponent does not attack.
pub struct NegaQuiescence {
    memo: MemoMap,
    depth: usize,
    killerray: Killerray<Move>,
}

impl View for NegaQuiescence {
    type V = Tables;

    closed spec fn view(&self) -> Tables {
        (self.memo@, self.killerray@)
    }
}

/// The moves of `ms` to a square that the opponent of the side to move in `s` does not
/// attack, in their order.
pub open spec fn quiet_of(s: BoardState, ms: Seq<Move>) -> Seq<Move>
    decreases ms.len(),
{
    if ms.len() == 0 {
        Seq::empty()
    } else {
        let q = quiet_of(s, ms.drop_last());
        if spec_is_threatened_by(s.grid, ms.last().to, spec_opposite(s.color)) { q } else { q.push(ms.last()) }
    }
}

/// The quiescence estimate of `s` for the side to move, against the bound `beta`: its
/// evaluation when that already reaches `beta`; the end score without moves; the evaluation
/// when no move goes to an unattacked square; otherwise the evaluation after the best of
/// those moves for the side to move.
pub open spec fn quiesce(s: BoardState, beta: int) -> int {
    let stand = spec_symmetric_heuristic(s);
    let q = quiet_of(s, spec_moves(s));
    if stand >= beta {
        stand
    } else if spec_moves(s).len() == 0 {
        spec_symmetric_end_score(s)
    } else if q.len() == 0 {
        stand
    } else {
        let v = s.scores[s.counter as int] + spec_sort_by_heuristic(q, s.color)[0].heuristic_value;
        if s.color == Color::White { v } else { -v }
    }
}

pub(crate) proof fn lemma_quiet_of(s: BoardState, ms: Seq<Move>)
    ensures forall|i: int| 0 <= i < quiet_of(s, ms).len() ==> ms.contains(#[trigger] quiet_of(s, ms)[i]),
    decreases ms.len(),
{
    if ms.len() > 0 {
        lemma_quiet_of(s, ms.drop_last());
        let q = quiet_of(s, ms.drop_last());
        assert forall|i: int| 0 <= i < quiet_of(s, ms).len() implies ms.contains(#[trigger] quiet_of(s, ms)[i]) by {
            if i < q.len() {
                let j = choose|j: int| 0 <= j < ms.drop_last().len() && ms.drop_last()[j] == q[i];
                assert(ms[j] == q[i]);
            } else {
                assert(ms[ms.len() - 1] == ms.last());
            }
        }
    }
}

/// The first of the sorted quiet moves is one of the moves of `s`.
pub(crate) proof fn lemma_quiet_top(s: BoardState, c: Color)
    requires quiet_of(s, spec_moves(s)).len() > 0,
    ensures spec_moves(s).contains(spec_sort_by_heuristic(quiet_of(s, spec_moves(s)), c)[0]),
{
    let q = quiet_of(s, spec_moves(s));
    let sq = spec_sort_by_heuristic(q, c);
    lemma_sort_by_heuristic(q, c);
    lemma_quiet_of(s, spec_moves(s));
    sq.to_multiset_ensures();
    q.to_multiset_ensures();
    assert(sq.len() == q.len());
    assert(sq.contains(sq[0]));
    assert(q.to_multiset().count(sq[0]) > 0);
    assert(q.contains(sq[0]));
}

/// What the search gives for `s` with window (alpha, beta), `depth` moves deep, from the
/// tables `t`: the value, the tables afterwards, and the hash of the board it ends on.
/// 0 for a draw by repetition; the quiescence estimate at depth 1 (or less). Otherwise the
/// memo entry of the hash of `s` is read: searched at least as deep, an exact value is
/// returned, a bound narrows the window, and a window that closes returns the value; searched
/// less deep, its best move, when it is one of the moves of `s`, is searched first: a cutoff
/// stores it as killer and as a lower bound, a better value raises alpha. The killer stage
/// and the sorted moves follow (`quiet_stage`).
pub open spec fn quiet_search(s: BoardState, alpha: int, beta: int, depth: nat, t: Tables) -> (int, Tables, i64)
    decreases depth, 3nat, 0nat,
{
    let h = s.zobrist.hash;
    if spec_draw_by_repetition(s) {
        (0, t, h)
    } else if depth <= 1 {
        (quiesce(s, beta), t, h)
    } else {
        let rd = memo_read(t.0, h);
        let t1 = (rd.1, t.1);
        if rd.0 is Some && rd.0->0.depth >= depth {
            let e = rd.0->0;
            if e.flag == TransFlag::EXACT {
                (e.value as int, t1, h)
            } else {
                let a2 = if e.flag == TransFlag::LOWER_BOUND && e.value > alpha { e.value as int } else { alpha };
                let b2 = if e.flag == TransFlag::UPPER_BOUND && e.value < beta { e.value as int } else { beta };
                if a2 >= b2 {
                    (e.value as int, t1, h)
                } else {
                    quiet_stage(s, a2, b2, depth, None, None, false, 0, t1)
                }
            }
        } else if rd.0 is Some && rd.0->0.best is Some && find_same(spec_moves(s), rd.0->0.best->0, 0) is Some {
            let m = find_same(spec_moves(s), rd.0->0.best->0, 0)->0;
            let c = quiet_search(spec_move_piece(s, m), -beta, -alpha, (depth - 1) as nat, t1);
            let v = -c.0;
            let back = board_before(s, 1).zobrist.hash;
            if v >= beta {
                (v, (memo_write(c.1.0, back, v, TransFlag::LOWER_BOUND, depth, Some(m)),
                    c.1.1.update((s.counter % SIZE) as int, Some(m))), back)
            } else if v > alpha {
                quiet_stage(s, v, beta, depth, Some(m), Some(m), true, 1, c.1)
            } else {
                quiet_stage(s, alpha, beta, depth, Some(m), None, false, 1, c.1)
            }
        } else {
            quiet_stage(s, alpha, beta, depth, None, None, false, 0, t1)
        }
    }
}

/// The killer stage of the search of `s`, after `p` moves were made, `prev` the remembered
/// move searched, `best` the move that raised alpha and `exact` whether one did: the killer
/// move of the depth, when it is one of the moves of `s` and not the remembered move, is
/// searched next; a cutoff stores it as a lower bound, a better value raises alpha. Then the
/// sorted moves (`quiet_moves_stage`).
pub open spec fn quiet_stage(s: BoardState, alpha: int, beta: int, depth: nat, prev: Option<Move>,
    best: Option<Move>, exact: bool, p: int, t: Tables) -> (int, Tables, i64)
    decreases depth, 2nat, 0nat,
{
    let km = t.1[(s.counter % SIZE) as int];
    if depth == 0 {
        (0, t, 0)
    } else if km is Some && find_same(spec_moves(s), km->0, 0) is Some
        && !holds_same(prev, find_same(spec_moves(s), km->0, 0)->0) {
        let m = find_same(spec_moves(s), km->0, 0)->0;
        let c = quiet_search(spec_move_piece(board_before(s, p), m), -beta, -alpha, (depth - 1) as nat, t);
        let v = -c.0;
        let back = board_before(s, p + 1).zobrist.hash;
        if v >= beta {
            (v, (memo_write(c.1.0, back, v, TransFlag::LOWER_BOUND, depth, Some(m)), c.1.1), back)
        } else if v > alpha {
            quiet_moves_stage(s, v, beta, depth, prev, Some(m), Some(m), true, p + 1, 0, c.1)
        } else {
            quiet_moves_stage(s, alpha, beta, depth, prev, Some(m), best, exact, p + 1, 0, c.1)
        }
    } else {
        quiet_moves_stage(s, alpha, beta, depth, prev, None, best, exact, p, 0, t)
    }
}

/// The sorted moves of `s` from the `i`-th on, skipping the remembered and the killer move:
/// the end score (for the side to move) when `s` has no move; a cutoff stores the move as
/// killer and as a lower bound; a better value raises alpha; at the end alpha is stored,
/// exact when a move raised it and an upper bound otherwise.
pub open spec fn quiet_moves_stage(s: BoardState, alpha: int, beta: int, depth: nat, prev: Option<Move>,
    kill: Option<Move>, best: Option<Move>, exact: bool, p: int, i: nat, t: Tables) -> (int, Tables, i64)
    decreases depth, 1nat, sorted_moves(s).len() - i,
{
    let here = board_before(s, p).zobrist.hash;
    if depth == 0 {
        (0, t, 0)
    } else if i >= sorted_moves(s).len() {
        if sorted_moves(s).len() == 0 {
            (spec_symmetric_end_score(s), t, here)
        } else {
            let flag = if exact { TransFlag::EXACT } else { TransFlag::UPPER_BOUND };
            (alpha, (memo_write(t.0, here, alpha, flag, depth, best), t.1), here)
        }
    } else {
        let m = sorted_moves(s)[i as int];
        if holds_same(prev, m) || holds_same(kill, m) {
            quiet_moves_stage(s, alpha, beta, depth, prev, kill, best, exact, p, i + 1, t)
        } else {
            let c = quiet_search(spec_move_piece(board_before(s, p), m), -beta, -alpha, (depth - 1) as nat, t);
            let v = -c.0;
            let back = board_before(s, p + 1).zobrist.hash;
            if v >= beta {
                (v, (memo_write(c.1.0, back, v, TransFlag::LOWER_BOUND, depth, Some(m)),
                    c.1.1.update((s.counter % SIZE) as int, Some(m))), back)
            } else if v > alpha {
                quiet_moves_stage(s, v, beta, depth, prev, kill, Some(m), true, p + 1, i + 1, c.1)
            } else {
                quiet_moves_stage(s, alpha, beta, depth, prev, kill, best, exact, p + 1, i + 1, c.1)
            }
        }
    }
}


/// The move the search picks from `s` with tables `t`, and the tables afterwards: the full
/// window search `depth` moves deep, then a clean of the memo, then the best move of the
/// entry read for the board the search ended on, when it is one of the moves of `s`; the
/// first move of `s` otherwise.
pub open spec fn quiet_pick(s: BoardState, depth: nat, t: Tables) -> (Move, Tables) {
    let k = quiet_search(s, -infinity(), infinity(), depth, t);
    let cleaned = (fresh_part(k.1.0.0, k.1.0.1), !k.1.0.1);
    let rd = memo_read(cleaned, k.2);
    let found = if rd.0 is Some { rd.0->0.best } else { None };
    let pick = if found is Some && find_same(spec_moves(s), found->0, 0) is Some {
        find_same(spec_moves(s), found->0, 0)->0
    } else {
        spec_moves(s)[0]
    };
    (pick, (rd.1, k.1.1))
}

impl NegaQuiescence {
    /// The quiescence estimate of `b` against `beta`, as `quiesce` gives it.
    fn quiesce(&mut self, b: &mut Board, beta: Score) -> (r: Score)
        requires searchable(old(b)@, 1), -infinity() <= beta <= infinity(),
        ensures
            r == quiesce(old(b)@, beta as int),
            final(b)@ == old(b)@,
            final(self)@ == old(self)@,
            final(self).depth == old(self).depth,
            -infinity() <= r <= infinity(),
    {
        let stand_pat = b.symmetric_heuristic_value();
        if stand_pat >= beta {
            return stand_pat;
        }
        let ghost s = b@;
        let ms = b.moves();
        if ms.len() == 0 {
            return b.symmetric_end_score();
        }
        let mut quiet = Moves(Vec::new());
        let mut i: usize = 0;
        while i < ms.0.len()
            invariant
                b@ == s, searchable(s, 1), ms.0@ == spec_moves(s), i <= ms.0@.len(),
                quiet.0@ == quiet_of(s, ms.0@.take(i as int)),
            decreases ms.0@.len() - i,
        {
            let m = ms.0[i];
            proof {
                assert(ms.0@.take(i as int + 1).drop_last() =~= ms.0@.take(i as int));
                assert(ms.0@.take(i as int + 1).last() == m);
                assert(crate::backend::board::move_ok(s, spec_moves(s)[i as int]));
            }
            if !b.is_threatened(&m.to) {
                quiet.0.push(m);
            }
            i += 1;
        }
        proof { assert(ms.0@.take(ms.0@.len() as int) =~= ms.0@); }
        if quiet.len() == 0 {
            return stand_pat;
        }
        let ghost q = quiet.0@;
        quiet.sort_by_heuristic(b.color_to_move());
        proof {
            lemma_quiet_top(s, s.color);
            let top = spec_sort_by_heuristic(q, s.color)[0];
            let j = choose|j: int| 0 <= j < spec_moves(s).len() && spec_moves(s)[j] == top;
            assert(crate::backend::board::move_ok(s, spec_moves(s)[j]));
            let child = spec_move_piece(s, spec_moves(s)[j]);
            assert(searchable(child, 0));
            assert(quiet.0@[0] == top);
            assert(crate::backend::board::wf(s));
            reveal(spec_move_piece);
            assert(child.counter == s.counter + 1);
            assert(child.scores == s.scores.push((s.scores[s.counter as int] + spec_moves(s)[j].heuristic_value) as Score));
            assert(child.scores[child.counter as int] == (s.scores[s.counter as int] + top.heuristic_value) as Score);
            assert(s.scores[s.counter as int] + top.heuristic_value > i32::MIN);
        }
        let v = b.heuristic_value() + quiet.0[0].heuristic_value;
        if b.color_to_move() == Color::White { v } else { -v }
    }

    /// The pruned negamax value of `b` with window (alpha, beta), `depth` moves deep, and the
    /// tables it leaves, as `quiet_search` gives them.
    fn alphabeta(&mut self, b: &mut Board, alpha: Score, beta: Score, depth: usize) -> (r: Score)
        requires
            searchable(old(b)@, depth as nat), depth >= 1,
            -infinity() <= alpha <= infinity(), -infinity() <= beta <= infinity(),
            entries_in_range(old(self)@.0.0),
        ensures
            ({
                let k = quiet_search(old(b)@, alpha as int, beta as int, depth as nat, old(self)@);
                &&& r == k.0
                &&& final(self)@ == k.1
                &&& final(b)@ == with_hash(old(b)@, k.2)
                &&& (k.2 == old(b)@.zobrist.hash || k.2 == old(b)@.hashes[old(b)@.counter as int])
            }),
            -infinity() <= r <= infinity(),
            entries_in_range(final(self)@.0.0),
            final(self).depth == old(self).depth,
        decreases depth, 3nat,
    {
        proof { lemma_own_hash(b@); }
        if b.is_draw_by_repetition() {
            return 0;
        }
        if depth <= 1 {
            return self.quiesce(b, beta);
        }
        let ghost s = b@;
        let ghost t0 = self@;
        let h = b.hash();
        let found: Option<Transposition> = match self.memo.get(&h) {
            Some(t) => Some(*t),
            None => None,
        };
        assert(memo_read(t0.0, h).0 == found && self@ == (memo_read(t0.0, h).1, t0.1));
        let ms = b.moves();
        match found {
            Some(t) => {
                if t.depth >= depth {
                    if t.flag == TransFlag::EXACT {
                        return t.value;
                    }
                    let mut a2 = alpha;
                    let mut b2 = beta;
                    if t.flag == TransFlag::LOWER_BOUND && t.value > alpha {
                        a2 = t.value;
                    }
                    if t.flag == TransFlag::UPPER_BOUND && t.value < beta {
                        b2 = t.value;
                    }
                    if a2 >= b2 {
                        return t.value;
                    }
                    return self.quiet_stage(b, ms, a2, b2, depth, None, None, false, Ghost(s), Ghost(0));
                }
                match t.best {
                    Some(m0) => {
                        match find_move(&ms, &m0) {
                            Some(m) => {
                                proof {
                                    lemma_find_same(spec_moves(s), m0, 0);
                                    lemma_step_move(s, depth as nat, 0, m);
                                }
                                b.move_piece(&m);
                                let v = -self.alphabeta(b, -beta, -alpha, depth - 1);
                                proof { lemma_back_move(s, depth as nat, 0, m, b@, spec_go_back(b@)); }
                                b.go_back();
                                if v >= beta {
                                    self.killerray.put(m, b.counter());
                                    self.memo.insert(b.hash(), v, TransFlag::LOWER_BOUND, depth, Some(m));
                                    return v;
                                }
                                if v > alpha {
                                    return self.quiet_stage(b, ms, v, beta, depth, Some(m), Some(m), true, Ghost(s), Ghost(1));
                                }
                                return self.quiet_stage(b, ms, alpha, beta, depth, Some(m), None, false, Ghost(s), Ghost(1));
                            },
                            None => {},
                        }
                    },
                    None => {},
                }
            },
            None => {},
        }
        self.quiet_stage(b, ms, alpha, beta, depth, None, None, false, Ghost(s), Ghost(0))
    }

    /// The killer stage of the search of `s`, as `quiet_stage` gives it.
    fn quiet_stage(&mut self, b: &mut Board, ms: Moves, alpha: Score, beta: Score, depth: usize,
        prev: Option<Move>, best: Option<Move>, exact: bool, Ghost(s): Ghost<BoardState>, Ghost(p): Ghost<int>) -> (r: Score)
        requires
            stage_ok(s, depth as nat, old(b)@, p), ms.0@ == spec_moves(s), depth >= 2,
            -infinity() <= alpha <= infinity(), -infinity() <= beta <= infinity(),
            entries_in_range(old(self)@.0.0),
        ensures
            ({
                let k = quiet_stage(s, alpha as int, beta as int, depth as nat, prev, best, exact, p, old(self)@);
                &&& r == k.0
                &&& final(self)@ == k.1
                &&& final(b)@ == with_hash(s, k.2)
                &&& (k.2 == s.zobrist.hash || k.2 == s.hashes[s.counter as int])
            }),
            -infinity() <= r <= infinity(),
            entries_in_range(final(self)@.0.0),
            final(self).depth == old(self).depth,
        decreases depth, 2nat,
    {
        let km = *self.killerray.get(b.counter());
        match km {
            Some(m0) => {
                match find_move(&ms, &m0) {
                    Some(m) => if !holds(prev, m) {
                        proof {
                            lemma_find_same(spec_moves(s), m0, 0);
                            lemma_step_move(s, depth as nat, p, m);
                        }
                        b.move_piece(&m);
                        let v = -self.alphabeta(b, -beta, -alpha, depth - 1);
                        proof { lemma_back_move(s, depth as nat, p, m, b@, spec_go_back(b@)); }
                        b.go_back();
                        if v >= beta {
                            self.memo.insert(b.hash(), v, TransFlag::LOWER_BOUND, depth, Some(m));
                            return v;
                        }
                        if v > alpha {
                            return self.search_moves(b, ms, v, beta, depth, prev, Some(m), Some(m), true, Ghost(s), Ghost(p + 1));
                        }
                        return self.search_moves(b, ms, alpha, beta, depth, prev, Some(m), best, exact, Ghost(s), Ghost(p + 1));
                    },
                    None => {},
                }
            },
            None => {},
        }
        self.search_moves(b, ms, alpha, beta, depth, prev, None, best, exact, Ghost(s), Ghost(p))
    }

    /// The sorted moves of `s`, as `quiet_moves_stage` gives them.
    fn search_moves(&mut self, b: &mut Board, ms: Moves, a_in: Score, beta: Score, depth: usize,
        prev: Option<Move>, kill: Option<Move>, best_in: Option<Move>, exact_in: bool,
        Ghost(s): Ghost<BoardState>, Ghost(p_in): Ghost<int>) -> (r: Score)
        requires
            stage_ok(s, depth as nat, old(b)@, p_in), ms.0@ == spec_moves(s), depth >= 2,
            -infinity() <= a_in <= infinity(), -infinity() <= beta <= infinity(),
            entries_in_range(old(self)@.0.0),
        ensures
            ({
                let k = quiet_moves_stage(s, a_in as int, beta as int, depth as nat, prev, kill, best_in, exact_in, p_in, 0, old(self)@);
                &&& r == k.0
                &&& final(self)@ == k.1
                &&& final(b)@ == with_hash(s, k.2)
                &&& (k.2 == s.zobrist.hash || k.2 == s.hashes[s.counter as int])
            }),
            -infinity() <= r <= infinity(),
            entries_in_range(final(self)@.0.0),
            final(self).depth == old(self).depth,
        decreases depth, 1nat,
    {
        proof {
            lemma_sorted_moves(s);
            lemma_own_hash(s);
            assert(same_position(s, b@));
            lemma_same_position_rules(s, b@);
        }
        let mut ms = ms;
        if ms.len() == 0 {
            return b.symmetric_end_score();
        }
        ms.sort_by_heuristic(b.color_to_move());
        let ghost mut p = p_in;
        let mut alpha = a_in;
        let mut best = best_in;
        let mut exact = exact_in;
        let mut i: usize = 0;
        while i < ms.len()
            invariant
                stage_ok(s, depth as nat, b@, p), depth >= 2, ms.0@ == sorted_moves(s), ms.0@.len() == spec_moves(s).len(),
                ms.0@.len() > 0,
                forall|k: int| 0 <= k < ms.0@.len() ==> spec_moves(s).contains(#[trigger] ms.0@[k]),
                i <= ms.0@.len(),
                -infinity() <= alpha <= infinity(), -infinity() <= beta <= infinity(),
                entries_in_range(self@.0.0), self.depth == old(self).depth,
                quiet_moves_stage(s, a_in as int, beta as int, depth as nat, prev, kill, best_in, exact_in, p_in, 0, old(self)@)
                    == quiet_moves_stage(s, alpha as int, beta as int, depth as nat, prev, kill, best, exact, p, i as nat, self@),
            decreases ms.0@.len() - i,
        {
            let m = ms.0[i];
            if holds(prev, m) || holds(kill, m) {
                i += 1;
                continue;
            }
            proof { lemma_step_move(s, depth as nat, p, m); }
            let ghost ti = self@;
            let ghost child = spec_move_piece(board_before(s, p), m);
            b.move_piece(&m);
            let v = -self.alphabeta(b, -beta, -alpha, depth - 1);
            proof { lemma_back_move(s, depth as nat, p, m, b@, spec_go_back(b@)); }
            b.go_back();
            if v >= beta {
                let ghost c = quiet_search(child, -beta as int, -alpha as int, (depth - 1) as nat, ti);
                let ghost back = board_before(s, p + 1).zobrist.hash;
                assert(quiet_moves_stage(s, alpha as int, beta as int, depth as nat, prev, kill, best, exact, p, i as nat, ti)
                    == (v as int, (memo_write(c.1.0, back, v as int, TransFlag::LOWER_BOUND, depth as nat, Some(m)),
                        c.1.1.update((s.counter % SIZE) as int, Some(m))), back));
                self.killerray.put(m, b.counter());
                self.memo.insert(b.hash(), v, TransFlag::LOWER_BOUND, depth, Some(m));
                return v;
            }
            if v > alpha {
                alpha = v;
                exact = true;
                best = Some(m);
            }
            proof { p = p + 1; }
            i += 1;
        }
        let flag = if exact { TransFlag::EXACT } else { TransFlag::UPPER_BOUND };
        self.memo.insert(b.hash(), alpha, flag, depth, best);
        alpha
    }
}

impl NegaQuiescence {
    /// The depth the bot searches to.
    pub closed spec fn search_depth(&self) -> usize {
        self.depth
    }

    /// Searches `b`, then walks the memo's best moves from `b`, at most as many as the
    /// search depth.
    pub fn principal_variation(&mut self, b: Board) -> (r: Moves)
        requires old(self).can_search(b@),
        ensures ({
            let k = quiet_pick(b@, old(self).search_depth() as nat, old(self)@);
            let w = pv_walk(b@, old(self).search_depth() as nat, k.1.0);
            &&& r.0@ == w.0
            &&& final(self)@ == (w.1, k.1.1)
        }),
    {
        let _m: Move = self.search(b.clone_board());
        walk_memo(&mut self.memo, b, self.depth)
    }

    /// The memo holds finitely many entries.
    pub proof fn lemma_finite(&self)
        ensures self@.0.0.dom().finite(),
    {
        self.memo.lemma_finite();
    }
}

impl AI for NegaQuiescence {
    closed spec fn can_search(&self, s: BoardState) -> bool {
        &&& self.depth >= 2
        &&& searchable(s, self.depth as nat)
        &&& spec_moves(s).len() > 0
        &&& entries_in_range(self@.0.0)
    }

    /// The move `search` takes, and the tables it leaves, as `quiet_pick` gives them at the bot's
    /// depth; the depth is kept.
    open spec fn picks(&self, s: BoardState, m: Move, after: Self) -> bool {
        let k = quiet_pick(s, self.search_depth() as nat, self@);
        &&& m == k.0
        &&& after@ == k.1
        &&& after.search_depth() == self.search_depth()
    }

    fn new() -> (r: Self)
        ensures
            r@.0 == (Map::<Key, Transposition>::empty(), true),
            r@.1.len() == SIZE,
            forall|i: int| 0 <= i < SIZE ==> r@.1[i] is None,
    {
        NegaQuiescence { memo: MemoMap::new(), depth: INITIAL_DEPTH, killerray: Killerray::new() }
    }

    /// Searches `b` with the full window, cleans the memo, and takes the best move
    /// remembered for the board; where none of the moves of `b` is remembered there, the
    /// first move.
    fn search(&mut self, b: Board) -> (m: Move)
        ensures
            ({
                let k = quiet_pick(b@, old(self).search_depth() as nat, old(self)@);
                &&& m == k.0
                &&& final(self)@ == k.1
            }),
            entries_in_range(final(self)@.0.0),
    {
        let ghost b_entry = b;
        let mut b = b;
        let ghost s = b@;
        let _value: Score = self.alphabeta(&mut b, -INFINITY, INFINITY, self.depth);
        let ghost before_clean = self@;
        self.memo.clean();
        proof {
            assert(same_position(s, b@));
            lemma_same_position_rules(s, b@);
            assert(self@.0.0 =~= fresh_part(before_clean.0.0, before_clean.0.1));
        }
        let ms = b.moves();
        let h = b.hash();
        let found: Option<Move> = match self.memo.get(&h) {
            Some(t) => t.best,
            None => None,
        };
        match found {
            Some(m0) => {
                match find_move(&ms, &m0) {
                    Some(m) => {
                        proof { lemma_find_same(spec_moves(s), m0, 0); }
                        return m;
                    },
                    None => {},
                }
            },
            None => {},
        }
        ms.0[0]
    }

    /// A search needs a depth of at least 2 (`can_search`): its last move is the
    /// quiescence estimate.
    fn set_depth(&mut self, depth: usize)
        ensures final(self).search_depth() == depth, final(self)@ == old(self)@,
    {
        self.depth = depth;
    }

    fn get_name(&self) -> (r: &str)
        ensures r@ == "NegaQuiescence"@,
    {
        "NegaQuiescence"
    }
}

} // verus!
