use vstd::prelude::*;
use crate::backend::board::{Board, Move, Score, INFINITY, BoardState, with_hash, spec_move_piece,
    spec_draw_by_repetition, spec_go_back};
use crate::backend::board_representation::movement::{Moves, spec_sort_by_heuristic, lemma_sort_by_heuristic};
use crate::backend::piece::Color;
use crate::backend::rules::{spec_moves, spec_end_score};
use crate::backend::search::{searchable, board_before, lemma_step_move, lemma_back_move, lemma_searchable_same,
    infinity};
use crate::ai::structures::killerray::{Killerray, SIZE};
use super::structures::memomap::{MemoMap, Key, Transposition, TransFlag, fresh_part, memo_read, memo_write};
use super::negaalphakiller::{Tables, entries_in_range, find_same, holds_same, stage_ok,
    find_move, holds, lemma_find_same, lemma_own_hash, pv_walk, walk_memo};
use super::negaquiescence::{quiet_of, lemma_quiet_top};
use super::interface::AI;
use crate::backend::positions::{same_position, lemma_same_position_rules};

verus! {

pub const INITIAL_DEPTH: usize = 8;

/// Principal variation search: alpha-beta in its two-player form with a memo and killer
/// moves, where every move after the first is searched with a null window first and
/// searched again with the full window only when its value falls inside it; the last move
/// is a quiescence estimate.
pub struct PVS {
    memo: MemoMap,
    depth: usize,
    killerray: Killerray<Move>,
}

impl View for PVS {
    type V = Tables;

    closed spec fn view(&self) -> Tables {
        (self.memo@, self.killerray@)
    }
}

/// The moves of `s`, best first for White when `maxim`, for Black otherwise.
pub open spec fn side_sorted(s: BoardState, maxim: bool) -> Seq<Move> {
    spec_sort_by_heuristic(spec_moves(s), if maxim { Color::White } else { Color::Black })
}

pub(crate) proof fn lemma_side_sorted(s: BoardState, maxim: bool)
    ensures
        side_sorted(s, maxim).len() == spec_moves(s).len(),
        forall|i: int| 0 <= i < side_sorted(s, maxim).len() ==> spec_moves(s).contains(#[trigger] side_sorted(s, maxim)[i]),
{
    let c = if maxim { Color::White } else { Color::Black };
    lemma_sort_by_heuristic(spec_moves(s), c);
    let a = side_sorted(s, maxim);
    let b = spec_moves(s);
    a.to_multiset_ensures();
    b.to_multiset_ensures();
    assert forall|i: int| 0 <= i < a.len() implies b.contains(#[trigger] a[i]) by {
        assert(a.contains(a[i]));
        assert(a.to_multiset().count(a[i]) > 0);
        assert(b.to_multiset().count(a[i]) > 0);
    }
}

/// The quiescence estimate of `s` (from White's point of view): for the maximizing side
/// against `bound` as beta, for the minimizing side against `bound` as alpha. The
/// evaluation when it already reaches the bound; the end score without moves; the
/// evaluation when no move goes to an unattacked square; otherwise the evaluation after the
/// best of those moves for the side.
pub open spec fn quiet_value(s: BoardState, bound: int, maxim: bool) -> int {
    let stand = s.scores[s.counter as int] as int;
    let q = quiet_of(s, spec_moves(s));
    if (maxim && stand >= bound) || (!maxim && stand <= bound) {
        stand
    } else if spec_moves(s).len() == 0 {
        spec_end_score(s)
    } else if q.len() == 0 {
        stand
    } else {
        stand + spec_sort_by_heuristic(q, if maxim { Color::White } else { Color::Black })[0].heuristic_value
    }
}

/// Whether `v` cuts the search off: at least beta for the maximizing side, at most alpha for
/// the minimizing side.
pub open spec fn cuts(maxim: bool, v: int, alpha: int, beta: int) -> bool {
    if maxim { v >= beta } else { v <= alpha }
}

/// Whether `v` improves the window: above alpha for the maximizing side, below beta for the
/// minimizing side.
pub open spec fn improves(maxim: bool, v: int, alpha: int, beta: int) -> bool {
    if maxim { v > alpha } else { v < beta }
}

/// The flag a cutoff stores: a lower bound for the maximizing side, an upper bound otherwise.
pub open spec fn cut_flag(maxim: bool) -> TransFlag {
    if maxim { TransFlag::LOWER_BOUND } else { TransFlag::UPPER_BOUND }
}

/// The null window after alpha for the maximizing side, before beta for the minimizing side.
/// A bound at the end of the range of scores, where one more or one less is no score, is
/// kept as it is.
pub open spec fn null_window(maxim: bool, alpha: int, beta: int) -> (int, int) {
    if maxim {
        (alpha, if alpha < i32::MAX { alpha + 1 } else { alpha })
    } else {
        (if beta > i32::MIN { beta - 1 } else { beta }, beta)
    }
}

/// What the search gives for `s`, White maximizing when `maxim`, window (alpha, beta),
/// `depth` moves deep, from the tables `t`: the value, the tables afterwards, and the hash
/// of the board it ends on. 0 for a draw by repetition; the quiescence estimate at depth 1.
/// Otherwise the memo entry of the hash of `s` is read: searched at least as deep, an exact
/// value is returned, a bound narrows the window, and for the maximizing side a window that
/// closes returns the value; searched less deep, its best move, when it is one of the moves
/// of `s`, is searched first. Then the killer stage (`pvs_killer`).
pub open spec fn pvs_search(s: BoardState, alpha: int, beta: int, depth: nat, maxim: bool, t: Tables)
    -> (int, Tables, i64)
    decreases depth, 4nat, 0nat,
{
    let h = s.zobrist.hash;
    if spec_draw_by_repetition(s) {
        (0, t, h)
    } else if depth <= 1 {
        (quiet_value(s, if maxim { beta } else { alpha }, maxim), t, h)
    } else {
        let rd = memo_read(t.0, h);
        let t1 = (rd.1, t.1);
        if rd.0 is Some && rd.0->0.depth >= depth {
            let e = rd.0->0;
            if e.flag == TransFlag::EXACT {
                (e.value as int, t1, h)
            } else {
                let a2 = if e.flag == TransFlag::LOWER_BOUND && e.value > alpha { e.value as int } else { alpha };
                let b2 = if e.flag == TransFlag::UPPER_BOUND && e.value < beta { e.value as int } else { beta };
                if maxim && a2 >= b2 {
                    (e.value as int, t1, h)
                } else {
                    pvs_killer(s, a2, b2, depth, maxim, None, None, false, 0, t1)
                }
            }
        } else if rd.0 is Some && rd.0->0.best is Some && find_same(spec_moves(s), rd.0->0.best->0, 0) is Some {
            let m = find_same(spec_moves(s), rd.0->0.best->0, 0)->0;
            let c = pvs_search(spec_move_piece(s, m), alpha, beta, (depth - 1) as nat, !maxim, t1);
            let v = c.0;
            let back = board_before(s, 1).zobrist.hash;
            if cuts(maxim, v, alpha, beta) {
                (v, (memo_write(c.1.0, back, v, cut_flag(maxim), depth, Some(m)),
                    c.1.1.update((s.counter % SIZE) as int, Some(m))), back)
            } else if improves(maxim, v, alpha, beta) {
                let a2 = if maxim { v } else { alpha };
                let b2 = if maxim { beta } else { v };
                pvs_killer(s, a2, b2, depth, maxim, Some(m), Some(m), true, 1, c.1)
            } else {
                pvs_killer(s, alpha, beta, depth, maxim, Some(m), None, false, 1, c.1)
            }
        } else {
            pvs_killer(s, alpha, beta, depth, maxim, None, None, false, 0, t1)
        }
    }
}

/// The killer stage: the killer move of the depth, when it is one of the moves of `s` and
/// not the remembered move, is searched next; a cutoff stores it, an improving value narrows
/// the window. Then the first sorted move (`pvs_first`).
pub open spec fn pvs_killer(s: BoardState, alpha: int, beta: int, depth: nat, maxim: bool, prev: Option<Move>,
    best: Option<Move>, exact: bool, p: int, t: Tables) -> (int, Tables, i64)
    decreases depth, 3nat, 0nat,
{
    let km = t.1[(s.counter % SIZE) as int];
    if depth == 0 {
        (0, t, 0)
    } else if km is Some && find_same(spec_moves(s), km->0, 0) is Some
        && !holds_same(prev, find_same(spec_moves(s), km->0, 0)->0) {
        let m = find_same(spec_moves(s), km->0, 0)->0;
        let c = pvs_search(spec_move_piece(board_before(s, p), m), alpha, beta, (depth - 1) as nat, !maxim, t);
        let v = c.0;
        let back = board_before(s, p + 1).zobrist.hash;
        if cuts(maxim, v, alpha, beta) {
            (v, (memo_write(c.1.0, back, v, cut_flag(maxim), depth, Some(m)), c.1.1), back)
        } else if improves(maxim, v, alpha, beta) {
            let a2 = if maxim { v } else { alpha };
            let b2 = if maxim { beta } else { v };
            pvs_first(s, a2, b2, depth, maxim, prev, Some(m), Some(m), true, p + 1, c.1)
        } else {
            pvs_first(s, alpha, beta, depth, maxim, prev, Some(m), best, exact, p + 1, c.1)
        }
    } else {
        pvs_first(s, alpha, beta, depth, maxim, prev, None, best, exact, p, t)
    }
}

/// The first sorted move: the end score when `s` has no move; when neither a remembered nor
/// a killer move was searched, the first sorted move is searched with the full window. Then
/// the others (`pvs_rest`).
pub open spec fn pvs_first(s: BoardState, alpha: int, beta: int, depth: nat, maxim: bool, prev: Option<Move>,
    kill: Option<Move>, best: Option<Move>, exact: bool, p: int, t: Tables) -> (int, Tables, i64)
    decreases depth, 2nat, 0nat,
{
    if depth == 0 {
        (0, t, 0)
    } else if side_sorted(s, maxim).len() == 0 {
        (spec_end_score(s), t, board_before(s, p).zobrist.hash)
    } else if prev is None && kill is None {
        let m = side_sorted(s, maxim)[0];
        let c = pvs_search(spec_move_piece(board_before(s, p), m), alpha, beta, (depth - 1) as nat, !maxim, t);
        let v = c.0;
        let back = board_before(s, p + 1).zobrist.hash;
        if improves(maxim, v, alpha, beta) {
            if cuts(maxim, v, alpha, beta) {
                (v, (memo_write(c.1.0, back, v, cut_flag(maxim), depth, Some(m)),
                    c.1.1.update((s.counter % SIZE) as int, Some(m))), back)
            } else {
                let a2 = if maxim { v } else { alpha };
                let b2 = if maxim { beta } else { v };
                pvs_rest(s, a2, b2, depth, maxim, prev, kill, Some(m), true, p + 1, 1, c.1)
            }
        } else {
            pvs_rest(s, alpha, beta, depth, maxim, prev, kill, best, exact, p + 1, 1, c.1)
        }
    } else {
        pvs_rest(s, alpha, beta, depth, maxim, prev, kill, best, exact, p, 0, t)
    }
}

/// The sorted moves from the `i`-th on, skipping the remembered and the killer move: each is
/// searched with the null window, and again with the full window when its value falls
/// strictly inside it; an improving value of that search narrows the window; a cutoff
/// stores the move as killer (at the move counter for the maximizing side, at the depth for
/// the other) and as a bound. At the end alpha (maximizing) or beta is stored.
pub open spec fn pvs_rest(s: BoardState, alpha: int, beta: int, depth: nat, maxim: bool, prev: Option<Move>,
    kill: Option<Move>, best: Option<Move>, exact: bool, p: int, i: nat, t: Tables) -> (int, Tables, i64)
    decreases depth, 1nat, side_sorted(s, maxim).len() - i,
{
    let here = board_before(s, p).zobrist.hash;
    if depth == 0 {
        (0, t, 0)
    } else if i >= side_sorted(s, maxim).len() {
        let flag = if exact { TransFlag::EXACT } else if maxim { TransFlag::UPPER_BOUND } else { TransFlag::LOWER_BOUND };
        let v = if maxim { alpha } else { beta };
        (v, (memo_write(t.0, here, v, flag, depth, best), t.1), here)
    } else {
        let m = side_sorted(s, maxim)[i as int];
        if holds_same(prev, m) || holds_same(kill, m) {
            pvs_rest(s, alpha, beta, depth, maxim, prev, kill, best, exact, p, i + 1, t)
        } else {
            let child = spec_move_piece(board_before(s, p), m);
            let nw = null_window(maxim, alpha, beta);
            let c1 = pvs_search(child, nw.0, nw.1, (depth - 1) as nat, !maxim, t);
            let back = board_before(s, p + 1).zobrist.hash;
            let slot = if maxim { (s.counter % SIZE) as int } else { (depth % (SIZE as nat)) as int };
            if c1.0 > alpha && c1.0 < beta {
                let c2 = pvs_search(with_hash(child, c1.2), alpha, beta, (depth - 1) as nat, !maxim, c1.1);
                let v = c2.0;
                let up = improves(maxim, v, alpha, beta);
                let a2 = if maxim && up { v } else { alpha };
                let b2 = if !maxim && up { v } else { beta };
                if cuts(maxim, v, alpha, beta) {
                    (v, (memo_write(c2.1.0, back, v, cut_flag(maxim), depth, Some(m)),
                        c2.1.1.update(slot, Some(m))), back)
                } else if up {
                    pvs_rest(s, a2, b2, depth, maxim, prev, kill, Some(m), true, p + 1, i + 1, c2.1)
                } else {
                    pvs_rest(s, a2, b2, depth, maxim, prev, kill, best, exact, p + 1, i + 1, c2.1)
                }
            } else {
                let v = c1.0;
                if cuts(maxim, v, alpha, beta) {
                    (v, (memo_write(c1.1.0, back, v, cut_flag(maxim), depth, Some(m)),
                        c1.1.1.update(slot, Some(m))), back)
                } else {
                    pvs_rest(s, alpha, beta, depth, maxim, prev, kill, best, exact, p + 1, i + 1, c1.1)
                }
            }
        }
    }
}


impl PVS {
    /// The quiescence estimate of `b`, as `quiet_value` gives it.
    fn quiet(&mut self, b: &mut Board, bound: Score, maxim: bool) -> (r: Score)
        requires searchable(old(b)@, 1),
        ensures
            r == quiet_value(old(b)@, bound as int, maxim),
            final(b)@ == old(b)@,
            final(self)@ == old(self)@,
            final(self).depth == old(self).depth,
            -infinity() <= r <= infinity(),
    {
        let stand_pat = b.heuristic_value();
        if (maxim && stand_pat >= bound) || (!maxim && stand_pat <= bound) {
            return stand_pat;
        }
        let ghost s = b@;
        let ms = b.moves();
        if ms.len() == 0 {
            return b.end_score();
        }
        let mut quiet = Moves(Vec::new());
        let mut i: usize = 0;
        while i < ms.0.len()
            invariant
                b@ == s, searchable(s, 1), ms.0@ == spec_moves(s), i <= ms.0@.len(),
                quiet.0@ == quiet_of(s, ms.0@.take(i as int)),
            decreases ms.0@.len() - i,
        {
            let m = ms.0[i];
            proof {
                assert(ms.0@.take(i as int + 1).drop_last() =~= ms.0@.take(i as int));
                assert(ms.0@.take(i as int + 1).last() == m);
                assert(crate::backend::board::move_ok(s, spec_moves(s)[i as int]));
            }
            if !b.is_threatened(&m.to) {
                quiet.0.push(m);
            }
            i += 1;
        }
        proof { assert(ms.0@.take(ms.0@.len() as int) =~= ms.0@); }
        if quiet.len() == 0 {
            return stand_pat;
        }
        let ghost q = quiet.0@;
        let c = if maxim { Color::White } else { Color::Black };
        quiet.sort_by_heuristic(c);
        proof {
            lemma_quiet_top(s, c);
            let top = spec_sort_by_heuristic(q, c)[0];
            let j = choose|j: int| 0 <= j < spec_moves(s).len() && spec_moves(s)[j] == top;
            assert(crate::backend::board::move_ok(s, spec_moves(s)[j]));
            let child = spec_move_piece(s, spec_moves(s)[j]);
            assert(searchable(child, 0));
            assert(quiet.0@[0] == top);
            assert(crate::backend::board::wf(s));
            reveal(spec_move_piece);
            assert(child.counter == s.counter + 1);
            assert(child.scores == s.scores.push((s.scores[s.counter as int] + spec_moves(s)[j].heuristic_value) as Score));
            assert(child.scores[child.counter as int] == (s.scores[s.counter as int] + top.heuristic_value) as Score);
        }
        b.heuristic_value() + quiet.0[0].heuristic_value
    }

    /// The value of `b` with window (alpha, beta), `depth` moves deep, White maximizing when
    /// `maxim`, and the tables it leaves, as `pvs_search` gives them.
    fn search_node(&mut self, b: &mut Board, alpha: Score, beta: Score, depth: usize, maxim: bool) -> (r: Score)
        requires
            searchable(old(b)@, depth as nat), depth >= 1,
        ensures
            ({
                let k = pvs_search(old(b)@, alpha as int, beta as int, depth as nat, maxim, old(self)@);
                &&& r == k.0
                &&& final(self)@ == k.1
                &&& final(b)@ == with_hash(old(b)@, k.2)
                &&& (k.2 == old(b)@.zobrist.hash || k.2 == old(b)@.hashes[old(b)@.counter as int])
            }),
            final(self).depth == old(self).depth,
        decreases depth, 4nat,
    {
        proof { lemma_own_hash(b@); }
        if b.is_draw_by_repetition() {
            return 0;
        }
        if depth <= 1 {
            return self.quiet(b, if maxim { beta } else { alpha }, maxim);
        }
        let ghost s = b@;
        let ghost t0 = self@;
        let h = b.hash();
        let found: Option<Transposition> = match self.memo.get(&h) {
            Some(t) => Some(*t),
            None => None,
        };
        assert(memo_read(t0.0, h).0 == found && self@ == (memo_read(t0.0, h).1, t0.1));
        let ms = b.moves();
        match found {
            Some(t) => {
                if t.depth >= depth {
                    if t.flag == TransFlag::EXACT {
                        return t.value;
                    }
                    let mut a2 = alpha;
                    let mut b2 = beta;
                    if t.flag == TransFlag::LOWER_BOUND && t.value > alpha {
                        a2 = t.value;
                    }
                    if t.flag == TransFlag::UPPER_BOUND && t.value < beta {
                        b2 = t.value;
                    }
                    if maxim && a2 >= b2 {
                        return t.value;
                    }
                    return self.killer_stage(b, ms, a2, b2, depth, maxim, None, None, false, Ghost(s), Ghost(0));
                }
                match t.best {
                    Some(m0) => {
                        match find_move(&ms, &m0) {
                            Some(m) => {
                                proof {
                                    lemma_find_same(spec_moves(s), m0, 0);
                                    lemma_step_move(s, depth as nat, 0, m);
                                }
                                b.move_piece(&m);
                                let v = self.search_node(b, alpha, beta, depth - 1, !maxim);
                                proof { lemma_back_move(s, depth as nat, 0, m, b@, spec_go_back(b@)); }
                                b.go_back();
                                if (maxim && v >= beta) || (!maxim && v <= alpha) {
                                    self.killerray.put(m, b.counter());
                                    let flag = if maxim { TransFlag::LOWER_BOUND } else { TransFlag::UPPER_BOUND };
                                    self.memo.insert(b.hash(), v, flag, depth, Some(m));
                                    return v;
                                }
                                if maxim && v > alpha {
                                    return self.killer_stage(b, ms, v, beta, depth, maxim, Some(m), Some(m), true, Ghost(s), Ghost(1));
                                }
                                if !maxim && v < beta {
                                    return self.killer_stage(b, ms, alpha, v, depth, maxim, Some(m), Some(m), true, Ghost(s), Ghost(1));
                                }
                                return self.killer_stage(b, ms, alpha, beta, depth, maxim, Some(m), None, false, Ghost(s), Ghost(1));
                            },
                            None => {},
                        }
                    },
                    None => {},
                }
            },
            None => {},
        }
        self.killer_stage(b, ms, alpha, beta, depth, maxim, None, None, false, Ghost(s), Ghost(0))
    }

    /// The killer stage of the search of `s`, as `pvs_killer` gives it.
    fn killer_stage(&mut self, b: &mut Board, ms: Moves, alpha: Score, beta: Score, depth: usize, maxim: bool,
        prev: Option<Move>, best: Option<Move>, exact: bool, Ghost(s): Ghost<BoardState>, Ghost(p): Ghost<int>) -> (r: Score)
        requires
            stage_ok(s, depth as nat, old(b)@, p), ms.0@ == spec_moves(s), depth >= 2,
        ensures
            ({
                let k = pvs_killer(s, alpha as int, beta as int, depth as nat, maxim, prev, best, exact, p, old(self)@);
                &&& r == k.0
                &&& final(self)@ == k.1
                &&& final(b)@ == with_hash(s, k.2)
                &&& (k.2 == s.zobrist.hash || k.2 == s.hashes[s.counter as int])
            }),
            final(self).depth == old(self).depth,
        decreases depth, 3nat,
    {
        let km = *self.killerray.get(b.counter());
        match km {
            Some(m0) => {
                match find_move(&ms, &m0) {
                    Some(m) => if !holds(prev, m) {
                        proof {
                            lemma_find_same(spec_moves(s), m0, 0);
                            lemma_step_move(s, depth as nat, p, m);
                        }
                        b.move_piece(&m);
                        let v = self.search_node(b, alpha, beta, depth - 1, !maxim);
                        proof { lemma_back_move(s, depth as nat, p, m, b@, spec_go_back(b@)); }
                        b.go_back();
                        if (maxim && v >= beta) || (!maxim && v <= alpha) {
                            let flag = if maxim { TransFlag::LOWER_BOUND } else { TransFlag::UPPER_BOUND };
                            self.memo.insert(b.hash(), v, flag, depth, Some(m));
                            return v;
                        }
                        if maxim && v > alpha {
                            return self.search_moves(b, ms, v, beta, depth, maxim, prev, Some(m), Some(m), true, Ghost(s), Ghost(p + 1));
                        }
                        if !maxim && v < beta {
                            return self.search_moves(b, ms, alpha, v, depth, maxim, prev, Some(m), Some(m), true, Ghost(s), Ghost(p + 1));
                        }
                        return self.search_moves(b, ms, alpha, beta, depth, maxim, prev, Some(m), best, exact, Ghost(s), Ghost(p + 1));
                    },
                    None => {},
                }
            },
            None => {},
        }
        self.search_moves(b, ms, alpha, beta, depth, maxim, prev, None, best, exact, Ghost(s), Ghost(p))
    }
}


impl PVS {
    /// The sorted moves of `s`, as `pvs_first` gives them.
    #[verifier::rlimit(50)]
    #[verifier::spinoff_prover]
    fn search_moves(&mut self, b: &mut Board, ms: Moves, a_in: Score, b_in: Score, depth: usize, maxim: bool,
        prev: Option<Move>, kill: Option<Move>, best_in: Option<Move>, exact_in: bool,
        Ghost(s): Ghost<BoardState>, Ghost(p_in): Ghost<int>) -> (r: Score)
        requires
            stage_ok(s, depth as nat, old(b)@, p_in), ms.0@ == spec_moves(s), depth >= 2,
        ensures
            ({
                let k = pvs_first(s, a_in as int, b_in as int, depth as nat, maxim, prev, kill, best_in, exact_in, p_in, old(self)@);
                &&& r == k.0
                &&& final(self)@ == k.1
                &&& final(b)@ == with_hash(s, k.2)
                &&& (k.2 == s.zobrist.hash || k.2 == s.hashes[s.counter as int])
            }),
            final(self).depth == old(self).depth,
        decreases depth, 2nat,
    {
        proof {
            lemma_side_sorted(s, maxim);
            lemma_own_hash(s);
            assert(same_position(s, b@));
            lemma_same_position_rules(s, b@);
        }
        let mut ms = ms;
        if ms.len() == 0 {
            return b.end_score();
        }
        let c = if maxim { Color::White } else { Color::Black };
        ms.sort_by_heuristic(c);
        let ghost mut p = p_in;
        let mut alpha = a_in;
        let mut beta = b_in;
        let mut best = best_in;
        let mut exact = exact_in;
        let mut i: usize = 0;
        if prev.is_none() && kill.is_none() {
            let m = ms.0[0];
            proof { lemma_step_move(s, depth as nat, p, m); }
            b.move_piece(&m);
            let v = self.search_node(b, alpha, beta, depth - 1, !maxim);
            proof { lemma_back_move(s, depth as nat, p, m, b@, spec_go_back(b@)); }
            b.go_back();
            if (maxim && v > alpha) || (!maxim && v < beta) {
                if (maxim && v >= beta) || (!maxim && v <= alpha) {
                    self.killerray.put(m, b.counter());
                    let flag = if maxim { TransFlag::LOWER_BOUND } else { TransFlag::UPPER_BOUND };
                    self.memo.insert(b.hash(), v, flag, depth, Some(m));
                    return v;
                }
                if maxim {
                    alpha = v;
                } else {
                    beta = v;
                }
                best = Some(m);
                exact = true;
            }
            proof { p = p + 1; }
            i = 1;
        }
        while i < ms.len()
            invariant
                stage_ok(s, depth as nat, b@, p), depth >= 2, ms.0@ == side_sorted(s, maxim),
                ms.0@.len() == spec_moves(s).len(), ms.0@.len() > 0,
                forall|k: int| 0 <= k < ms.0@.len() ==> spec_moves(s).contains(#[trigger] ms.0@[k]),
                i <= ms.0@.len(),
                    self.depth == old(self).depth,
                pvs_first(s, a_in as int, b_in as int, depth as nat, maxim, prev, kill, best_in, exact_in, p_in, old(self)@)
                    == pvs_rest(s, alpha as int, beta as int, depth as nat, maxim, prev, kill, best, exact, p, i as nat, self@),
            decreases ms.0@.len() - i,
        {
            let m = ms.0[i];
            if holds(prev, m) || holds(kill, m) {
                i += 1;
                continue;
            }
            proof { lemma_step_move(s, depth as nat, p, m); }
            let ghost child = spec_move_piece(board_before(s, p), m);
            let a0 = alpha;
            let b0 = beta;
            b.move_piece(&m);
            let mut na = alpha;
            let mut nb = beta;
            if maxim {
                nb = if alpha < i32::MAX { alpha + 1 } else { alpha };
            } else {
                na = if beta > i32::MIN { beta - 1 } else { beta };
            }
            let mut v = self.search_node(b, na, nb, depth - 1, !maxim);
            if v > alpha && v < beta {
                proof {
                    lemma_searchable_same(child, b@, (depth - 1) as nat);
                }
                v = self.search_node(b, alpha, beta, depth - 1, !maxim);
                if (maxim && v > alpha) || (!maxim && v < beta) {
                    if maxim {
                        alpha = v;
                    } else {
                        beta = v;
                    }
                    exact = true;
                    best = Some(m);
                }
            }
            proof { lemma_back_move(s, depth as nat, p, m, b@, spec_go_back(b@)); }
            b.go_back();
            if (maxim && v >= b0) || (!maxim && v <= a0) {
                if maxim {
                    self.killerray.put(m, b.counter());
                } else {
                    self.killerray.put(m, depth);
                }
                let flag = if maxim { TransFlag::LOWER_BOUND } else { TransFlag::UPPER_BOUND };
                self.memo.insert(b.hash(), v, flag, depth, Some(m));
                return v;
            }
            proof { p = p + 1; }
            i += 1;
        }
        let flag = if exact { TransFlag::EXACT } else if maxim { TransFlag::UPPER_BOUND } else { TransFlag::LOWER_BOUND };
        let v = if maxim { alpha } else { beta };
        self.memo.insert(b.hash(), v, flag, depth, best);
        v
    }
}


/// The move the search picks from `s` with tables `t`, and the tables afterwards: the full
/// window search `depth` moves deep, White maximizing when it is to move, then a clean of
/// the memo, then the best move of the entry read for the board the search ended on, when
/// it is one of the moves of `s`; the first move of `s` otherwise.
pub open spec fn pvs_pick(s: BoardState, depth: nat, t: Tables) -> (Move, Tables) {
    let k = pvs_search(s, -infinity(), infinity(), depth, s.color == Color::White, t);
    let cleaned = (fresh_part(k.1.0.0, k.1.0.1), !k.1.0.1);
    let rd = memo_read(cleaned, k.2);
    let found = if rd.0 is Some { rd.0->0.best } else { None };
    let pick = if found is Some && find_same(spec_moves(s), found->0, 0) is Some {
        find_same(spec_moves(s), found->0, 0)->0
    } else {
        spec_moves(s)[0]
    };
    (pick, (rd.1, k.1.1))
}

impl PVS {
    /// The depth the bot searches to.
    pub closed spec fn search_depth(&self) -> usize {
        self.depth
    }

    /// Searches `b`, then walks the memo's best moves from `b`, at most as many as the
    /// search depth.
    pub fn principal_variation(&mut self, b: Board) -> (r: Moves)
        requires old(self).can_search(b@),
        ensures ({
            let k = pvs_pick(b@, old(self).search_depth() as nat, old(self)@);
            let w = pv_walk(b@, old(self).search_depth() as nat, k.1.0);
            &&& r.0@ == w.0
            &&& final(self)@ == (w.1, k.1.1)
        }),
    {
        let _m: Move = self.search(b.clone_board());
        walk_memo(&mut self.memo, b, self.depth)
    }

    /// The memo holds finitely many entries.
    pub proof fn lemma_finite(&self)
        ensures self@.0.0.dom().finite(),
    {
        self.memo.lemma_finite();
    }
}

impl AI for PVS {
    closed spec fn can_search(&self, s: BoardState) -> bool {
        &&& self.depth >= 1
        &&& searchable(s, self.depth as nat)
        &&& spec_moves(s).len() > 0
    }

    /// The move `search` takes, and the tables it leaves, as `pvs_pick` gives them at the bot's
    /// depth; the depth is kept.
    open spec fn picks(&self, s: BoardState, m: Move, after: Self) -> bool {
        let k = pvs_pick(s, self.search_depth() as nat, self@);
        &&& m == k.0
        &&& after@ == k.1
        &&& after.search_depth() == self.search_depth()
    }

    fn new() -> (r: Self)
        ensures
            r@.0 == (Map::<Key, Transposition>::empty(), true),
            r@.1.len() == SIZE,
            forall|i: int| 0 <= i < SIZE ==> r@.1[i] is None,
    {
        PVS { memo: MemoMap::new(), depth: INITIAL_DEPTH, killerray: Killerray::new() }
    }

    /// Searches `b` with the full window, White maximizing, cleans the memo, and takes the
    /// best move remembered for the board; where none of the moves of `b` is remembered
    /// there, the first move.
    fn search(&mut self, b: Board) -> (m: Move)
        ensures
            ({
                let k = pvs_pick(b@, old(self).search_depth() as nat, old(self)@);
                &&& m == k.0
                &&& final(self)@ == k.1
            }),
    {
        let mut b = b;
        let ghost s = b@;
        let white = b.color_to_move() == Color::White;
        let _value: Score = self.search_node(&mut b, -INFINITY, INFINITY, self.depth, white);
        let ghost before_clean = self@;
        self.memo.clean();
        proof {
            assert(same_position(s, b@));
            lemma_same_position_rules(s, b@);
            assert(self@.0.0 =~= fresh_part(before_clean.0.0, before_clean.0.1));
        }
        let ms = b.moves();
        let h = b.hash();
        let found: Option<Move> = match self.memo.get(&h) {
            Some(t) => t.best,
            None => None,
        };
        match found {
            Some(m0) => {
                match find_move(&ms, &m0) {
                    Some(m) => {
                        proof { lemma_find_same(spec_moves(s), m0, 0); }
                        return m;
                    },
                    None => {},
                }
            },
            None => {},
        }
        ms.0[0]
    }

    fn set_depth(&mut self, depth: usize)
        ensures final(self).search_depth() == depth, final(self)@ == old(self)@,
    {
        self.depth = depth;
    }

    fn get_name(&self) -> (r: &str)
        ensures r@ == "PVS"@,
    {
        "PVS"
    }
}

} // verus!
