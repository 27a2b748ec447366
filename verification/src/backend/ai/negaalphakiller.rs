use vstd::prelude::*;
use crate::backend::board::{Board, Move, Score, INFINITY, BoardState, with_hash, spec_move_piece,
    spec_draw_by_repetition, spec_go_back, spec_symmetric_heuristic, spec_symmetric_end_score};
use crate::backend::board_representation::movement::{Moves, same_move, spec_sort_by_heuristic, lemma_sort_by_heuristic};
use crate::backend::piece::Color;
use crate::backend::rules::spec_moves;
use crate::backend::search::{searchable, board_before,
    lemma_step_move, lemma_back_move, infinity};
use crate::ai::structures::killerray::{Killerray, SIZE};
use super::structures::memomap::{MemoMap, Key, Transposition, TransFlag, fresh_part, memo_read, memo_write};
use super::interface::AI;
use crate::backend::positions::{same_position, lemma_same_position_rules};

verus! {

pub const INITIAL_DEPTH: usize = 8;

/// The memo's entries and the age its next clean removes, with the killer moves by depth.
pub type Tables = ((Map<Key, Transposition>, bool), Seq<Option<Move>>);

/// Negamax with alpha-beta pruning and a memo, that tries first the best move remembered
/// for a position and then the killer move of its depth (a move that caused a cutoff at
/// that depth before) when it is one of the position's moves.
pub struct NegaAlphaKiller {
    memo: MemoMap,
    depth: usize,
    killerray: Killerray<Move>,
}

impl View for NegaAlphaKiller {
    type V = Tables;

    closed spec fn view(&self) -> Tables {
        (self.memo@, self.killerray@)
    }
}

/// Every remembered value lies within plus and minus infinity.
pub open spec fn entries_in_range(m: Map<Key, Transposition>) -> bool {
    forall|k: Key| m.dom().contains(k) ==> -infinity() <= (#[trigger] m[k]).value <= infinity()
}

/// The moves of `s`, those best for White first.
pub open spec fn white_sorted(s: BoardState) -> Seq<Move> {
    spec_sort_by_heuristic(spec_moves(s), Color::White)
}

/// The moves sorted for White are the legal moves.
proof fn lemma_white_sorted(s: BoardState)
    ensures
        white_sorted(s).len() == spec_moves(s).len(),
        forall|i: int| 0 <= i < white_sorted(s).len() ==> spec_moves(s).contains(#[trigger] white_sorted(s)[i]),
{
    lemma_sort_by_heuristic(spec_moves(s), Color::White);
    let a = white_sorted(s);
    let b = spec_moves(s);
    a.to_multiset_ensures();
    b.to_multiset_ensures();
    assert forall|i: int| 0 <= i < a.len() implies b.contains(#[trigger] a[i]) by {
        assert(a.contains(a[i]));
        assert(a.to_multiset().count(a[i]) > 0);
        assert(b.to_multiset().count(a[i]) > 0);
    }
}

/// The first move of `ms` from the `i`-th on that is the same move as `m` (same squares
/// and promotion).
pub open spec fn find_same(ms: Seq<Move>, m: Move, i: nat) -> Option<Move>
    decreases ms.len() - i,
{
    if i >= ms.len() {
        None
    } else if same_move(ms[i as int], m) {
        Some(ms[i as int])
    } else {
        find_same(ms, m, i + 1)
    }
}

/// Whether `o` holds the same move as `m`.
pub open spec fn holds_same(o: Option<Move>, m: Move) -> bool {
    o is Some && same_move(o->0, m)
}

/// What the search gives for `s` with window (alpha, beta), `depth` moves deep, from the
/// tables `t`: the value, the tables afterwards, and the hash of the board it ends on.
/// 0 for a draw by repetition; the evaluation for the side to move at depth 0. Otherwise the
/// memo entry of the hash of `s` is read: searched at least as deep, an exact value is
/// returned, a bound narrows the window, and a window that closes returns the value; searched
/// less deep, its best move, when it is one of the moves of `s`, is searched first: a cutoff
/// stores it as killer and as a lower bound, a better value raises alpha. The killer stage
/// and the sorted moves follow (`killer_stage`).
pub open spec fn killer_search(s: BoardState, alpha: int, beta: int, depth: nat, t: Tables) -> (int, Tables, i64)
    decreases depth, 3nat, 0nat,
{
    let h = s.zobrist.hash;
    if spec_draw_by_repetition(s) {
        (0, t, h)
    } else if depth == 0 {
        (spec_symmetric_heuristic(s), t, h)
    } else {
        let rd = memo_read(t.0, h);
        let t1 = (rd.1, t.1);
        if rd.0 is Some && rd.0->0.depth >= depth {
            let e = rd.0->0;
            if e.flag == TransFlag::EXACT {
                (e.value as int, t1, h)
            } else {
                let a2 = if e.flag == TransFlag::LOWER_BOUND && e.value > alpha { e.value as int } else { alpha };
                let b2 = if e.flag == TransFlag::UPPER_BOUND && e.value < beta { e.value as int } else { beta };
                if a2 >= b2 {
                    (e.value as int, t1, h)
                } else {
                    killer_stage(s, a2, b2, depth, None, None, false, 0, t1)
                }
            }
        } else if rd.0 is Some && rd.0->0.best is Some && find_same(spec_moves(s), rd.0->0.best->0, 0) is Some {
            let m = find_same(spec_moves(s), rd.0->0.best->0, 0)->0;
            let c = killer_search(spec_move_piece(s, m), -beta, -alpha, (depth - 1) as nat, t1);
            let v = -c.0;
            let back = board_before(s, 1).zobrist.hash;
            if v >= beta {
                (v, (memo_write(c.1.0, back, v, TransFlag::LOWER_BOUND, depth, Some(m)),
                    c.1.1.update((s.counter % SIZE) as int, Some(m))), back)
            } else if v > alpha {
                killer_stage(s, v, beta, depth, Some(m), Some(m), true, 1, c.1)
            } else {
                killer_stage(s, alpha, beta, depth, Some(m), None, false, 1, c.1)
            }
        } else {
            killer_stage(s, alpha, beta, depth, None, None, false, 0, t1)
        }
    }
}

/// The killer stage of the search of `s`, after `p` moves were made, `prev` the remembered
/// move searched, `best` the move that raised alpha and `exact` whether one did: the killer
/// move of the depth, when it is one of the moves of `s`, is searched next; a cutoff stores
/// it as a lower bound, a better value raises alpha. Then the sorted moves (`killer_moves`).
pub open spec fn killer_stage(s: BoardState, alpha: int, beta: int, depth: nat, prev: Option<Move>,
    best: Option<Move>, exact: bool, p: int, t: Tables) -> (int, Tables, i64)
    decreases depth, 2nat, 0nat,
{
    let km = t.1[(s.counter % SIZE) as int];
    if depth == 0 {
        (0, t, 0)
    } else if km is Some && find_same(spec_moves(s), km->0, 0) is Some {
        let m = find_same(spec_moves(s), km->0, 0)->0;
        let c = killer_search(spec_move_piece(board_before(s, p), m), -beta, -alpha, (depth - 1) as nat, t);
        let v = -c.0;
        let back = board_before(s, p + 1).zobrist.hash;
        if v >= beta {
            (v, (memo_write(c.1.0, back, v, TransFlag::LOWER_BOUND, depth, Some(m)), c.1.1), back)
        } else if v > alpha {
            killer_moves(s, v, beta, depth, prev, Some(m), Some(m), true, p + 1, 0, c.1)
        } else {
            killer_moves(s, alpha, beta, depth, prev, Some(m), best, exact, p + 1, 0, c.1)
        }
    } else {
        killer_moves(s, alpha, beta, depth, prev, None, best, exact, p, 0, t)
    }
}

/// The moves of `s`, sorted for White, from the `i`-th on, skipping the remembered and the killer move:
/// the end score (for the side to move) when `s` has no move; a cutoff stores the move as
/// killer and as a lower bound; a better value raises alpha; at the end alpha is stored,
/// exact when a move raised it and an upper bound otherwise.
pub open spec fn killer_moves(s: BoardState, alpha: int, beta: int, depth: nat, prev: Option<Move>,
    kill: Option<Move>, best: Option<Move>, exact: bool, p: int, i: nat, t: Tables) -> (int, Tables, i64)
    decreases depth, 1nat, white_sorted(s).len() - i,
{
    let here = board_before(s, p).zobrist.hash;
    if depth == 0 {
        (0, t, 0)
    } else if i >= white_sorted(s).len() {
        if white_sorted(s).len() == 0 {
            (spec_symmetric_end_score(s), t, here)
        } else {
            let flag = if exact { TransFlag::EXACT } else { TransFlag::UPPER_BOUND };
            (alpha, (memo_write(t.0, here, alpha, flag, depth, best), t.1), here)
        }
    } else {
        let m = white_sorted(s)[i as int];
        if holds_same(prev, m) || holds_same(kill, m) {
            killer_moves(s, alpha, beta, depth, prev, kill, best, exact, p, i + 1, t)
        } else {
            let c = killer_search(spec_move_piece(board_before(s, p), m), -beta, -alpha, (depth - 1) as nat, t);
            let v = -c.0;
            let back = board_before(s, p + 1).zobrist.hash;
            if v >= beta {
                (v, (memo_write(c.1.0, back, v, TransFlag::LOWER_BOUND, depth, Some(m)),
                    c.1.1.update((s.counter % SIZE) as int, Some(m))), back)
            } else if v > alpha {
                killer_moves(s, v, beta, depth, prev, kill, Some(m), true, p + 1, i + 1, c.1)
            } else {
                killer_moves(s, alpha, beta, depth, prev, kill, best, exact, p + 1, i + 1, c.1)
            }
        }
    }
}


/// The move the search picks from `s` with tables `t`, and the tables afterwards: the full
/// window search `depth` moves deep, then a clean of the memo, then the best move of the
/// entry read for the board the search ended on, when it is one of the moves of `s`; the
/// first move of `s` otherwise.
pub open spec fn killer_pick(s: BoardState, depth: nat, t: Tables) -> (Move, Tables) {
    let k = killer_search(s, -infinity(), infinity(), depth, t);
    let cleaned = (fresh_part(k.1.0.0, k.1.0.1), !k.1.0.1);
    let rd = memo_read(cleaned, k.2);
    let found = if rd.0 is Some { rd.0->0.best } else { None };
    let pick = if found is Some && find_same(spec_moves(s), found->0, 0) is Some {
        find_same(spec_moves(s), found->0, 0)->0
    } else {
        spec_moves(s)[0]
    };
    (pick, (rd.1, k.1.1))
}

pub(crate) proof fn lemma_find_same(ms: Seq<Move>, m: Move, i: nat)
    ensures find_same(ms, m, i) is Some ==> ms.contains(find_same(ms, m, i)->0),
    decreases ms.len() - i,
{
    if i < ms.len() {
        if same_move(ms[i as int], m) {
            assert(ms[i as int] == find_same(ms, m, i)->0);
        } else {
            lemma_find_same(ms, m, i + 1);
        }
    }
}

pub(crate) proof fn lemma_own_hash(s: BoardState)
    ensures with_hash(s, s.zobrist.hash) == s,
{
}

/// The first of the moves `ms` that is the same move as `m`.
pub(crate) fn find_move(ms: &Moves, m: &Move) -> (r: Option<Move>)
    ensures r == find_same(ms.0@, *m, 0),
{
    let mut i: usize = 0;
    while i < ms.0.len()
        invariant i <= ms.0@.len(), find_same(ms.0@, *m, 0) == find_same(ms.0@, *m, i as nat),
        decreases ms.0@.len() - i,
    {
        if ms.0[i] == *m {
            return Some(ms.0[i]);
        }
        i += 1;
    }
    None
}

pub(crate) fn holds(o: Option<Move>, m: Move) -> (r: bool)
    ensures r == holds_same(o, m),
{
    match o {
        Some(x) => x == m,
        None => false,
    }
}

/// The search of a position `s`, in stages, with the board `b` on `board_before(s, p)`
/// after `p` of its moves were made and taken back.
pub open spec fn stage_ok(s: BoardState, depth: nat, b: BoardState, p: int) -> bool {
    &&& searchable(s, depth)
    &&& depth > 0
    &&& !spec_draw_by_repetition(s)
    &&& 0 <= p
    &&& b == board_before(s, p)
}

/// The walk along the memo's best moves from `s`, at most `r` moves long, from the memo
/// `t`: the moves, and the memo afterwards. The entry of each board is read; the walk stops
/// where there is none, where it has no best move, where that move is not one of the
/// board's moves, or after `r` moves, beyond which the boards are not known to be playable.
pub open spec fn pv_walk(s: BoardState, r: nat, t: (Map<Key, Transposition>, bool))
    -> (Seq<Move>, (Map<Key, Transposition>, bool))
    decreases r,
{
    let rd = memo_read(t, s.zobrist.hash);
    if rd.0 is None || rd.0->0.best is None || r == 0
        || find_same(spec_moves(s), rd.0->0.best->0, 0) is None {
        (Seq::empty(), rd.1)
    } else {
        let m = find_same(spec_moves(s), rd.0->0.best->0, 0)->0;
        let rest = pv_walk(spec_move_piece(s, m), (r - 1) as nat, rd.1);
        (seq![m] + rest.0, rest.1)
    }
}

/// Walks the memo's best moves from `b`, at most `r` moves, as `pv_walk` gives them.
#[verifier::rlimit(30)]
pub(crate) fn walk_memo(memo: &mut MemoMap, b_in: Board, r: usize) -> (ret: Moves)
    requires searchable(b_in@, r as nat),
    ensures
        ret.0@ == pv_walk(b_in@, r as nat, old(memo)@).0,
        final(memo)@ == pv_walk(b_in@, r as nat, old(memo)@).1,
{
    let mut b = b_in;
    let mut ret = Moves::new();
    let mut left: usize = r;
    proof { assert(ret.0@ + pv_walk(b@, left as nat, memo@).0 =~= pv_walk(b@, left as nat, memo@).0); }
    loop
        invariant
            searchable(b@, left as nat),
            pv_walk(b_in@, r as nat, old(memo)@).0 == ret.0@ + pv_walk(b@, left as nat, memo@).0,
            pv_walk(b_in@, r as nat, old(memo)@).1 == pv_walk(b@, left as nat, memo@).1,
        decreases left,
    {
        let ghost s = b@;
        let ghost t0 = memo@;
        let h = b.hash();
        let best: Option<Move> = match memo.get(&h) {
            Some(t) => t.best,
            None => None,
        };
        let ghost t1 = memo@;
        assert(memo_read(t0, h).1 == t1);
        assert(memo_read(t0, h).0 is None || memo_read(t0, h).0->0.best == best);
        match best {
            Some(m0) => {
                if left == 0 {
                    proof {
                        assert(pv_walk(s, 0, t0) == (Seq::<Move>::empty(), t1));
                        assert(ret.0@ + Seq::<Move>::empty() =~= ret.0@);
                    }
                    return ret;
                }
                let ms = b.moves();
                match find_move(&ms, &m0) {
                    Some(m) => {
                        proof {
                            lemma_find_same(spec_moves(s), m0, 0);
                            let i = choose|i: int| 0 <= i < spec_moves(s).len() && spec_moves(s)[i] == m;
                            assert(crate::backend::board::move_ok(s, spec_moves(s)[i]));
                            assert(searchable(spec_move_piece(s, spec_moves(s)[i]), (left - 1) as nat));
                            let w = pv_walk(spec_move_piece(s, m), (left - 1) as nat, t1);
                            assert(pv_walk(s, left as nat, t0) == (seq![m] + w.0, w.1));
                            assert(ret.0@.push(m) + w.0 =~= ret.0@ + (seq![m] + w.0));
                        }
                        b.move_piece(&m);
                        ret.push(m);
                        left = left - 1;
                    },
                    None => {
                        proof {
                            assert(pv_walk(s, left as nat, t0) == (Seq::<Move>::empty(), t1));
                            assert(ret.0@ + Seq::<Move>::empty() =~= ret.0@);
                        }
                        return ret;
                    },
                }
            },
            None => {
                proof {
                    assert(pv_walk(s, left as nat, t0) == (Seq::<Move>::empty(), t1));
                    assert(ret.0@ + Seq::<Move>::empty() =~= ret.0@);
                }
                return ret;
            },
        }
    }
}

impl NegaAlphaKiller {
    /// The pruned negamax value of `b` with window (alpha, beta), `depth` moves deep, and the
    /// tables it leaves, as `killer_search` gives them.
    fn alphabeta(&mut self, b: &mut Board, alpha: Score, beta: Score, depth: usize) -> (r: Score)
        requires
            searchable(old(b)@, depth as nat),
            -infinity() <= alpha <= infinity(), -infinity() <= beta <= infinity(),
            entries_in_range(old(self)@.0.0),
        ensures
            ({
                let k = killer_search(old(b)@, alpha as int, beta as int, depth as nat, old(self)@);
                &&& r == k.0
                &&& final(self)@ == k.1
                &&& final(b)@ == with_hash(old(b)@, k.2)
                &&& (k.2 == old(b)@.zobrist.hash || k.2 == old(b)@.hashes[old(b)@.counter as int])
            }),
            -infinity() <= r <= infinity(),
            entries_in_range(final(self)@.0.0),
            final(self).depth == old(self).depth,
        decreases depth, 3nat,
    {
        proof { lemma_own_hash(b@); }
        if b.is_draw_by_repetition() {
            return 0;
        }
        if depth == 0 {
            return b.symmetric_heuristic_value();
        }
        let ghost s = b@;
        let ghost t0 = self@;
        let h = b.hash();
        let found: Option<Transposition> = match self.memo.get(&h) {
            Some(t) => Some(*t),
            None => None,
        };
        assert(memo_read(t0.0, h).0 == found && self@ == (memo_read(t0.0, h).1, t0.1));
        let ms = b.moves();
        match found {
            Some(t) => {
                if t.depth >= depth {
                    if t.flag == TransFlag::EXACT {
                        return t.value;
                    }
                    let mut a2 = alpha;
                    let mut b2 = beta;
                    if t.flag == TransFlag::LOWER_BOUND && t.value > alpha {
                        a2 = t.value;
                    }
                    if t.flag == TransFlag::UPPER_BOUND && t.value < beta {
                        b2 = t.value;
                    }
                    if a2 >= b2 {
                        return t.value;
                    }
                    return self.killer_stage(b, ms, a2, b2, depth, None, None, false, Ghost(s), Ghost(0));
                }
                match t.best {
                    Some(m0) => {
                        match find_move(&ms, &m0) {
                            Some(m) => {
                                proof {
                                    lemma_find_same(spec_moves(s), m0, 0);
                                    lemma_step_move(s, depth as nat, 0, m);
                                }
                                b.move_piece(&m);
                                let v = -self.alphabeta(b, -beta, -alpha, depth - 1);
                                proof { lemma_back_move(s, depth as nat, 0, m, b@, spec_go_back(b@)); }
                                b.go_back();
                                if v >= beta {
                                    self.killerray.put(m, b.counter());
                                    self.memo.insert(b.hash(), v, TransFlag::LOWER_BOUND, depth, Some(m));
                                    return v;
                                }
                                if v > alpha {
                                    return self.killer_stage(b, ms, v, beta, depth, Some(m), Some(m), true, Ghost(s), Ghost(1));
                                }
                                return self.killer_stage(b, ms, alpha, beta, depth, Some(m), None, false, Ghost(s), Ghost(1));
                            },
                            None => {},
                        }
                    },
                    None => {},
                }
            },
            None => {},
        }
        self.killer_stage(b, ms, alpha, beta, depth, None, None, false, Ghost(s), Ghost(0))
    }

    /// The killer stage of the search of `s`, as `killer_stage` gives it.
    fn killer_stage(&mut self, b: &mut Board, ms: Moves, alpha: Score, beta: Score, depth: usize,
        prev: Option<Move>, best: Option<Move>, exact: bool, Ghost(s): Ghost<BoardState>, Ghost(p): Ghost<int>) -> (r: Score)
        requires
            stage_ok(s, depth as nat, old(b)@, p), ms.0@ == spec_moves(s),
            -infinity() <= alpha <= infinity(), -infinity() <= beta <= infinity(),
            entries_in_range(old(self)@.0.0),
        ensures
            ({
                let k = killer_stage(s, alpha as int, beta as int, depth as nat, prev, best, exact, p, old(self)@);
                &&& r == k.0
                &&& final(self)@ == k.1
                &&& final(b)@ == with_hash(s, k.2)
                &&& (k.2 == s.zobrist.hash || k.2 == s.hashes[s.counter as int])
            }),
            -infinity() <= r <= infinity(),
            entries_in_range(final(self)@.0.0),
            final(self).depth == old(self).depth,
        decreases depth, 2nat,
    {
        let km = *self.killerray.get(b.counter());
        match km {
            Some(m0) => {
                match find_move(&ms, &m0) {
                    Some(m) => {
                        proof {
                            lemma_find_same(spec_moves(s), m0, 0);
                            lemma_step_move(s, depth as nat, p, m);
                        }
                        b.move_piece(&m);
                        let v = -self.alphabeta(b, -beta, -alpha, depth - 1);
                        proof { lemma_back_move(s, depth as nat, p, m, b@, spec_go_back(b@)); }
                        b.go_back();
                        if v >= beta {
                            self.memo.insert(b.hash(), v, TransFlag::LOWER_BOUND, depth, Some(m));
                            return v;
                        }
                        if v > alpha {
                            return self.search_moves(b, ms, v, beta, depth, prev, Some(m), Some(m), true, Ghost(s), Ghost(p + 1));
                        }
                        return self.search_moves(b, ms, alpha, beta, depth, prev, Some(m), best, exact, Ghost(s), Ghost(p + 1));
                    },
                    None => {},
                }
            },
            None => {},
        }
        self.search_moves(b, ms, alpha, beta, depth, prev, None, best, exact, Ghost(s), Ghost(p))
    }

    /// The sorted moves of `s`, as `killer_moves` gives them.
    fn search_moves(&mut self, b: &mut Board, ms: Moves, a_in: Score, beta: Score, depth: usize,
        prev: Option<Move>, kill: Option<Move>, best_in: Option<Move>, exact_in: bool,
        Ghost(s): Ghost<BoardState>, Ghost(p_in): Ghost<int>) -> (r: Score)
        requires
            stage_ok(s, depth as nat, old(b)@, p_in), ms.0@ == spec_moves(s),
            -infinity() <= a_in <= infinity(), -infinity() <= beta <= infinity(),
            entries_in_range(old(self)@.0.0),
        ensures
            ({
                let k = killer_moves(s, a_in as int, beta as int, depth as nat, prev, kill, best_in, exact_in, p_in, 0, old(self)@);
                &&& r == k.0
                &&& final(self)@ == k.1
                &&& final(b)@ == with_hash(s, k.2)
                &&& (k.2 == s.zobrist.hash || k.2 == s.hashes[s.counter as int])
            }),
            -infinity() <= r <= infinity(),
            entries_in_range(final(self)@.0.0),
            final(self).depth == old(self).depth,
        decreases depth, 1nat,
    {
        proof {
            lemma_white_sorted(s);
            lemma_own_hash(s);
            assert(same_position(s, b@));
            lemma_same_position_rules(s, b@);
        }
        let mut ms = ms;
        if ms.len() == 0 {
            return b.symmetric_end_score();
        }
        ms.sort_by_heuristic(Color::White);
        let ghost mut p = p_in;
        let mut alpha = a_in;
        let mut best = best_in;
        let mut exact = exact_in;
        let mut i: usize = 0;
        while i < ms.len()
            invariant
                stage_ok(s, depth as nat, b@, p), ms.0@ == white_sorted(s), ms.0@.len() == spec_moves(s).len(),
                ms.0@.len() > 0,
                forall|k: int| 0 <= k < ms.0@.len() ==> spec_moves(s).contains(#[trigger] ms.0@[k]),
                i <= ms.0@.len(),
                -infinity() <= alpha <= infinity(), -infinity() <= beta <= infinity(),
                entries_in_range(self@.0.0), self.depth == old(self).depth,
                killer_moves(s, a_in as int, beta as int, depth as nat, prev, kill, best_in, exact_in, p_in, 0, old(self)@)
                    == killer_moves(s, alpha as int, beta as int, depth as nat, prev, kill, best, exact, p, i as nat, self@),
            decreases ms.0@.len() - i,
        {
            let m = ms.0[i];
            if holds(prev, m) || holds(kill, m) {
                i += 1;
                continue;
            }
            proof { lemma_step_move(s, depth as nat, p, m); }
            b.move_piece(&m);
            let v = -self.alphabeta(b, -beta, -alpha, depth - 1);
            proof { lemma_back_move(s, depth as nat, p, m, b@, spec_go_back(b@)); }
            b.go_back();
            if v >= beta {
self.killerray.put(m, b.counter());
                self.memo.insert(b.hash(), v, TransFlag::LOWER_BOUND, depth, Some(m));
                return v;
            }
            if v > alpha {
                alpha = v;
                exact = true;
                best = Some(m);
            }
            proof { p = p + 1; }
            i += 1;
        }
        let flag = if exact { TransFlag::EXACT } else { TransFlag::UPPER_BOUND };
        self.memo.insert(b.hash(), alpha, flag, depth, best);
        alpha
    }
}

impl NegaAlphaKiller {
    /// The depth the bot searches to.
    pub closed spec fn search_depth(&self) -> usize {
        self.depth
    }

    /// Searches `b`, then walks the memo's best moves from `b`, at most as many as the
    /// search depth.
    pub fn principal_variation(&mut self, b: Board) -> (r: Moves)
        requires old(self).can_search(b@),
        ensures ({
            let k = killer_pick(b@, old(self).search_depth() as nat, old(self)@);
            let w = pv_walk(b@, old(self).search_depth() as nat, k.1.0);
            &&& r.0@ == w.0
            &&& final(self)@ == (w.1, k.1.1)
        }),
    {
        let _m: Move = self.search(b.clone_board());
        walk_memo(&mut self.memo, b, self.depth)
    }

    /// The memo holds finitely many entries.
    pub proof fn lemma_finite(&self)
        ensures self@.0.0.dom().finite(),
    {
        self.memo.lemma_finite();
    }
}

impl AI for NegaAlphaKiller {
    closed spec fn can_search(&self, s: BoardState) -> bool {
        &&& self.depth >= 1
        &&& searchable(s, self.depth as nat)
        &&& spec_moves(s).len() > 0
        &&& entries_in_range(self@.0.0)
    }

    /// The move `search` takes, and the tables it leaves, as `killer_pick` gives them at the bot's
    /// depth; the depth is kept.
    open spec fn picks(&self, s: BoardState, m: Move, after: Self) -> bool {
        let k = killer_pick(s, self.search_depth() as nat, self@);
        &&& m == k.0
        &&& after@ == k.1
        &&& after.search_depth() == self.search_depth()
    }

    fn new() -> (r: Self)
        ensures
            r@.0 == (Map::<Key, Transposition>::empty(), true),
            r@.1.len() == SIZE,
            forall|i: int| 0 <= i < SIZE ==> r@.1[i] is None,
    {
        NegaAlphaKiller { memo: MemoMap::new(), depth: INITIAL_DEPTH, killerray: Killerray::new() }
    }

    /// Searches `b` with the full window, cleans the memo, and takes the best move
    /// remembered for the board; where none of the moves of `b` is remembered there, the
    /// first move.
    fn search(&mut self, b: Board) -> (m: Move)
        ensures
            ({
                let k = killer_pick(b@, old(self).search_depth() as nat, old(self)@);
                &&& m == k.0
                &&& final(self)@ == k.1
            }),
            entries_in_range(final(self)@.0.0),
    {
        let ghost b_entry = b;
        let mut b = b;
        let ghost s = b@;
        let _value: Score = self.alphabeta(&mut b, -INFINITY, INFINITY, self.depth);
        let ghost before_clean = self@;
        self.memo.clean();
        proof {
            assert(same_position(s, b@));
            lemma_same_position_rules(s, b@);
            assert(self@.0.0 =~= fresh_part(before_clean.0.0, before_clean.0.1));
        }
        let ms = b.moves();
        let h = b.hash();
        let found: Option<Move> = match self.memo.get(&h) {
            Some(t) => t.best,
            None => None,
        };
        match found {
            Some(m0) => {
                match find_move(&ms, &m0) {
                    Some(m) => {
                        proof { lemma_find_same(spec_moves(s), m0, 0); }
                        return m;
                    },
                    None => {},
                }
            },
            None => {},
        }
        ms.0[0]
    }

    fn set_depth(&mut self, depth: usize)
        ensures final(self).search_depth() == depth, final(self)@ == old(self)@,
    {
        self.depth = depth;
    }

    fn get_name(&self) -> (r: &str)
        ensures r@ == "NegaAlphaKiller"@,
    {
        "NegaAlphaKiller"
    }
}

} // verus!
