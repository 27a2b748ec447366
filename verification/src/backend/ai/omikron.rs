use vstd::prelude::*;
use crate::backend::board::{Board, Move, Score, INFINITY, BoardState, with_hash, spec_move_piece,
    spec_draw_by_repetition, spec_go_back};
use crate::backend::board_representation::movement::{Moves, spec_sort_by_heuristic};
use crate::backend::piece::Color;
use crate::backend::rules::{spec_moves, spec_end_score, spec_in_check};
use crate::backend::search::{searchable, board_before, lemma_step_move, lemma_back_move, lemma_searchable_same,
    infinity};
use crate::ai::structures::killerray::{Killerray, SIZE};
use super::structures::memomap::{MemoMap, Key, Transposition, TransFlag, memo_read, memo_write};
use super::structures::database::{Database, entry_ok};
use super::negaalphakiller::{Tables, find_same, holds_same, stage_ok, find_move, holds, lemma_find_same,
    lemma_own_hash};
use super::negaquiescence::{quiet_of, lemma_quiet_top};
use super::pvs::{side_sorted, lemma_side_sorted, cuts, improves, cut_flag, null_window};
use super::interface::AI;
use crate::backend::positions::{same_position, lemma_same_position_rules};

verus! {

pub const INITIAL_DEPTH: usize = 99;

/// The time a search may take, in seconds.
pub const INITIAL_TIME: u64 = 10;

#[verifier::external_type_specification]
#[verifier::external_body]
pub struct ExInstant(std::time::Instant);

/// `Instant::now`: the time the search starts at. Nothing is stated of it.
#[verifier::external_body]
fn clock_start() -> std::time::Instant {
    std::time::Instant::now()
}

/// `Instant::elapsed`, in whole seconds (`Duration::as_secs`): how long ago `start` was.
/// It depends on the time, so nothing is stated of it.
#[verifier::external_body]
fn elapsed_secs(start: &std::time::Instant) -> u64 {
    start.elapsed().as_secs()
}

/// The search with a memo, killer moves, a null window for every move after the first,
/// a quiescence estimate at the last move that also looks on when the side is in check,
/// and a clock: from depth 6 up, a search stops taking further moves once its time is up.
pub struct Omikron {
    memo: MemoMap,
    depth: usize,
    killerray: Killerray<Move>,
    time: u64,
    database: Database,
}

impl View for Omikron {
    type V = Tables;

    closed spec fn view(&self) -> Tables {
        (self.memo@, self.killerray@)
    }
}

/// The quiescence estimate of `s` (from White's point of view), for the maximizing side
/// against `bound` as beta, for the minimizing side against `bound` as alpha: the
/// evaluation when it already reaches the bound and the side to move is not in check; the
/// end score without moves; the evaluation when no move goes to an unattacked square;
/// otherwise the evaluation after the best of those moves for the side.
pub open spec fn omikron_quiet(s: BoardState, bound: int, maxim: bool) -> int {
    let stand = s.scores[s.counter as int] as int;
    let q = quiet_of(s, spec_moves(s));
    if ((maxim && stand >= bound) || (!maxim && stand <= bound)) && !spec_in_check(s) {
        stand
    } else if spec_moves(s).len() == 0 {
        spec_end_score(s)
    } else if q.len() == 0 {
        stand
    } else {
        stand + spec_sort_by_heuristic(q, if maxim { Color::White } else { Color::Black })[0].heuristic_value
    }
}

/// Whether `v` beats the best value so far: higher for the maximizing side, lower otherwise.
pub open spec fn better(maxim: bool, v: int, best: int) -> bool {
    if maxim { v > best } else { v < best }
}

/// What the search gives for `s`, White maximizing when `maxim`, window (alpha, beta),
/// `depth` moves deep, from the tables `t`, where the clock does not run out: the value, the
/// tables afterwards, and the hash of the board it ends on. A draw by repetition is worth 0
/// and stored as exact at depth 999; the quiescence estimate at depth 1. Otherwise the
/// memo entry of the hash of `s` is read: searched at least as deep, an exact value, a lower
/// bound of at least beta or an upper bound of at most alpha is returned; searched less
/// deep, its best move, when it is one of the moves of `s`, is searched first and gives the
/// best value so far. Then the killer stage (`omikron_killer`).
pub open spec fn omikron_search(s: BoardState, alpha: int, beta: int, depth: nat, maxim: bool, t: Tables)
    -> (int, Tables, i64)
    decreases depth, 4nat, 0nat,
{
    let h = s.zobrist.hash;
    let init = if maxim { -infinity() } else { infinity() };
    if spec_draw_by_repetition(s) {
        (0, (memo_write(t.0, h, 0, TransFlag::EXACT, 999, None), t.1), h)
    } else if depth <= 1 {
        (omikron_quiet(s, if maxim { beta } else { alpha }, maxim), t, h)
    } else {
        let rd = memo_read(t.0, h);
        let t1 = (rd.1, t.1);
        if rd.0 is Some && rd.0->0.depth >= depth {
            let e = rd.0->0;
            if e.flag == TransFlag::EXACT
                || (e.flag == TransFlag::LOWER_BOUND && e.value >= beta)
                || (e.flag == TransFlag::UPPER_BOUND && e.value <= alpha) {
                (e.value as int, t1, h)
            } else {
                omikron_killer(s, alpha, beta, depth, maxim, None, None, false, init, 0, t1)
            }
        } else if rd.0 is Some && rd.0->0.best is Some && find_same(spec_moves(s), rd.0->0.best->0, 0) is Some {
            let m = find_same(spec_moves(s), rd.0->0.best->0, 0)->0;
            let c = omikron_search(spec_move_piece(s, m), alpha, beta, (depth - 1) as nat, !maxim, t1);
            let v = c.0;
            let back = board_before(s, 1).zobrist.hash;
            if cuts(maxim, v, alpha, beta) {
                (v, (memo_write(c.1.0, back, v, cut_flag(maxim), depth, Some(m)),
                    c.1.1.update((s.counter % SIZE) as int, Some(m))), back)
            } else if improves(maxim, v, alpha, beta) {
                let a2 = if maxim { v } else { alpha };
                let b2 = if maxim { beta } else { v };
                omikron_killer(s, a2, b2, depth, maxim, Some(m), Some(m), true, v, 1, c.1)
            } else {
                omikron_killer(s, alpha, beta, depth, maxim, Some(m), None, false, v, 1, c.1)
            }
        } else {
            omikron_killer(s, alpha, beta, depth, maxim, None, None, false, init, 0, t1)
        }
    }
}

/// The killer stage, with `bs` the best value so far: the killer move of the depth, when it
/// is one of the moves of `s` and not the remembered move, is searched next. A value that
/// beats `bs` becomes the best value; if it also cuts the search off it is returned, stored
/// as a bound (the maximizing side stores the best value from before it); an improving value
/// narrows the window. Then the first sorted move (`omikron_first`).
pub open spec fn omikron_killer(s: BoardState, alpha: int, beta: int, depth: nat, maxim: bool, prev: Option<Move>,
    best: Option<Move>, exact: bool, bs: int, p: int, t: Tables) -> (int, Tables, i64)
    decreases depth, 3nat, 0nat,
{
    let km = t.1[(s.counter % SIZE) as int];
    if depth == 0 {
        (0, t, 0)
    } else if km is Some && find_same(spec_moves(s), km->0, 0) is Some
        && !holds_same(prev, find_same(spec_moves(s), km->0, 0)->0) {
        let m = find_same(spec_moves(s), km->0, 0)->0;
        let c = omikron_search(spec_move_piece(board_before(s, p), m), alpha, beta, (depth - 1) as nat, !maxim, t);
        let v = c.0;
        let back = board_before(s, p + 1).zobrist.hash;
        if better(maxim, v, bs) {
            if cuts(maxim, v, alpha, beta) {
                let stored = if maxim { bs } else { v };
                (v, (memo_write(c.1.0, back, stored, cut_flag(maxim), depth, Some(m)), c.1.1), back)
            } else if improves(maxim, v, alpha, beta) {
                let a2 = if maxim { v } else { alpha };
                let b2 = if maxim { beta } else { v };
                omikron_first(s, a2, b2, depth, maxim, prev, Some(m), Some(m), true, v, p + 1, c.1)
            } else {
                omikron_first(s, alpha, beta, depth, maxim, prev, Some(m), best, exact, v, p + 1, c.1)
            }
        } else {
            omikron_first(s, alpha, beta, depth, maxim, prev, Some(m), best, exact, bs, p + 1, c.1)
        }
    } else {
        omikron_first(s, alpha, beta, depth, maxim, prev, None, best, exact, bs, p, t)
    }
}

/// The first sorted move: the end score when `s` has no move; when neither a remembered nor
/// a killer move was searched, the first sorted move is searched with the full window; a
/// value that beats the best so far and improves the window either cuts the search off or
/// narrows the window. Then the others (`omikron_rest`).
pub open spec fn omikron_first(s: BoardState, alpha: int, beta: int, depth: nat, maxim: bool, prev: Option<Move>,
    kill: Option<Move>, best: Option<Move>, exact: bool, bs: int, p: int, t: Tables) -> (int, Tables, i64)
    decreases depth, 2nat, 0nat,
{
    if depth == 0 {
        (0, t, 0)
    } else if side_sorted(s, maxim).len() == 0 {
        (spec_end_score(s), t, board_before(s, p).zobrist.hash)
    } else if prev is None && kill is None {
        let m = side_sorted(s, maxim)[0];
        let c = omikron_search(spec_move_piece(board_before(s, p), m), alpha, beta, (depth - 1) as nat, !maxim, t);
        let v = c.0;
        let back = board_before(s, p + 1).zobrist.hash;
        if better(maxim, v, bs) {
            if improves(maxim, v, alpha, beta) {
                if cuts(maxim, v, alpha, beta) {
                    (v, (memo_write(c.1.0, back, v, cut_flag(maxim), depth, Some(m)),
                        c.1.1.update((s.counter % SIZE) as int, Some(m))), back)
                } else {
                    let a2 = if maxim { v } else { alpha };
                    let b2 = if maxim { beta } else { v };
                    omikron_rest(s, a2, b2, depth, maxim, prev, kill, Some(m), true, v, p + 1, 1, c.1)
                }
            } else {
                omikron_rest(s, alpha, beta, depth, maxim, prev, kill, best, exact, v, p + 1, 1, c.1)
            }
        } else {
            omikron_rest(s, alpha, beta, depth, maxim, prev, kill, best, exact, bs, p + 1, 1, c.1)
        }
    } else {
        omikron_rest(s, alpha, beta, depth, maxim, prev, kill, best, exact, bs, p, 0, t)
    }
}

/// The sorted moves from the `i`-th on, skipping the remembered and the killer move: each is
/// searched with the null window, and again with the full window when its value falls
/// strictly inside it, an improving value of that search narrowing the window; a value that
/// beats the best so far becomes it, and one that also cuts the search off stores the move
/// as killer (at the move counter for the maximizing side, at the depth for the other) and
/// as a bound, and is returned. At the end alpha (maximizing) or beta is stored, and the
/// best value is returned.
pub open spec fn omikron_rest(s: BoardState, alpha: int, beta: int, depth: nat, maxim: bool, prev: Option<Move>,
    kill: Option<Move>, best: Option<Move>, exact: bool, bs: int, p: int, i: nat, t: Tables) -> (int, Tables, i64)
    decreases depth, 1nat, side_sorted(s, maxim).len() - i,
{
    let here = board_before(s, p).zobrist.hash;
    if depth == 0 {
        (0, t, 0)
    } else if i >= side_sorted(s, maxim).len() {
        let flag = if exact { TransFlag::EXACT } else if maxim { TransFlag::UPPER_BOUND } else { TransFlag::LOWER_BOUND };
        let stored = if maxim { alpha } else { beta };
        (bs, (memo_write(t.0, here, stored, flag, depth, best), t.1), here)
    } else {
        let m = side_sorted(s, maxim)[i as int];
        if holds_same(prev, m) || holds_same(kill, m) {
            omikron_rest(s, alpha, beta, depth, maxim, prev, kill, best, exact, bs, p, i + 1, t)
        } else {
            let child = spec_move_piece(board_before(s, p), m);
            let nw = null_window(maxim, alpha, beta);
            let c1 = omikron_search(child, nw.0, nw.1, (depth - 1) as nat, !maxim, t);
            let back = board_before(s, p + 1).zobrist.hash;
            let slot = if maxim { (s.counter % SIZE) as int } else { (depth % (SIZE as nat)) as int };
            let research = c1.0 > alpha && c1.0 < beta;
            let c2 = omikron_search(with_hash(child, c1.2), alpha, beta, (depth - 1) as nat, !maxim, c1.1);
            let v = if research { c2.0 } else { c1.0 };
            let tt = if research { c2.1 } else { c1.1 };
            let up = research && improves(maxim, v, alpha, beta);
            let a2 = if maxim && up { v } else { alpha };
            let b2 = if !maxim && up { v } else { beta };
            let best2 = if up { Some(m) } else { best };
            let exact2 = up || exact;
            if better(maxim, v, bs) && cuts(maxim, v, alpha, beta) {
                (v, (memo_write(tt.0, back, v, cut_flag(maxim), depth, Some(m)), tt.1.update(slot, Some(m))), back)
            } else {
                let bs2 = if better(maxim, v, bs) { v } else { bs };
                omikron_rest(s, a2, b2, depth, maxim, prev, kill, best2, exact2, bs2, p + 1, i + 1, tt)
            }
        }
    }
}


/// Whether the time `limit` (in seconds) since `start` is up.
fn time_is_up(start: &std::time::Instant, limit: u64) -> bool {
    elapsed_secs(start) >= limit
}

impl Omikron {
    /// The quiescence estimate of `b`, as `omikron_quiet` gives it.
    fn quiet(&mut self, b: &mut Board, bound: Score, maxim: bool) -> (r: Score)
        requires searchable(old(b)@, 1),
        ensures
            r == omikron_quiet(old(b)@, bound as int, maxim),
            final(b)@ == old(b)@,
            *final(self) == *old(self),
    {
        let stand_pat = b.heuristic_value();
        if ((maxim && stand_pat >= bound) || (!maxim && stand_pat <= bound)) && !b.is_check() {
            return stand_pat;
        }
        let ghost s = b@;
        let ms = b.moves();
        if ms.len() == 0 {
            return b.end_score();
        }
        let mut quiet = Moves(Vec::new());
        let mut i: usize = 0;
        while i < ms.0.len()
            invariant
                b@ == s, searchable(s, 1), ms.0@ == spec_moves(s), i <= ms.0@.len(),
                quiet.0@ == quiet_of(s, ms.0@.take(i as int)),
            decreases ms.0@.len() - i,
        {
            let m = ms.0[i];
            proof {
                assert(ms.0@.take(i as int + 1).drop_last() =~= ms.0@.take(i as int));
                assert(ms.0@.take(i as int + 1).last() == m);
                assert(crate::backend::board::move_ok(s, spec_moves(s)[i as int]));
            }
            if !b.is_threatened(&m.to) {
                quiet.0.push(m);
            }
            i += 1;
        }
        proof { assert(ms.0@.take(ms.0@.len() as int) =~= ms.0@); }
        if quiet.len() == 0 {
            return stand_pat;
        }
        let ghost q = quiet.0@;
        let c = if maxim { Color::White } else { Color::Black };
        quiet.sort_by_heuristic(c);
        proof {
            lemma_quiet_top(s, c);
            let top = spec_sort_by_heuristic(q, c)[0];
            let j = choose|j: int| 0 <= j < spec_moves(s).len() && spec_moves(s)[j] == top;
            assert(crate::backend::board::move_ok(s, spec_moves(s)[j]));
            let child = spec_move_piece(s, spec_moves(s)[j]);
            assert(searchable(child, 0));
            assert(quiet.0@[0] == top);
            assert(crate::backend::board::wf(s));
            reveal(spec_move_piece);
            assert(child.counter == s.counter + 1);
            assert(child.scores == s.scores.push((s.scores[s.counter as int] + spec_moves(s)[j].heuristic_value) as Score));
            assert(child.scores[child.counter as int] == (s.scores[s.counter as int] + top.heuristic_value) as Score);
        }
        b.heuristic_value() + quiet.0[0].heuristic_value
    }

    /// The value of `b` with window (alpha, beta), `depth` moves deep, White maximizing when
    /// `maxim`, and whether the clock started at `start` ran out during the search. Where it
    /// did not, the value and the tables left are as `omikron_search` gives them; where it
    /// did, the searches that stopped returned their best value so far, and nothing more is
    /// stated of the value and the tables.
    fn search_node(&mut self, b: &mut Board, alpha: Score, beta: Score, depth: usize, maxim: bool,
        start: &std::time::Instant) -> (r: (Score, bool))
        requires searchable(old(b)@, depth as nat), depth >= 1,
        ensures
            !r.1 ==> ({
                let k = omikron_search(old(b)@, alpha as int, beta as int, depth as nat, maxim, old(self)@);
                &&& r.0 == k.0
                &&& final(self)@ == k.1
                &&& final(b)@ == with_hash(old(b)@, k.2)
            }),
            final(b)@ == old(b)@ || final(b)@ == with_hash(old(b)@, old(b)@.hashes[old(b)@.counter as int]),
            final(self).depth == old(self).depth, final(self).time == old(self).time,
            final(self).database == old(self).database,
        decreases depth, 4nat,
    {
        proof { lemma_own_hash(b@); }
        if b.is_draw_by_repetition() {
            self.memo.insert(b.hash(), 0, TransFlag::EXACT, 999, None);
            return (0, false);
        }
        if depth <= 1 {
            return (self.quiet(b, if maxim { beta } else { alpha }, maxim), false);
        }
        let ghost s = b@;
        let ghost t0 = self@;
        let h = b.hash();
        let found: Option<Transposition> = match self.memo.get(&h) {
            Some(t) => Some(*t),
            None => None,
        };
        assert(memo_read(t0.0, h).0 == found && self@ == (memo_read(t0.0, h).1, t0.1));
        let ms = b.moves();
        let init: Score = if maxim { -INFINITY } else { INFINITY };
        match found {
            Some(t) => {
                if t.depth >= depth {
                    if t.flag == TransFlag::EXACT
                        || (t.flag == TransFlag::LOWER_BOUND && t.value >= beta)
                        || (t.flag == TransFlag::UPPER_BOUND && t.value <= alpha) {
                        return (t.value, false);
                    }
                    return self.killer_stage(b, ms, alpha, beta, depth, maxim, None, None, false, init, start, Ghost(s), Ghost(0));
                }
                match t.best {
                    Some(m0) => {
                        match find_move(&ms, &m0) {
                            Some(m) => {
                                proof {
                                    lemma_find_same(spec_moves(s), m0, 0);
                                    lemma_step_move(s, depth as nat, 0, m);
                                }
                                b.move_piece(&m);
                                let (v, stop) = self.search_node(b, alpha, beta, depth - 1, !maxim, start);
                                proof { lemma_back_move(s, depth as nat, 0, m, b@, spec_go_back(b@)); }
                                b.go_back();
                                if (maxim && v >= beta) || (!maxim && v <= alpha) {
                                    self.killerray.put(m, b.counter());
                                    let flag = if maxim { TransFlag::LOWER_BOUND } else { TransFlag::UPPER_BOUND };
                                    self.memo.insert(b.hash(), v, flag, depth, Some(m));
                                    return (v, stop);
                                }
                                let r = if maxim && v > alpha {
                                    self.killer_stage(b, ms, v, beta, depth, maxim, Some(m), Some(m), true, v, start, Ghost(s), Ghost(1))
                                } else if !maxim && v < beta {
                                    self.killer_stage(b, ms, alpha, v, depth, maxim, Some(m), Some(m), true, v, start, Ghost(s), Ghost(1))
                                } else {
                                    self.killer_stage(b, ms, alpha, beta, depth, maxim, Some(m), None, false, v, start, Ghost(s), Ghost(1))
                                };
                                return (r.0, r.1 || stop);
                            },
                            None => {},
                        }
                    },
                    None => {},
                }
            },
            None => {},
        }
        self.killer_stage(b, ms, alpha, beta, depth, maxim, None, None, false, init, start, Ghost(s), Ghost(0))
    }

    /// The killer stage of the search of `s`, as `omikron_killer` gives it where the clock
    /// does not run out.
    fn killer_stage(&mut self, b: &mut Board, ms: Moves, alpha: Score, beta: Score, depth: usize, maxim: bool,
        prev: Option<Move>, best: Option<Move>, exact: bool, bs: Score, start: &std::time::Instant,
        Ghost(s): Ghost<BoardState>, Ghost(p): Ghost<int>) -> (r: (Score, bool))
        requires
            stage_ok(s, depth as nat, old(b)@, p), ms.0@ == spec_moves(s), depth >= 2,
        ensures
            !r.1 ==> ({
                let k = omikron_killer(s, alpha as int, beta as int, depth as nat, maxim, prev, best, exact, bs as int, p, old(self)@);
                &&& r.0 == k.0
                &&& final(self)@ == k.1
                &&& final(b)@ == with_hash(s, k.2)
            }),
            final(b)@ == s || final(b)@ == with_hash(s, s.hashes[s.counter as int]),
            final(self).depth == old(self).depth, final(self).time == old(self).time,
            final(self).database == old(self).database,
        decreases depth, 3nat,
    {
        proof { lemma_own_hash(s); }
        let km = *self.killerray.get(b.counter());
        match km {
            Some(m0) => {
                match find_move(&ms, &m0) {
                    Some(m) => if !holds(prev, m) {
                        proof {
                            lemma_find_same(spec_moves(s), m0, 0);
                            lemma_step_move(s, depth as nat, p, m);
                        }
                        b.move_piece(&m);
                        let (v, stop) = self.search_node(b, alpha, beta, depth - 1, !maxim, start);
                        proof { lemma_back_move(s, depth as nat, p, m, b@, spec_go_back(b@)); }
                        b.go_back();
                        if (maxim && v > bs) || (!maxim && v < bs) {
                            if (maxim && v >= beta) || (!maxim && v <= alpha) {
                                let flag = if maxim { TransFlag::LOWER_BOUND } else { TransFlag::UPPER_BOUND };
                                let stored = if maxim { bs } else { v };
                                self.memo.insert(b.hash(), stored, flag, depth, Some(m));
                                return (v, stop);
                            }
                            let r = if maxim && v > alpha {
                                self.search_moves(b, ms, v, beta, depth, maxim, prev, Some(m), Some(m), true, v, start, Ghost(s), Ghost(p + 1))
                            } else if !maxim && v < beta {
                                self.search_moves(b, ms, alpha, v, depth, maxim, prev, Some(m), Some(m), true, v, start, Ghost(s), Ghost(p + 1))
                            } else {
                                self.search_moves(b, ms, alpha, beta, depth, maxim, prev, Some(m), best, exact, v, start, Ghost(s), Ghost(p + 1))
                            };
                            return (r.0, r.1 || stop);
                        }
                        let r = self.search_moves(b, ms, alpha, beta, depth, maxim, prev, Some(m), best, exact, bs, start, Ghost(s), Ghost(p + 1));
                        return (r.0, r.1 || stop);
                    },
                    None => {},
                }
            },
            None => {},
        }
        self.search_moves(b, ms, alpha, beta, depth, maxim, prev, None, best, exact, bs, start, Ghost(s), Ghost(p))
    }
}


impl Omikron {
    /// The sorted moves of `s`, as `omikron_first` gives them where the clock does not run
    /// out; from depth 6 up, the clock is asked before each move after the first, and once
    /// the time is up the best value so far is returned.
    #[verifier::rlimit(60)]
    #[verifier::spinoff_prover]
    fn search_moves(&mut self, b: &mut Board, ms: Moves, a_in: Score, b_in: Score, depth: usize, maxim: bool,
        prev: Option<Move>, kill: Option<Move>, best_in: Option<Move>, exact_in: bool, bs_in: Score,
        start: &std::time::Instant, Ghost(s): Ghost<BoardState>, Ghost(p_in): Ghost<int>) -> (r: (Score, bool))
        requires
            stage_ok(s, depth as nat, old(b)@, p_in), ms.0@ == spec_moves(s), depth >= 2,
        ensures
            !r.1 ==> ({
                let k = omikron_first(s, a_in as int, b_in as int, depth as nat, maxim, prev, kill, best_in, exact_in,
                    bs_in as int, p_in, old(self)@);
                &&& r.0 == k.0
                &&& final(self)@ == k.1
                &&& final(b)@ == with_hash(s, k.2)
            }),
            final(b)@ == s || final(b)@ == with_hash(s, s.hashes[s.counter as int]),
            final(self).depth == old(self).depth, final(self).time == old(self).time,
            final(self).database == old(self).database,
        decreases depth, 2nat,
    {
        proof {
            lemma_side_sorted(s, maxim);
            lemma_own_hash(s);
            assert(same_position(s, b@));
            lemma_same_position_rules(s, b@);
        }
        let mut ms = ms;
        if ms.len() == 0 {
            return (b.end_score(), false);
        }
        let c = if maxim { Color::White } else { Color::Black };
        ms.sort_by_heuristic(c);
        let ghost mut p = p_in;
        let mut alpha = a_in;
        let mut beta = b_in;
        let mut best = best_in;
        let mut exact = exact_in;
        let mut bs = bs_in;
        let mut stopped = false;
        let mut i: usize = 0;
        if prev.is_none() && kill.is_none() {
            let m = ms.0[0];
            proof { lemma_step_move(s, depth as nat, p, m); }
            b.move_piece(&m);
            let (v, stop) = self.search_node(b, alpha, beta, depth - 1, !maxim, start);
            proof { lemma_back_move(s, depth as nat, p, m, b@, spec_go_back(b@)); }
            b.go_back();
            stopped = stop;
            if (maxim && v > bs) || (!maxim && v < bs) {
                if (maxim && v > alpha) || (!maxim && v < beta) {
                    if (maxim && v >= beta) || (!maxim && v <= alpha) {
                        self.killerray.put(m, b.counter());
                        let flag = if maxim { TransFlag::LOWER_BOUND } else { TransFlag::UPPER_BOUND };
                        self.memo.insert(b.hash(), v, flag, depth, Some(m));
                        return (v, stopped);
                    }
                    if maxim {
                        alpha = v;
                    } else {
                        beta = v;
                    }
                    best = Some(m);
                    exact = true;
                }
                bs = v;
            }
            proof { p = p + 1; }
            i = 1;
        }
        while i < ms.len()
            invariant
                stage_ok(s, depth as nat, b@, p), depth >= 2, ms.0@ == side_sorted(s, maxim),
                ms.0@.len() == spec_moves(s).len(), ms.0@.len() > 0,
                forall|k: int| 0 <= k < ms.0@.len() ==> spec_moves(s).contains(#[trigger] ms.0@[k]),
                i <= ms.0@.len(),
                self.depth == old(self).depth, self.time == old(self).time, self.database == old(self).database,
                !stopped ==> omikron_first(s, a_in as int, b_in as int, depth as nat, maxim, prev, kill, best_in, exact_in,
                    bs_in as int, p_in, old(self)@)
                    == omikron_rest(s, alpha as int, beta as int, depth as nat, maxim, prev, kill, best, exact,
                        bs as int, p, i as nat, self@),
            decreases ms.0@.len() - i,
        {
            if depth >= 6 && time_is_up(start, self.time) {
                return (bs, true);
            }
            let m = ms.0[i];
            if holds(prev, m) || holds(kill, m) {
                i += 1;
                continue;
            }
            proof { lemma_step_move(s, depth as nat, p, m); }
            let ghost child = spec_move_piece(board_before(s, p), m);
            let a0 = alpha;
            let b0 = beta;
            b.move_piece(&m);
            let mut na = alpha;
            let mut nb = beta;
            if maxim {
                nb = if alpha < i32::MAX { alpha + 1 } else { alpha };
            } else {
                na = if beta > i32::MIN { beta - 1 } else { beta };
            }
            let (v1, stop1) = self.search_node(b, na, nb, depth - 1, !maxim, start);
            let mut v = v1;
            if stop1 {
                stopped = true;
            }
            if v > alpha && v < beta {
                proof {
                    lemma_searchable_same(child, b@, (depth - 1) as nat);
                }
                let (v2, stop2) = self.search_node(b, alpha, beta, depth - 1, !maxim, start);
                v = v2;
                if stop2 {
                    stopped = true;
                }
                if (maxim && v > alpha) || (!maxim && v < beta) {
                    if maxim {
                        alpha = v;
                    } else {
                        beta = v;
                    }
                    exact = true;
                    best = Some(m);
                }
            }
            proof { lemma_back_move(s, depth as nat, p, m, b@, spec_go_back(b@)); }
            b.go_back();
            if (maxim && v > bs) || (!maxim && v < bs) {
                if (maxim && v >= b0) || (!maxim && v <= a0) {
                    if maxim {
                        self.killerray.put(m, b.counter());
                    } else {
                        self.killerray.put(m, depth);
                    }
                    let flag = if maxim { TransFlag::LOWER_BOUND } else { TransFlag::UPPER_BOUND };
                    self.memo.insert(b.hash(), v, flag, depth, Some(m));
                    return (v, stopped);
                }
                bs = v;
            }
            proof { p = p + 1; }
            i += 1;
        }
        let flag = if exact { TransFlag::EXACT } else if maxim { TransFlag::UPPER_BOUND } else { TransFlag::LOWER_BOUND };
        let stored = if maxim { alpha } else { beta };
        self.memo.insert(b.hash(), stored, flag, depth, best);
        (bs, stopped)
    }
}


/// Searchability holds at every smaller depth.
pub proof fn lemma_searchable_less(s: BoardState, d: nat, e: nat)
    requires searchable(s, d), e <= d,
    ensures searchable(s, e),
    decreases d,
{
    if e > 0 {
        assert forall|i: int| 0 <= i < spec_moves(s).len() implies
            searchable(spec_move_piece(s, #[trigger] spec_moves(s)[i]), (e - 1) as nat) by {
            lemma_searchable_less(spec_move_piece(s, spec_moves(s)[i]), (d - 1) as nat, (e - 1) as nat);
        }
    }
}

impl Omikron {
    /// The depth the bot searches to at most.
    pub closed spec fn search_depth(&self) -> usize {
        self.depth
    }

    /// The time a search may take, in seconds.
    pub closed spec fn time_limit(&self) -> u64 {
        self.time
    }

    /// The opening book it plays from.
    pub closed spec fn book(&self) -> Map<i64, Seq<Move>> {
        self.database@
    }

    /// Sets the time a search may take, in seconds.
    pub fn set_time(&mut self, seconds: u64)
        ensures
            final(self).time_limit() == seconds, final(self)@ == old(self)@,
            final(self).search_depth() == old(self).search_depth(), final(self).book() == old(self).book(),
    {
        self.time = seconds;
    }

    /// Sets the opening book it plays from.
    pub fn set_book(&mut self, book: Database)
        ensures
            final(self).book() == book@, final(self)@ == old(self)@,
            final(self).search_depth() == old(self).search_depth(), final(self).time_limit() == old(self).time_limit(),
    {
        self.database = book;
    }
}

impl AI for Omikron {
    closed spec fn can_search(&self, s: BoardState) -> bool {
        &&& searchable(s, self.depth as nat)
        &&& 1 <= self.depth < usize::MAX
        &&& spec_moves(s).len() > 0
        &&& entry_ok(self.database@, s)
    }

    /// The move is one of the moves of `s`, and the depth, the time and the book are kept;
    /// which move depends on the random pick from the book and on the clock.
    open spec fn picks(&self, s: BoardState, m: Move, after: Self) -> bool {
        &&& spec_moves(s).contains(m)
        &&& after.search_depth() == self.search_depth()
        &&& after.time_limit() == self.time_limit()
        &&& after.book() == self.book()
    }

    fn new() -> (r: Self)
        ensures
            r@.0 == (Map::<Key, Transposition>::empty(), true),
            r@.1.len() == SIZE,
            forall|i: int| 0 <= i < SIZE ==> r@.1[i] is None,
            r.search_depth() == INITIAL_DEPTH, r.time_limit() == INITIAL_TIME,
            r.book() == Map::<i64, Seq<Move>>::empty(),
    {
        Omikron { memo: MemoMap::new(), depth: INITIAL_DEPTH, killerray: Killerray::new(), time: INITIAL_TIME,
            database: Database::empty() }
    }

    /// A move from the opening book when it knows the position (and the move is one of the
    /// board's); otherwise searches of growing depth from 2, each with the full window, for
    /// as long as the time allows and up to the bot's depth, and then the best move the
    /// memo remembers for the board (the first move where it remembers none of them).
    fn search(&mut self, b: Board) -> (m: Move)
    {
        let mut b = b;
        let ghost s = b@;
        let ms = b.moves();
        let from_book = self.database.get(&mut b);
        match from_book {
            Some(m0) => {
                match find_move(&ms, &m0) {
                    Some(m) => {
                        proof { lemma_find_same(spec_moves(s), m0, 0); }
                        return m;
                    },
                    None => {},
                }
            },
            None => {},
        }
        let start = clock_start();
        let white = b.color_to_move() == Color::White;
        let mut d: usize = 2;
        while d <= self.depth && !time_is_up(&start, self.time)
            invariant
                b@ == s || b@ == with_hash(s, s.hashes[s.counter as int]),
                searchable(s, self.depth as nat), spec_moves(s).len() > 0,
                self.depth == old(self).depth, self.time == old(self).time, self.database == old(self).database,
                d >= 2, self.depth < usize::MAX,
            decreases self.depth + 1 - d,
        {
            proof {
                lemma_searchable_less(s, self.depth as nat, d as nat);
                lemma_searchable_same(s, b@, d as nat);
            }
            let _r = self.search_node(&mut b, -INFINITY, INFINITY, d, white, &start);
            d += 1;
        }
        self.memo.clean();
        proof {
            assert(same_position(s, b@));
            lemma_same_position_rules(s, b@);
        }
        let ms2 = b.moves();
        let h = b.hash();
        let found: Option<Move> = match self.memo.get(&h) {
            Some(t) => t.best,
            None => None,
        };
        match found {
            Some(m0) => {
                match find_move(&ms2, &m0) {
                    Some(m) => {
                        proof { lemma_find_same(spec_moves(s), m0, 0); }
                        return m;
                    },
                    None => {},
                }
            },
            None => {},
        }
        ms2.0[0]
    }

    fn set_depth(&mut self, depth: usize)
        ensures
            final(self).search_depth() == depth, final(self)@ == old(self)@,
            final(self).time_limit() == old(self).time_limit(), final(self).book() == old(self).book(),
    {
        self.depth = depth;
    }

    fn get_name(&self) -> (r: &str)
        ensures r@ == "Omikron"@,
    {
        "Omikron"
    }
}

} // verus!
