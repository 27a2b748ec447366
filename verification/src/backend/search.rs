use vstd::prelude::*;
use super::board::{BoardState, wf, history_ok, move_ok, move_undoable, spec_move_piece, with_hash,
    spec_draw_by_repetition, spec_symmetric_heuristic, spec_symmetric_end_score, spec_go_back, can_go_back,
    lemma_go_back_undoes_move, lemma_move_piece_wf, lemma_go_back_ignores_hash};
use super::board_representation::movement::{Move, spec_sort_by_heuristic, lemma_sort_by_heuristic};
use super::rules::{spec_moves, moves_ok, spec_end_score};
use super::piece::Color;
use super::positions::{same_position, lemma_same_position_rules, lemma_same_position_move};

verus! {

// What the searches compute, over the boards they visit.

pub open spec fn infinity() -> int {
    2147483647
}

/// The boards a search of depth `d` can run on: valid boards with their history, few enough
/// moves made to score a mate, and, while depth is left, moves that can be generated,
/// made and taken back, leading to such boards.
pub open spec fn searchable(s: BoardState, d: nat) -> bool
    decreases d,
{
    &&& wf(s)
    &&& history_ok(s)
    &&& s.counter <= i32::MAX
    &&& s.scores[s.counter as int] > i32::MIN
    &&& d > 0 ==> {
        &&& moves_ok(s)
        &&& forall|i: int| 0 <= i < spec_moves(s).len() ==> {
            &&& move_ok(s, #[trigger] spec_moves(s)[i])
            &&& move_undoable(s, spec_moves(s)[i])
            &&& searchable(spec_move_piece(s, spec_moves(s)[i]), (d - 1) as nat)
        }
    }
}

/// Searchability depends on the position only, not on the hashes.
pub proof fn lemma_searchable_same(a: BoardState, b: BoardState, d: nat)
    requires same_position(a, b), searchable(a, d),
    ensures searchable(b, d),
    decreases d,
{
    lemma_same_position_rules(a, b);
    if d > 0 {
        assert forall|i: int| 0 <= i < spec_moves(b).len() implies {
            &&& move_ok(b, #[trigger] spec_moves(b)[i])
            &&& move_undoable(b, spec_moves(b)[i])
            &&& searchable(spec_move_piece(b, spec_moves(b)[i]), (d - 1) as nat)
        } by {
            let m = spec_moves(b)[i];
            assert(spec_moves(a)[i] == m);
            lemma_same_position_move(a, b, m);
            lemma_searchable_same(spec_move_piece(a, m), spec_move_piece(b, m), (d - 1) as nat);
        }
    }
}

/// The board a search is back on after its `i`-th move: the first move is made from `s`
/// itself; taking a move back restores the hash recorded for the turn, so the others are
/// made from `s` with that hash.
pub open spec fn board_before(s: BoardState, i: int) -> BoardState {
    if i == 0 { s } else { with_hash(s, s.hashes[s.counter as int]) }
}

/// The minimax value of `s` searched `depth` moves deep, with the side to move maximizing
/// when `maxim` holds: 0 for a draw by repetition, the evaluation at depth 0, the end score
/// when there is no move, otherwise the best value among the moves, in the order generated.
pub open spec fn minimax(s: BoardState, depth: nat, maxim: bool) -> int
    decreases depth, 1nat, 0nat,
{
    if spec_draw_by_repetition(s) {
        0
    } else if depth == 0 {
        s.scores[s.counter as int] as int
    } else if spec_moves(s).len() == 0 {
        spec_end_score(s)
    } else {
        minimax_over(s, depth, maxim, spec_moves(s).len())
    }
}

/// The best minimax value among the first `n` moves of `s` (starting from minus infinity
/// when maximizing, infinity otherwise).
pub open spec fn minimax_over(s: BoardState, depth: nat, maxim: bool, n: nat) -> int
    decreases depth, 0nat, n,
{
    if depth == 0 {
        0
    } else if n == 0 {
        if maxim { -infinity() } else { infinity() }
    } else {
        let prev = minimax_over(s, depth, maxim, (n - 1) as nat);
        let child = spec_move_piece(board_before(s, n - 1), spec_moves(s)[n - 1]);
        let v = minimax(child, (depth - 1) as nat, !maxim);
        if maxim {
            if v > prev { v } else { prev }
        } else {
            if v < prev { v } else { prev }
        }
    }
}

/// The negamax value of `s` searched `depth` moves deep, from the side to move's point of
/// view: its evaluation at depth 0, 0 for a draw by repetition, the end score when there is
/// no move, otherwise the best among the negated values of the moves.
pub open spec fn negamax(s: BoardState, depth: nat) -> int
    decreases depth, 1nat, 0nat,
{
    if depth == 0 {
        spec_symmetric_heuristic(s)
    } else if spec_draw_by_repetition(s) {
        0
    } else if spec_moves(s).len() == 0 {
        spec_symmetric_end_score(s)
    } else {
        negamax_over(s, depth, spec_moves(s).len())
    }
}

pub open spec fn negamax_over(s: BoardState, depth: nat, n: nat) -> int
    decreases depth, 0nat, n,
{
    if depth == 0 {
        0
    } else if n == 0 {
        -infinity()
    } else {
        let prev = negamax_over(s, depth, (n - 1) as nat);
        let v = -negamax(spec_move_piece(board_before(s, n - 1), spec_moves(s)[n - 1]), (depth - 1) as nat);
        if v > prev { v } else { prev }
    }
}

/// Values lie within plus and minus infinity.
pub proof fn lemma_minimax_bounds(s: BoardState, depth: nat, maxim: bool)
    requires searchable(s, depth),
    ensures -infinity() <= minimax(s, depth, maxim) <= infinity(),
    decreases depth, 1nat, 0nat,
{
    if !spec_draw_by_repetition(s) && depth > 0 && spec_moves(s).len() > 0 {
        lemma_minimax_over_bounds(s, depth, maxim, spec_moves(s).len());
    }
}

proof fn lemma_minimax_over_bounds(s: BoardState, depth: nat, maxim: bool, n: nat)
    requires searchable(s, depth), depth > 0, n <= spec_moves(s).len(),
    ensures -infinity() <= minimax_over(s, depth, maxim, n) <= infinity(),
    decreases depth, 0nat, n,
{
    if n > 0 {
        lemma_minimax_over_bounds(s, depth, maxim, (n - 1) as nat);
        let m = spec_moves(s)[n - 1];
        let b = board_before(s, n - 1);
        assert(same_position(s, b));
        lemma_searchable_same(s, b, depth);
        lemma_same_position_rules(s, b);
        assert(spec_moves(b)[n - 1] == m);
        lemma_minimax_bounds(spec_move_piece(b, m), (depth - 1) as nat, !maxim);
    }
}

/// The facts the search loop needs about the `i`-th move of `s` made from `board_before(s, i)`.
pub proof fn lemma_step(s: BoardState, depth: nat, i: int)
    requires searchable(s, depth), depth > 0, 0 <= i < spec_moves(s).len(),
    ensures ({
        let b = board_before(s, i);
        let m = spec_moves(s)[i];
        &&& same_position(b, s)
        &&& searchable(b, depth)
        &&& spec_moves(b)[i] == m
        &&& searchable(spec_move_piece(b, m), (depth - 1) as nat)
    }),
{
    let b = board_before(s, i);
    assert(same_position(s, b));
    lemma_searchable_same(s, b, depth);
    lemma_same_position_rules(s, b);
}

/// After the `i`-th move was made from `board_before(s, i)`, searched (ending on `c`, the
/// board it led to or that board with its recorded hash) and taken back with result `u`,
/// the search is on `board_before(s, i + 1)`.
pub proof fn lemma_back(s: BoardState, depth: nat, i: int, c: BoardState, u: BoardState)
    requires
        searchable(s, depth), depth > 0, 0 <= i < spec_moves(s).len(),
        ({
            let t = spec_move_piece(board_before(s, i), spec_moves(s)[i]);
            c == t || c == with_hash(t, t.hashes[t.counter as int])
        }),
        u == spec_go_back(c),
    ensures
        can_go_back(c),
        wf(c),
        u == board_before(s, i + 1),
{
    lemma_step(s, depth, i);
    let b = board_before(s, i);
    let m = spec_moves(s)[i];
    let t = spec_move_piece(b, m);
    lemma_go_back_undoes_move(b, m);
    lemma_move_piece_wf(b, m);
    assert(same_position(c, t));
    lemma_same_position_rules(c, t);
    if c != t {
        lemma_go_back_ignores_hash(t, t.hashes[t.counter as int]);
    }
    assert(with_hash(b, b.hashes[b.counter as int]) == board_before(s, i + 1));
}

/// Negamax values lie within plus and minus infinity.
pub proof fn lemma_negamax_bounds(s: BoardState, depth: nat)
    requires searchable(s, depth),
    ensures -infinity() <= negamax(s, depth) <= infinity(),
    decreases depth, 1nat, 0nat,
{
    if depth > 0 && !spec_draw_by_repetition(s) && spec_moves(s).len() > 0 {
        lemma_negamax_over_bounds(s, depth, spec_moves(s).len());
    }
}

proof fn lemma_negamax_over_bounds(s: BoardState, depth: nat, n: nat)
    requires searchable(s, depth), depth > 0, n <= spec_moves(s).len(),
    ensures -infinity() <= negamax_over(s, depth, n) <= infinity(),
    decreases depth, 0nat, n,
{
    if n > 0 {
        lemma_negamax_over_bounds(s, depth, (n - 1) as nat);
        lemma_step(s, depth, n - 1);
        lemma_negamax_bounds(spec_move_piece(board_before(s, n - 1), spec_moves(s)[n - 1]), (depth - 1) as nat);
    }
}

/// The facts a search needs about a legal move `m` of `s` made from `board_before(s, i)`.
pub proof fn lemma_step_move(s: BoardState, depth: nat, i: int, m: Move)
    requires searchable(s, depth), depth > 0, spec_moves(s).contains(m),
    ensures ({
        let b = board_before(s, i);
        &&& same_position(b, s)
        &&& searchable(b, depth)
        &&& searchable(spec_move_piece(b, m), (depth - 1) as nat)
    }),
{
    let b = board_before(s, i);
    let j = choose|j: int| 0 <= j < spec_moves(s).len() && spec_moves(s)[j] == m;
    assert(same_position(s, b));
    lemma_searchable_same(s, b, depth);
    lemma_same_position_rules(s, b);
    assert(spec_moves(b)[j] == m);
}

/// After legal move `m` was made from `board_before(s, i)`, searched (ending on `c`, the board
/// it led to or that board with its recorded hash) and taken back with result `u`, the search
/// is on `board_before(s, i + 1)`.
pub proof fn lemma_back_move(s: BoardState, depth: nat, i: int, m: Move, c: BoardState, u: BoardState)
    requires
        searchable(s, depth), depth > 0, spec_moves(s).contains(m), 0 <= i,
        ({
            let t = spec_move_piece(board_before(s, i), m);
            c == t || c == with_hash(t, t.hashes[t.counter as int])
        }),
        u == spec_go_back(c),
    ensures
        can_go_back(c),
        wf(c),
        u == board_before(s, i + 1),
{
    lemma_step_move(s, depth, i, m);
    let b = board_before(s, i);
    let t = spec_move_piece(b, m);
    let j = choose|j: int| 0 <= j < spec_moves(s).len() && spec_moves(s)[j] == m;
    lemma_same_position_rules(s, b);
    assert(spec_moves(b)[j] == m);
    lemma_go_back_undoes_move(b, m);
    lemma_move_piece_wf(b, m);
    assert(same_position(c, t));
    lemma_same_position_rules(c, t);
    if c != t {
        lemma_go_back_ignores_hash(t, t.hashes[t.counter as int]);
    }
    assert(with_hash(b, b.hashes[b.counter as int]) == board_before(s, i + 1));
}

/// The legal moves of `s` sorted best first for the side to move, by their values.
pub open spec fn sorted_moves(s: BoardState) -> Seq<Move> {
    spec_sort_by_heuristic(spec_moves(s), s.color)
}

/// The sorted moves are the legal moves.
pub proof fn lemma_sorted_moves(s: BoardState)
    ensures
        sorted_moves(s).len() == spec_moves(s).len(),
        forall|i: int| 0 <= i < sorted_moves(s).len() ==> spec_moves(s).contains(#[trigger] sorted_moves(s)[i]),
{
    lemma_sort_by_heuristic(spec_moves(s), s.color);
    let a = sorted_moves(s);
    let b = spec_moves(s);
    a.to_multiset_ensures();
    b.to_multiset_ensures();
    assert forall|i: int| 0 <= i < a.len() implies b.contains(#[trigger] a[i]) by {
        assert(a.contains(a[i]));
        assert(a.to_multiset().count(a[i]) > 0);
        assert(b.to_multiset().count(a[i]) > 0);
    }
}

/// What the negamax search with alpha-beta pruning returns for `s`, window (alpha, beta),
/// `depth` moves deep: 0 for a draw by repetition, the evaluation at depth 0, the end score
/// without moves; otherwise the moves, sorted best first, are searched in turn with the
/// window narrowed by the best value so far, stopping at the first value of at least `beta`.
pub open spec fn negaalpha(s: BoardState, alpha: int, beta: int, depth: nat) -> int
    decreases depth, 1nat, 0nat,
{
    if spec_draw_by_repetition(s) {
        0
    } else if depth == 0 {
        spec_symmetric_heuristic(s)
    } else if spec_moves(s).len() == 0 {
        spec_symmetric_end_score(s)
    } else {
        negaalpha_from(s, alpha, beta, depth, 0, -infinity())
    }
}

/// The search of the sorted moves of `s` from the `i`-th on, with best value `value` so far.
pub open spec fn negaalpha_from(s: BoardState, alpha: int, beta: int, depth: nat, i: nat, value: int) -> int
    decreases depth, 0nat, sorted_moves(s).len() - i,
{
    if depth == 0 || i >= sorted_moves(s).len() {
        value
    } else {
        let child = spec_move_piece(board_before(s, i as int), sorted_moves(s)[i as int]);
        let w = -negaalpha(child, -beta, -alpha, (depth - 1) as nat);
        let v = if w > value { w } else { value };
        let a = if v > alpha { v } else { alpha };
        if v >= beta { v } else { negaalpha_from(s, a, beta, depth, i + 1, v) }
    }
}

/// Values of the pruned search lie within plus and minus infinity.
pub proof fn lemma_negaalpha_bounds(s: BoardState, alpha: int, beta: int, depth: nat)
    requires searchable(s, depth), -infinity() <= alpha <= infinity(), -infinity() <= beta <= infinity(),
    ensures -infinity() <= negaalpha(s, alpha, beta, depth) <= infinity(),
    decreases depth, 1nat, 0nat,
{
    if !spec_draw_by_repetition(s) && depth > 0 && spec_moves(s).len() > 0 {
        lemma_negaalpha_from_bounds(s, alpha, beta, depth, 0, -infinity());
    }
}

proof fn lemma_negaalpha_from_bounds(s: BoardState, alpha: int, beta: int, depth: nat, i: nat, value: int)
    requires
        searchable(s, depth), depth > 0,
        -infinity() <= alpha <= infinity(), -infinity() <= beta <= infinity(), -infinity() <= value <= infinity(),
    ensures -infinity() <= negaalpha_from(s, alpha, beta, depth, i, value) <= infinity(),
    decreases depth, 0nat, sorted_moves(s).len() - i,
{
    if i < sorted_moves(s).len() {
        lemma_sorted_moves(s);
        let m = sorted_moves(s)[i as int];
        lemma_step_move(s, depth, i as int, m);
        let child = spec_move_piece(board_before(s, i as int), m);
        lemma_negaalpha_bounds(child, -beta, -alpha, (depth - 1) as nat);
        let w = -negaalpha(child, -beta, -alpha, (depth - 1) as nat);
        let v = if w > value { w } else { value };
        let a = if v > alpha { v } else { alpha };
        if v < beta {
            lemma_negaalpha_from_bounds(s, a, beta, depth, i + 1, v);
        }
    }
}

/// The sorted legal moves are the legal moves, whichever side they are sorted for.
pub proof fn lemma_sorted_for(s: BoardState, c: Color)
    ensures
        spec_sort_by_heuristic(spec_moves(s), c).len() == spec_moves(s).len(),
        forall|i: int| 0 <= i < spec_moves(s).len()
            ==> spec_moves(s).contains(#[trigger] spec_sort_by_heuristic(spec_moves(s), c)[i]),
{
    lemma_sort_by_heuristic(spec_moves(s), c);
    let a = spec_sort_by_heuristic(spec_moves(s), c);
    let b = spec_moves(s);
    a.to_multiset_ensures();
    b.to_multiset_ensures();
    assert forall|i: int| 0 <= i < b.len() implies b.contains(#[trigger] a[i]) by {
        assert(a.contains(a[i]));
        assert(a.to_multiset().count(a[i]) > 0);
        assert(b.to_multiset().count(a[i]) > 0);
    }
}

/// The legal moves of `s` sorted highest value first when maximizing, lowest first otherwise.
pub open spec fn moves_sorted_for(s: BoardState, maxim: bool) -> Seq<Move> {
    spec_sort_by_heuristic(spec_moves(s), if maxim { Color::White } else { Color::Black })
}

/// What the two-player alpha-beta search returns for `s`, window (alpha, beta), `depth`
/// moves deep, maximizing when `maxim` holds: the evaluation at depth 0, the end score
/// without moves; otherwise the moves, sorted best first for the searching side, are
/// searched in turn with the window narrowed by the best value so far, stopping at the
/// first value outside the window.
pub open spec fn alphabeta(s: BoardState, alpha: int, beta: int, depth: nat, maxim: bool) -> int
    decreases depth, 1nat, 0nat,
{
    if depth == 0 {
        s.scores[s.counter as int] as int
    } else if spec_moves(s).len() == 0 {
        spec_end_score(s)
    } else {
        alphabeta_from(s, alpha, beta, depth, maxim, 0, if maxim { -infinity() } else { infinity() })
    }
}

/// The search of the sorted moves of `s` from the `i`-th on, with best value `value` so far.
pub open spec fn alphabeta_from(s: BoardState, alpha: int, beta: int, depth: nat, maxim: bool, i: nat, value: int) -> int
    decreases depth, 0nat, moves_sorted_for(s, maxim).len() - i,
{
    if depth == 0 || i >= moves_sorted_for(s, maxim).len() {
        value
    } else {
        let child = spec_move_piece(board_before(s, i as int), moves_sorted_for(s, maxim)[i as int]);
        let w = alphabeta(child, alpha, beta, (depth - 1) as nat, !maxim);
        if maxim {
            let v = if w > value { w } else { value };
            let a = if v > alpha { v } else { alpha };
            if v >= beta { v } else { alphabeta_from(s, a, beta, depth, maxim, i + 1, v) }
        } else {
            let v = if w < value { w } else { value };
            let b = if v < beta { v } else { beta };
            if v <= alpha { v } else { alphabeta_from(s, alpha, b, depth, maxim, i + 1, v) }
        }
    }
}

/// Values of the two-player pruned search lie within plus and minus infinity.
pub proof fn lemma_alphabeta_bounds(s: BoardState, alpha: int, beta: int, depth: nat, maxim: bool)
    requires searchable(s, depth), -infinity() <= alpha <= infinity(), -infinity() <= beta <= infinity(),
    ensures -infinity() <= alphabeta(s, alpha, beta, depth, maxim) <= infinity(),
    decreases depth, 1nat, 0nat,
{
    if depth > 0 && spec_moves(s).len() > 0 {
        lemma_alphabeta_from_bounds(s, alpha, beta, depth, maxim, 0, if maxim { -infinity() } else { infinity() });
    }
}

proof fn lemma_alphabeta_from_bounds(s: BoardState, alpha: int, beta: int, depth: nat, maxim: bool, i: nat, value: int)
    requires
        searchable(s, depth), depth > 0,
        -infinity() <= alpha <= infinity(), -infinity() <= beta <= infinity(), -infinity() <= value <= infinity(),
    ensures -infinity() <= alphabeta_from(s, alpha, beta, depth, maxim, i, value) <= infinity(),
    decreases depth, 0nat, moves_sorted_for(s, maxim).len() - i,
{
    if i < moves_sorted_for(s, maxim).len() {
        lemma_sorted_for(s, if maxim { Color::White } else { Color::Black });
        let m = moves_sorted_for(s, maxim)[i as int];
        lemma_step_move(s, depth, i as int, m);
        let child = spec_move_piece(board_before(s, i as int), m);
        lemma_alphabeta_bounds(child, alpha, beta, (depth - 1) as nat, !maxim);
        let w = alphabeta(child, alpha, beta, (depth - 1) as nat, !maxim);
        if maxim {
            let v = if w > value { w } else { value };
            let a = if v > alpha { v } else { alpha };
            if v < beta {
                lemma_alphabeta_from_bounds(s, a, beta, depth, maxim, i + 1, v);
            }
        } else {
            let v = if w < value { w } else { value };
            let b = if v < beta { v } else { beta };
            if v > alpha {
                lemma_alphabeta_from_bounds(s, alpha, b, depth, maxim, i + 1, v);
            }
        }
    }
}

} // verus!
