use vstd::prelude::*;
use super::board::{BoardState, spec_move_piece, spec_draw_by_repetition, spec_symmetric_heuristic, spec_symmetric_end_score};
use super::rules::spec_moves;
use super::search::{searchable, board_before, negaalpha, negaalpha_from, sorted_moves, lemma_sorted_moves,
    lemma_step_move, lemma_negaalpha_bounds, infinity, negamax, negamax_over, alphabeta, alphabeta_from,
    moves_sorted_for, lemma_sorted_for, lemma_alphabeta_bounds};
use super::rules::spec_end_score;
use super::piece::Color;
use super::board::with_hash;
use super::board_representation::movement::{Move, lemma_sort_by_heuristic};
use super::positions::{same_position, lemma_same_position_rules, lemma_same_position_move};

verus! {

/// The board the `i`-th sorted move of `s` leads to, made where a search makes it.
pub open spec fn sorted_child(s: BoardState, i: int) -> BoardState {
    spec_move_piece(board_before(s, i), sorted_moves(s)[i])
}

/// The negamax value of `s` searched `depth` moves deep without pruning, the moves taken in
/// the order the pruned search sorts them: 0 for a draw by repetition, the evaluation at
/// depth 0, the end score without moves, otherwise the best negated value of the moves.
pub open spec fn fullmax(s: BoardState, depth: nat) -> int
    decreases depth, 1nat, 0nat,
{
    if spec_draw_by_repetition(s) {
        0
    } else if depth == 0 {
        spec_symmetric_heuristic(s)
    } else if spec_moves(s).len() == 0 {
        spec_symmetric_end_score(s)
    } else {
        fullmax_over(s, depth, sorted_moves(s).len())
    }
}

/// The best negated value among the first `n` sorted moves of `s` (minus infinity for none).
pub open spec fn fullmax_over(s: BoardState, depth: nat, n: nat) -> int
    decreases depth, 0nat, n,
{
    if depth == 0 || n > sorted_moves(s).len() {
        0
    } else if n == 0 {
        -infinity()
    } else {
        let prev = fullmax_over(s, depth, (n - 1) as nat);
        let v = -fullmax(sorted_child(s, n - 1), (depth - 1) as nat);
        if v > prev { v } else { prev }
    }
}

/// What an alpha-beta search with window (alpha, beta) promises of the value `r` it returns
/// for a position whose full value is `v`: at or below alpha, an upper bound of `v`; at or
/// above beta, a lower bound of `v`; strictly inside the window, `v` itself.
pub open spec fn within_window(r: int, v: int, alpha: int, beta: int) -> bool {
    &&& r <= alpha ==> v <= r
    &&& r >= beta ==> v >= r
    &&& alpha < r < beta ==> r == v
}

/// Full values lie within plus and minus infinity.
pub proof fn lemma_fullmax_bounds(s: BoardState, depth: nat)
    requires searchable(s, depth),
    ensures -infinity() <= fullmax(s, depth) <= infinity(),
    decreases depth, 1nat, 0nat,
{
    if !spec_draw_by_repetition(s) && depth > 0 && spec_moves(s).len() > 0 {
        lemma_sorted_moves(s);
        lemma_fullmax_over_bounds(s, depth, sorted_moves(s).len());
    }
}

proof fn lemma_fullmax_over_bounds(s: BoardState, depth: nat, n: nat)
    requires searchable(s, depth), depth > 0, n <= sorted_moves(s).len(),
    ensures -infinity() <= fullmax_over(s, depth, n) <= infinity(),
    decreases depth, 0nat, n,
{
    if n > 0 {
        lemma_fullmax_over_bounds(s, depth, (n - 1) as nat);
        lemma_sorted_moves(s);
        lemma_step_move(s, depth, n - 1, sorted_moves(s)[n - 1]);
        lemma_fullmax_bounds(sorted_child(s, n - 1), (depth - 1) as nat);
    }
}

/// The best of more moves is at least the best of fewer.
proof fn lemma_fullmax_over_grows(s: BoardState, depth: nat, k: nat, n: nat)
    requires depth > 0, k <= n <= sorted_moves(s).len(),
    ensures fullmax_over(s, depth, k) <= fullmax_over(s, depth, n),
    decreases n - k,
{
    if k < n {
        lemma_fullmax_over_grows(s, depth, k, (n - 1) as nat);
    }
}

/// The pruned search of the sorted moves from the `i`-th on, with best value `value` so far
/// and window (max(alpha0, value), beta), keeps the promise of `within_window` for the full
/// value, given that `value` bounds the full values of the moves before and equals their
/// best once it is above alpha0.
proof fn lemma_negaalpha_from_window(s: BoardState, alpha0: int, beta: int, depth: nat, i: nat, value: int)
    requires
        searchable(s, depth), depth > 0, !spec_draw_by_repetition(s), spec_moves(s).len() > 0,
        i <= sorted_moves(s).len(),
        -infinity() <= alpha0 < beta <= infinity(),
        -infinity() <= value < beta,
        fullmax_over(s, depth, i) <= value,
        value > alpha0 ==> fullmax_over(s, depth, i) == value,
    ensures
        within_window(
            negaalpha_from(s, if value > alpha0 { value } else { alpha0 }, beta, depth, i, value),
            fullmax_over(s, depth, sorted_moves(s).len()),
            alpha0,
            beta,
        ),
    decreases depth, 0nat, sorted_moves(s).len() - i,
{
    let n = sorted_moves(s).len();
    let alpha = if value > alpha0 { value } else { alpha0 };
    if i < n {
        lemma_sorted_moves(s);
        let m = sorted_moves(s)[i as int];
        lemma_step_move(s, depth, i as int, m);
        let child = sorted_child(s, i as int);
        lemma_negaalpha_window(child, -beta, -alpha, (depth - 1) as nat);
        lemma_negaalpha_bounds(child, -beta, -alpha, (depth - 1) as nat);
        lemma_fullmax_bounds(child, (depth - 1) as nat);
        let w = -negaalpha(child, -beta, -alpha, (depth - 1) as nat);
        let t = -fullmax(child, (depth - 1) as nat);
        let v = if w > value { w } else { value };
        let a = if v > alpha { v } else { alpha };
        assert(a == if v > alpha0 { v } else { alpha0 });
        if v >= beta {
            lemma_fullmax_over_grows(s, depth, i + 1, n);
        } else {
            lemma_negaalpha_from_window(s, alpha0, beta, depth, i + 1, v);
        }
    }
}

/// Alpha-beta pruning keeps the promise of `within_window`: the pruned search with window
/// (alpha, beta) returns the full value where that lies strictly inside the window, and a
/// bound on it on the side of the window it falls out on.
pub proof fn lemma_negaalpha_window(s: BoardState, alpha: int, beta: int, depth: nat)
    requires searchable(s, depth), -infinity() <= alpha < beta <= infinity(),
    ensures within_window(negaalpha(s, alpha, beta, depth), fullmax(s, depth), alpha, beta),
    decreases depth, 1nat, 0nat,
{
    if !spec_draw_by_repetition(s) && depth > 0 && spec_moves(s).len() > 0 {
        lemma_negaalpha_from_window(s, alpha, beta, depth, 0, -infinity());
    }
}

/// With the window wide open, the pruned search returns the full value.
pub proof fn lemma_negaalpha_full_window(s: BoardState, depth: nat)
    requires searchable(s, depth),
    ensures negaalpha(s, -infinity(), infinity(), depth) == fullmax(s, depth),
{
    lemma_negaalpha_window(s, -infinity(), infinity(), depth);
    lemma_negaalpha_bounds(s, -infinity(), infinity(), depth);
    lemma_fullmax_bounds(s, depth);
}


/// No board the pruned search visits, `d` moves deep, is a draw by repetition.
pub open spec fn tree_draw_free(s: BoardState, d: nat) -> bool
    decreases d,
{
    &&& !spec_draw_by_repetition(s)
    &&& (d > 0 ==> forall|i: int| 0 <= i < sorted_moves(s).len() ==>
            tree_draw_free(#[trigger] spec_move_piece(board_before(s, i), sorted_moves(s)[i]), (d - 1) as nat))
}

/// No board the negamax search visits, `d` moves deep, is a draw by repetition.
pub open spec fn plain_tree_draw_free(s: BoardState, d: nat) -> bool
    decreases d,
{
    &&& !spec_draw_by_repetition(s)
    &&& (d > 0 ==> forall|i: int| 0 <= i < spec_moves(s).len() ==>
            plain_tree_draw_free(#[trigger] spec_move_piece(board_before(s, i), spec_moves(s)[i]), (d - 1) as nat))
}

/// The negamax value of `s`, `d` moves deep, where no repetition is looked for: the
/// evaluation at depth 0, the end score without moves, otherwise the best negated value of
/// the moves. It depends on the position only.
pub open spec fn plain(s: BoardState, d: nat) -> int
    decreases d, 1nat, 0nat,
{
    if d == 0 {
        spec_symmetric_heuristic(s)
    } else if spec_moves(s).len() == 0 {
        spec_symmetric_end_score(s)
    } else {
        best_of(s, d, spec_moves(s), spec_moves(s).len())
    }
}

/// The best negated `plain` value among the boards the first `n` of `ms` lead to from `s`.
pub open spec fn best_of(s: BoardState, d: nat, ms: Seq<Move>, n: nat) -> int
    decreases d, 0nat, n,
{
    if d == 0 {
        0
    } else if n == 0 || n > ms.len() {
        -infinity()
    } else {
        let prev = best_of(s, d, ms, (n - 1) as nat);
        let v = -plain(spec_move_piece(s, ms[n - 1]), (d - 1) as nat);
        if v > prev { v } else { prev }
    }
}

/// Boards in the same position have the same plain values.
proof fn lemma_plain_same(x: BoardState, y: BoardState, d: nat)
    requires same_position(x, y),
    ensures plain(x, d) == plain(y, d),
    decreases d, 1nat, 0nat,
{
    lemma_same_position_rules(x, y);
    if d > 0 && spec_moves(x).len() > 0 {
        lemma_best_of_same(x, y, d, spec_moves(x), spec_moves(x).len());
    }
}

proof fn lemma_best_of_same(x: BoardState, y: BoardState, d: nat, ms: Seq<Move>, n: nat)
    requires same_position(x, y),
    ensures best_of(x, d, ms, n) == best_of(y, d, ms, n),
    decreases d, 0nat, n,
{
    if d > 0 && n > 0 && n <= ms.len() {
        lemma_best_of_same(x, y, d, ms, (n - 1) as nat);
        lemma_same_position_move(x, y, ms[n - 1]);
        lemma_plain_same(spec_move_piece(x, ms[n - 1]), spec_move_piece(y, ms[n - 1]), (d - 1) as nat);
    }
}

proof fn lemma_best_of_at_least(s: BoardState, d: nat, ms: Seq<Move>, i: int, n: nat)
    requires d > 0, 0 <= i < n <= ms.len(),
    ensures best_of(s, d, ms, n) >= -plain(spec_move_piece(s, ms[i]), (d - 1) as nat),
    decreases n,
{
    if i < n - 1 {
        lemma_best_of_at_least(s, d, ms, i, (n - 1) as nat);
    }
}

proof fn lemma_best_of_at_most(s: BoardState, d: nat, ms: Seq<Move>, x: int, n: nat)
    requires
        d > 0, n <= ms.len(), x >= -infinity(),
        forall|i: int| 0 <= i < n ==> -plain(spec_move_piece(s, #[trigger] ms[i]), (d - 1) as nat) <= x,
    ensures best_of(s, d, ms, n) <= x,
    decreases n,
{
    if n > 0 {
        lemma_best_of_at_most(s, d, ms, x, (n - 1) as nat);
        assert(-plain(spec_move_piece(s, ms[n - 1]), (d - 1) as nat) <= x);
    }
}

/// The best of a list of moves does not depend on their order.
proof fn lemma_best_of_permuted(s: BoardState, d: nat, a: Seq<Move>, b: Seq<Move>)
    requires d > 0, a.to_multiset() == b.to_multiset(),
    ensures best_of(s, d, a, a.len()) == best_of(s, d, b, b.len()),
{
    a.to_multiset_ensures();
    b.to_multiset_ensures();
    lemma_best_of_floor(s, d, a, a.len());
    lemma_best_of_floor(s, d, b, b.len());
    assert forall|i: int| 0 <= i < b.len() implies
        -plain(spec_move_piece(s, #[trigger] b[i]), (d - 1) as nat) <= best_of(s, d, a, a.len()) by {
        assert(b.to_multiset().count(b[i]) > 0);
        assert(a.contains(b[i]));
        let k = choose|k: int| 0 <= k < a.len() && a[k] == b[i];
        lemma_best_of_at_least(s, d, a, k, a.len());
    }
    lemma_best_of_at_most(s, d, b, best_of(s, d, a, a.len()), b.len());
    assert forall|i: int| 0 <= i < a.len() implies
        -plain(spec_move_piece(s, #[trigger] a[i]), (d - 1) as nat) <= best_of(s, d, b, b.len()) by {
        assert(a.to_multiset().count(a[i]) > 0);
        assert(b.contains(a[i]));
        let k = choose|k: int| 0 <= k < b.len() && b[k] == a[i];
        lemma_best_of_at_least(s, d, b, k, b.len());
    }
    lemma_best_of_at_most(s, d, a, best_of(s, d, b, b.len()), a.len());
}

proof fn lemma_best_of_floor(s: BoardState, d: nat, ms: Seq<Move>, n: nat)
    requires d > 0,
    ensures best_of(s, d, ms, n) >= -infinity(),
    decreases n,
{
    if n > 0 && n <= ms.len() {
        lemma_best_of_floor(s, d, ms, (n - 1) as nat);
    }
}

/// Where the negamax search meets no repetition, its value is the plain value.
proof fn lemma_negamax_plain(s: BoardState, d: nat)
    requires plain_tree_draw_free(s, d),
    ensures negamax(s, d) == plain(s, d),
    decreases d, 1nat, 0nat,
{
    if d > 0 && spec_moves(s).len() > 0 {
        lemma_negamax_over_plain(s, d, spec_moves(s).len());
    }
}

proof fn lemma_negamax_over_plain(s: BoardState, d: nat, n: nat)
    requires plain_tree_draw_free(s, d), d > 0, n <= spec_moves(s).len(),
    ensures negamax_over(s, d, n) == best_of(s, d, spec_moves(s), n),
    decreases d, 0nat, n,
{
    if n > 0 {
        lemma_negamax_over_plain(s, d, (n - 1) as nat);
        let m = spec_moves(s)[n - 1];
        let b = board_before(s, n - 1);
        assert(same_position(b, s));
        let c = spec_move_piece(b, m);
        lemma_same_position_move(b, s, m);
        assert(plain_tree_draw_free(c, (d - 1) as nat));
        lemma_negamax_plain(c, (d - 1) as nat);
        lemma_plain_same(c, spec_move_piece(s, m), (d - 1) as nat);
    }
}

/// Where the pruned search meets no repetition, the full value is the plain value.
proof fn lemma_fullmax_plain(s: BoardState, d: nat)
    requires tree_draw_free(s, d),
    ensures fullmax(s, d) == plain(s, d),
    decreases d, 1nat, 0nat,
{
    if d > 0 && spec_moves(s).len() > 0 {
        lemma_sort_by_heuristic(spec_moves(s), s.color);
        let n = sorted_moves(s).len();
        assert(n == spec_moves(s).len()) by {
            sorted_moves(s).to_multiset_ensures();
            spec_moves(s).to_multiset_ensures();
        }
        lemma_fullmax_over_plain(s, d, n);
        lemma_best_of_permuted(s, d, sorted_moves(s), spec_moves(s));
    }
}

proof fn lemma_fullmax_over_plain(s: BoardState, d: nat, n: nat)
    requires tree_draw_free(s, d), d > 0, n <= sorted_moves(s).len(),
    ensures fullmax_over(s, d, n) == best_of(s, d, sorted_moves(s), n),
    decreases d, 0nat, n,
{
    if n > 0 {
        lemma_fullmax_over_plain(s, d, (n - 1) as nat);
        let m = sorted_moves(s)[n - 1];
        let b = board_before(s, n - 1);
        assert(same_position(b, s));
        let c = spec_move_piece(b, m);
        lemma_same_position_move(b, s, m);
        assert(tree_draw_free(c, (d - 1) as nat));
        lemma_fullmax_plain(c, (d - 1) as nat);
        lemma_plain_same(c, spec_move_piece(s, m), (d - 1) as nat);
    }
}

/// Where neither search meets a repetition, the full value the pruned search is held to is
/// the negamax value: the order the moves are searched in does not change the value.
pub proof fn lemma_fullmax_is_negamax(s: BoardState, d: nat)
    requires tree_draw_free(s, d), plain_tree_draw_free(s, d),
    ensures fullmax(s, d) == negamax(s, d),
{
    lemma_fullmax_plain(s, d);
    lemma_negamax_plain(s, d);
}


// The two-player search: the value of a full search, and what pruning keeps of it.

/// The board the `i`-th move of `s`, sorted for the side that maximizes when `maxim` holds,
/// leads to, made where a search makes it.
pub open spec fn ab_child(s: BoardState, maxim: bool, i: int) -> BoardState {
    spec_move_piece(board_before(s, i), moves_sorted_for(s, maxim)[i])
}

/// The two-player value of `s` searched `depth` moves deep without pruning, the moves taken
/// in the order the pruned search sorts them, maximizing when `maxim` holds: the evaluation
/// at depth 0, the end score without moves, otherwise the best value of the moves.
pub open spec fn fullab(s: BoardState, depth: nat, maxim: bool) -> int
    decreases depth, 1nat, 0nat,
{
    if depth == 0 {
        s.scores[s.counter as int] as int
    } else if spec_moves(s).len() == 0 {
        spec_end_score(s)
    } else {
        fullab_over(s, depth, maxim, moves_sorted_for(s, maxim).len())
    }
}

/// The best value among the first `n` sorted moves of `s` (minus infinity for none when
/// maximizing, infinity when minimizing).
pub open spec fn fullab_over(s: BoardState, depth: nat, maxim: bool, n: nat) -> int
    decreases depth, 0nat, n,
{
    if depth == 0 || n > moves_sorted_for(s, maxim).len() {
        0
    } else if n == 0 {
        if maxim { -infinity() } else { infinity() }
    } else {
        let prev = fullab_over(s, depth, maxim, (n - 1) as nat);
        let v = fullab(ab_child(s, maxim, n - 1), (depth - 1) as nat, !maxim);
        if maxim { if v > prev { v } else { prev } } else { if v < prev { v } else { prev } }
    }
}

/// Full two-player values lie within plus and minus infinity.
pub proof fn lemma_fullab_bounds(s: BoardState, depth: nat, maxim: bool)
    requires searchable(s, depth),
    ensures -infinity() <= fullab(s, depth, maxim) <= infinity(),
    decreases depth, 1nat, 0nat,
{
    if depth > 0 && spec_moves(s).len() > 0 {
        lemma_sorted_for(s, if maxim { Color::White } else { Color::Black });
        lemma_fullab_over_bounds(s, depth, maxim, moves_sorted_for(s, maxim).len());
    }
}

proof fn lemma_fullab_over_bounds(s: BoardState, depth: nat, maxim: bool, n: nat)
    requires searchable(s, depth), depth > 0, n <= moves_sorted_for(s, maxim).len(),
    ensures -infinity() <= fullab_over(s, depth, maxim, n) <= infinity(),
    decreases depth, 0nat, n,
{
    if n > 0 {
        lemma_fullab_over_bounds(s, depth, maxim, (n - 1) as nat);
        lemma_sorted_for(s, if maxim { Color::White } else { Color::Black });
        lemma_step_move(s, depth, n - 1, moves_sorted_for(s, maxim)[n - 1]);
        lemma_fullab_bounds(ab_child(s, maxim, n - 1), (depth - 1) as nat, !maxim);
    }
}

/// The best of more moves is at least as good as the best of fewer.
proof fn lemma_fullab_over_grows(s: BoardState, depth: nat, maxim: bool, k: nat, n: nat)
    requires depth > 0, k <= n <= moves_sorted_for(s, maxim).len(),
    ensures
        maxim ==> fullab_over(s, depth, maxim, k) <= fullab_over(s, depth, maxim, n),
        !maxim ==> fullab_over(s, depth, maxim, k) >= fullab_over(s, depth, maxim, n),
    decreases n - k,
{
    if k < n {
        lemma_fullab_over_grows(s, depth, maxim, k, (n - 1) as nat);
    }
}

proof fn lemma_alphabeta_from_window(s: BoardState, alpha0: int, beta0: int, depth: nat, maxim: bool, i: nat, value: int)
    requires
        searchable(s, depth), depth > 0, spec_moves(s).len() > 0,
        i <= moves_sorted_for(s, maxim).len(),
        -infinity() <= alpha0 < beta0 <= infinity(),
        -infinity() <= value <= infinity(),
        maxim ==> value < beta0,
        maxim ==> fullab_over(s, depth, maxim, i) <= value,
        maxim ==> (value > alpha0 ==> fullab_over(s, depth, maxim, i) == value),
        !maxim ==> value > alpha0,
        !maxim ==> fullab_over(s, depth, maxim, i) >= value,
        !maxim ==> (value < beta0 ==> fullab_over(s, depth, maxim, i) == value),
    ensures
        within_window(
            alphabeta_from(s,
                if maxim { if value > alpha0 { value } else { alpha0 } } else { alpha0 },
                if maxim { beta0 } else { if value < beta0 { value } else { beta0 } },
                depth, maxim, i, value),
            fullab_over(s, depth, maxim, moves_sorted_for(s, maxim).len()),
            alpha0,
            beta0,
        ),
    decreases depth, 0nat, moves_sorted_for(s, maxim).len() - i,
{
    let n = moves_sorted_for(s, maxim).len();
    let alpha = if maxim { if value > alpha0 { value } else { alpha0 } } else { alpha0 };
    let beta = if maxim { beta0 } else { if value < beta0 { value } else { beta0 } };
    if i < n {
        lemma_sorted_for(s, if maxim { Color::White } else { Color::Black });
        let m = moves_sorted_for(s, maxim)[i as int];
        lemma_step_move(s, depth, i as int, m);
        let child = ab_child(s, maxim, i as int);
        lemma_alphabeta_window(child, alpha, beta, (depth - 1) as nat, !maxim);
        lemma_alphabeta_bounds(child, alpha, beta, (depth - 1) as nat, !maxim);
        lemma_fullab_bounds(child, (depth - 1) as nat, !maxim);
        let w = alphabeta(child, alpha, beta, (depth - 1) as nat, !maxim);
        if maxim {
            let v = if w > value { w } else { value };
            if v >= beta0 {
                lemma_fullab_over_grows(s, depth, maxim, i + 1, n);
            } else {
                lemma_alphabeta_from_window(s, alpha0, beta0, depth, maxim, i + 1, v);
            }
        } else {
            let v = if w < value { w } else { value };
            if v <= alpha0 {
                lemma_fullab_over_grows(s, depth, maxim, i + 1, n);
            } else {
                lemma_alphabeta_from_window(s, alpha0, beta0, depth, maxim, i + 1, v);
            }
        }
    }
}

/// Alpha-beta pruning in the two-player search keeps the promise of `within_window` for the
/// full two-player value.
pub proof fn lemma_alphabeta_window(s: BoardState, alpha: int, beta: int, depth: nat, maxim: bool)
    requires searchable(s, depth), -infinity() <= alpha < beta <= infinity(),
    ensures within_window(alphabeta(s, alpha, beta, depth, maxim), fullab(s, depth, maxim), alpha, beta),
    decreases depth, 1nat, 0nat,
{
    if depth > 0 && spec_moves(s).len() > 0 {
        lemma_alphabeta_from_window(s, alpha, beta, depth, maxim, 0, if maxim { -infinity() } else { infinity() });
    }
}

/// With the window wide open, the two-player pruned search returns the full value.
pub proof fn lemma_alphabeta_full_window(s: BoardState, depth: nat, maxim: bool)
    requires searchable(s, depth),
    ensures alphabeta(s, -infinity(), infinity(), depth, maxim) == fullab(s, depth, maxim),
{
    lemma_alphabeta_window(s, -infinity(), infinity(), depth, maxim);
    lemma_alphabeta_bounds(s, -infinity(), infinity(), depth, maxim);
    lemma_fullab_bounds(s, depth, maxim);
}

} // verus!
