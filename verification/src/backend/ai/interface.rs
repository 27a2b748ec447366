use vstd::prelude::*;
use crate::backend::board::{Board, Move, BoardState};
use crate::backend::rules::spec_moves;

verus! {

/// A chess bot: it picks one of the legal moves of a board, searching to a depth it is given.
pub trait AI: Sized {
    /// The boards the bot can search from.
    spec fn can_search(&self, s: BoardState) -> bool;

    /// Whether the bot, as it is, may pick `m` on the board `s` and be left as `after`:
    /// each bot states here exactly what its search does.
    spec fn picks(&self, s: BoardState, m: Move, after: Self) -> bool;

    fn new() -> Self;

    /// Picks a legal move of `b`, as `picks` says.
    fn search(&mut self, b: Board) -> (m: Move)
        requires old(self).can_search(b@),
        ensures spec_moves(b@).contains(m), old(self).picks(b@, m, *final(self));

    fn set_depth(&mut self, depth: usize);

    fn get_name(&self) -> &str;
}

} // verus!
