use vstd::prelude::*;
use crate::backend::board::{Board, Moves, Move, Position, BoardState, move_ok, spec_move_piece, wf,
    is_custom_board, DEFAULT_BOARD};
use crate::backend::piece::Color;
use crate::backend::rules::{spec_moves, moves_ok, move_named, spec_winner};
use crate::backend::ai::interface::AI;
use crate::text::other_io_error;

verus! {

/// A game: the board and the bot that plays against the user.
pub struct Gameboard<A: AI> {
    board: Board,
    ai: A,
}

/// The moves of `ms` that start on square (x, y), in order.
pub open spec fn moves_starting_at(ms: Seq<Move>, x: usize, y: usize) -> Seq<Move> {
    ms.filter(|m: Move| m.from == (Position { x, y }))
}

impl<A: AI> Gameboard<A> {
    pub closed spec fn board_state(&self) -> BoardState {
        self.board@
    }

    pub closed spec fn bot(&self) -> A {
        self.ai
    }

    pub fn new() -> (r: Self)
        ensures is_custom_board(r.board_state(), DEFAULT_BOARD@, Color::White), wf(r.board_state()),
    {
        Gameboard { ai: A::new(), board: Board::new() }
    }

    /// A game from the starting position against the bot `ai`.
    pub fn with_bot(ai: A) -> (r: Self)
        ensures
            is_custom_board(r.board_state(), DEFAULT_BOARD@, Color::White), wf(r.board_state()),
            r.bot() == ai,
    {
        Gameboard { ai, board: Board::new() }
    }

    /// Plays the move spelled by `s`; an error, with the board unchanged, when it is no legal move.
    pub fn move_piece(&mut self, s: &str) -> (r: Result<(), std::io::Error>)
        requires
            wf(old(self).board_state()), moves_ok(old(self).board_state()),
            move_named(old(self).board_state(), s@) matches Some(m) ==> move_ok(old(self).board_state(), m),
        ensures
            r is Ok <==> move_named(old(self).board_state(), s@) is Some,
            r is Ok ==> final(self).board_state() == spec_move_piece(old(self).board_state(), move_named(old(self).board_state(), s@)->0),
            r is Err ==> final(self).board_state() == old(self).board_state(),
            final(self).bot() == old(self).bot(),
    {
        match self.board.move_str(s) {
            Some(()) => Ok(()),
            None => Err(other_io_error("Not a legal move on this board")),
        }
    }

    /// The legal moves.
    pub fn moves(&mut self) -> (r: Moves)
        requires wf(old(self).board_state()), moves_ok(old(self).board_state()),
        ensures
            r.0@ == spec_moves(old(self).board_state()),
            final(self).board_state() == old(self).board_state(),
            final(self).bot() == old(self).bot(),
    {
        self.board.moves()
    }

    /// The legal moves of the piece on square (x, y).
    pub fn moves_from(&mut self, x: usize, y: usize) -> (r: Moves)
        requires wf(old(self).board_state()), moves_ok(old(self).board_state()),
        ensures
            r.0@ == moves_starting_at(spec_moves(old(self).board_state()), x, y),
            final(self).board_state() == old(self).board_state(),
            final(self).bot() == old(self).bot(),
    {
        let all = self.moves();
        let mut ret = Moves::new();
        let mut i: usize = 0;
        proof {
            reveal(Seq::filter);
            assert(all.0@.take(0) =~= Seq::<Move>::empty());
        }
        while i < all.0.len()
            invariant
                i <= all.0@.len(),
                ret.0@ == moves_starting_at(all.0@.take(i as int), x, y),
            decreases all.0@.len() - i,
        {
            proof {
                reveal(Seq::filter);
                assert(all.0@.take(i as int + 1).drop_last() =~= all.0@.take(i as int));
            }
            let m = all.0[i];
            if m.from.x == x && m.from.y == y {
                ret.push(m);
            }
            i += 1;
        }
        proof { assert(all.0@.take(all.0@.len() as int) =~= all.0@); }
        ret
    }

    /// Lets the bot pick a move and plays it: the move is the one the bot's search picks,
    /// and the bot is left as that search leaves it.
    pub fn start_bot(&mut self)
        requires
            old(self).bot().can_search(old(self).board_state()),
            wf(old(self).board_state()),
            forall|m: Move| spec_moves(old(self).board_state()).contains(m) ==> move_ok(old(self).board_state(), m),
        ensures
            exists|m: Move, after: A| {
                &&& spec_moves(old(self).board_state()).contains(m)
                &&& old(self).bot().picks(old(self).board_state(), m, after)
                &&& final(self).bot() == after
                &&& final(self).board_state() == spec_move_piece(old(self).board_state(), m)
            },
    {
        let m = self.ai.search(self.board.clone_board());
        self.board.move_piece(&m);
    }

    /// Whether the side to move has no legal move.
    pub fn is_checkmate(&mut self) -> (r: bool)
        requires wf(old(self).board_state()), moves_ok(old(self).board_state()),
        ensures
            r == (spec_moves(old(self).board_state()).len() == 0),
            final(self).board_state() == old(self).board_state(),
            final(self).bot() == old(self).bot(),
    {
        self.board.is_checkmate()
    }

    /// Whether the game is over: no legal move, or a draw by repetition.
    pub fn is_game_over(&mut self) -> (r: bool)
        requires wf(old(self).board_state()), moves_ok(old(self).board_state()),
        ensures
            r == (spec_moves(old(self).board_state()).len() == 0
                || crate::backend::board::spec_draw_by_repetition(old(self).board_state())),
            final(self).board_state() == old(self).board_state(),
            final(self).bot() == old(self).bot(),
    {
        self.board.is_checkmate() || self.board.is_draw_by_repetition()
    }

    /// The board as text, as `Board::to_string` writes it.
    pub fn to_string(&self) -> (r: String)
        requires wf(self.board_state()),
        ensures r@ == crate::backend::rules::board_text(self.board_state().grid, 8),
    {
        self.board.to_string()
    }

    /// The winner of a finished game (mate, stalemate or a draw by repetition); the game
    /// must be over.
    pub fn winner(&mut self) -> (r: Option<Color>)
        requires
            wf(old(self).board_state()), moves_ok(old(self).board_state()),
            old(self).board_state().counter <= i32::MAX,
            spec_moves(old(self).board_state()).len() == 0
                || crate::backend::board::spec_draw_by_repetition(old(self).board_state()),
        ensures
            r == spec_winner(old(self).board_state()),
            final(self).board_state() == old(self).board_state(),
    {
        if self.board.is_checkmate() || self.board.is_draw_by_repetition() {
            self.board.winner()
        } else {
            assert(false);
            None
        }
    }
}

} // verus!
