//! Turn bookkeeping around the board: strict alternation, and reset on game end.

use vstd::prelude::*;
use crate::board::{Board, Cell, Coord, GoError, Player, other_of};
use crate::capture::update_board;
use crate::model::{in_bounds, no_dead_stones, place_stone, run_resolve};

verus! {

/// A game in progress: the board and the player to move. Between moves no
/// group on the board lacks a liberty.
pub struct Game {
    pub board: Board,
    pub current: Player,
}

impl Game {
    /// Whatever placements happened, every surviving group has a liberty.
    pub open spec fn wf(&self) -> bool {
        self.board.wf() && no_dead_stones(self.board@)
    }

    /// A fresh game: empty board, Black to move first.
    pub fn new(size: usize) -> (r: Result<Game, GoError>)
        ensures
            r matches Ok(game) ==> game.wf() && game.board@.size == size && game.current
                == Player::Black && (forall|k: int|
                0 <= k < game.board@.cells.len() ==> game.board@.cells[k] == Cell::Empty),
            r is Err ==> r == Result::<Game, GoError>::Err(GoError::InvalidBoardSize) && (size == 0
                || size > 255),
    {
        match Board::new(size) {
            Ok(board) => Ok(Game { board, current: Player::Black }),
            Err(e) => Err(e),
        }
    }

    pub fn current_player(&self) -> (r: Player)
        ensures
            r == self.current,
    {
        self.current
    }

    /// Place a stone for the player to move, resolve captures, and pass the
    /// turn; an out-of-bounds coordinate fails and the turn is kept.
    pub fn play(&mut self, coord: Coord) -> (r: Result<Vec<u16>, GoError>)
        requires
            old(self).wf(),
        ensures
            final(self).wf(),
            final(self).board@.size == old(self).board@.size,
            !in_bounds(old(self).board@.size, coord@.0, coord@.1) ==> r == Result::<
                Vec<u16>,
                GoError,
            >::Err(GoError::InvalidCoordinate) && final(self).board@ == old(self).board@
                && final(self).current == old(self).current,
            in_bounds(old(self).board@.size, coord@.0, coord@.1) ==> (r matches Ok(v)
                && final(self).board@ == run_resolve(
                place_stone(old(self).board@, coord@, old(self).current),
                0,
            ).0 && v@ == run_resolve(
                place_stone(old(self).board@, coord@, old(self).current),
                0,
            ).1 && final(self).current == other_of(old(self).current)),
    {
        let player = self.current;
        match update_board(&mut self.board, coord, player) {
            Ok(v) => {
                self.current = self.current.other();
                Ok(v)
            },
            Err(e) => Err(e),
        }
    }

    /// A recognized non-placing move (a pass) still passes the turn.
    pub fn pass(&mut self)
        requires
            old(self).wf(),
        ensures
            final(self).wf(),
            final(self).board == old(self).board,
            final(self).current == other_of(old(self).current),
    {
        self.current = self.current.other();
    }

    /// The game-ended signal: clear the board and give Black the first move.
    pub fn reset(&mut self)
        requires
            old(self).wf(),
        ensures
            final(self).wf(),
            final(self).board@.size == old(self).board@.size,
            final(self).current == Player::Black,
            forall|k: int|
                0 <= k < final(self).board@.cells.len() ==> final(self).board@.cells[k]
                    == Cell::Empty,
    {
        self.board.reset();
        self.current = Player::Black;
    }
}

} // verus!
