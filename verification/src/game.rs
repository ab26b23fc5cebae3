//! The engine and its main entry, the choice of a move.

use vstd::prelude::*;
use crate::board::Board;
use crate::piece::{Piece, MAX_CELLS};
use crate::placement::is_legal;
use crate::search::{Policy, degenerate, is_choice, lemma_choice_is_unique};
use crate::window::{WINDOW_AREA, scan_window};

verus! {

/// The engine for one player of the game.
pub struct Game {
    pub my_player: u8,
}

/// `choice` is the move of the rush-then-block policy: nothing where there
/// is nothing to search, else what a scan of the window gives.
pub open spec fn is_best_move(board: &Board, piece: &Piece, choice: Option<(usize, usize)>) -> bool {
    if degenerate(board, piece) {
        choice is None
    } else {
        is_choice(
            Policy::RushThenBlock,
            board,
            piece,
            scan_window(board, piece.height, piece.width, WINDOW_AREA),
            choice,
        )
    }
}

impl Game {
    /// The engine for player `my_player`.
    pub fn new(my_player: u8) -> (game: Game)
        ensures
            game.my_player == my_player,
    {
        Game { my_player }
    }

    /// Picks where to put `piece` on `board`: the legal placement that the
    /// rush-then-block policy scores highest and, of equals, the one in the
    /// upper row, then the one further left. `None` when there is no legal
    /// placement to be found, or nothing to search.
    pub fn choose_best_move(&self, board: &Board, piece: &Piece) -> (choice: Option<(usize, usize)>)
        requires
            board.playable(),
            piece.cells@.len() <= MAX_CELLS,
        ensures
            is_best_move(board, piece, choice),
            choice matches Some(anchor) ==> is_legal(
                board.grid(),
                piece.cells@,
                anchor.0 as int,
                anchor.1 as int,
            ),
    {
        self.choose_best_placement(board, piece, Policy::RushThenBlock, WINDOW_AREA)
    }
}

/// The move is determined: a board and a piece admit one best move only.
pub proof fn lemma_best_move_is_unique(
    board: &Board,
    piece: &Piece,
    a: Option<(usize, usize)>,
    b: Option<(usize, usize)>,
)
    requires
        is_best_move(board, piece, a),
        is_best_move(board, piece, b),
    ensures
        a == b,
{
    if !degenerate(board, piece) {
        lemma_choice_is_unique(
            Policy::RushThenBlock,
            board,
            piece,
            scan_window(board, piece.height, piece.width, WINDOW_AREA),
            a,
            b,
        );
    }
}

} // verus!
