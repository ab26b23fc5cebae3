//! A game as a conversation: lines come in one by one, and after each the
//! session says whether to go on, to send a move, or to end.

use vstd::prelude::*;
use crate::board::{Board, is_board_header, spec_board};
use crate::game::{Game, is_best_move};
use crate::parser::{parse_player_number, spec_player_number};
use crate::piece::{Piece, MAX_CELLS, announced_rows, is_piece_header, spec_piece};
use crate::text::texts;

verus! {

/// Where a session stands between two lines of input.
#[derive(Clone, Copy, Debug, PartialEq, Eq, Structural)]
pub enum Phase {
    /// Waiting for the line that tells which player the engine is.
    AwaitPlayer,
    /// Waiting for the header of a board block.
    AwaitBoard,
    /// Inside a board block, waiting for the header of the piece block.
    ReadBoard,
    /// Inside a piece block, waiting for the rest of its rows.
    ReadPiece,
    /// The session is over.
    Done,
}

/// What the caller is to do after a line.
#[derive(Debug)]
pub enum Step {
    /// Hand in the next line.
    More,
    /// Send this move, or a stand-in where there is none, then hand in the
    /// next line.
    Move(Option<(usize, usize)>),
    /// End the session: the board or the piece could not be read.
    Stop,
    /// End the session: the board or the piece is larger than the engine takes.
    Unplayable,
}

/// One game, fed line by line.
pub struct Session {
    pub phase: Phase,
    pub game: Game,
    /// The lines of the board block read so far.
    pub board_lines: Vec<String>,
    /// The board of the turn, once its block is read.
    pub board: Option<Board>,
    /// The lines of the piece block read so far.
    pub piece_lines: Vec<String>,
    /// How many rows of the piece block are still to come.
    pub rows_left: usize,
    /// The piece of the last turn played.
    pub piece: Option<Piece>,
}

/// What a line does to a session that waits for the player line.
pub open spec fn awaits_player(before: Session, line: Seq<char>, after: Session, step: Step) -> bool {
    &&& step is More
    &&& match spec_player_number(line) {
        Some(n) => after.phase == Phase::AwaitBoard && after.game.my_player == n,
        None => after.phase == Phase::AwaitPlayer && after.game.my_player == before.game.my_player,
    }
}

/// What a line does to a session that waits for a board block.
pub open spec fn awaits_board(before: Session, line: Seq<char>, after: Session, step: Step) -> bool {
    &&& step is More
    &&& after.game.my_player == before.game.my_player
    &&& if is_board_header(line) {
        after.phase == Phase::ReadBoard && texts(after.board_lines@) == seq![line]
    } else {
        after.phase == Phase::AwaitBoard
    }
}

/// How a turn ends once the piece block `piece_texts` is complete: the
/// session stops if the piece cannot be read, gives up if board or piece is
/// beyond the engine's limits, and else hands out the move and waits for
/// the next board.
pub open spec fn turn_ends(
    board: Option<Board>,
    piece_texts: Seq<Seq<char>>,
    after: Session,
    step: Step,
) -> bool {
    match (board, spec_piece(piece_texts)) {
        (Some(b), Some(shape)) => {
            &&& after.piece matches Some(p)
            &&& (p.width as int, p.height as int, p.cells@) == shape
            &&& if b.playable() && p.cells@.len() <= MAX_CELLS {
                &&& after.phase == Phase::AwaitBoard
                &&& step matches Step::Move(choice)
                &&& is_best_move(&b, &p, choice)
            } else {
                step is Unplayable && after.phase == Phase::Done
            }
        },
        _ => step is Stop && after.phase == Phase::Done,
    }
}

/// What a line does to a session inside a board block: a piece header
/// closes the block, and the board is read from it; any other line joins the block.
pub open spec fn reads_board(before: Session, line: Seq<char>, after: Session, step: Step) -> bool {
    &&& after.game.my_player == before.game.my_player
    &&& if !is_piece_header(line) {
        &&& step is More
        &&& after.phase == Phase::ReadBoard
        &&& texts(after.board_lines@) == texts(before.board_lines@).push(line)
    } else {
        match spec_board(texts(before.board_lines@), before.game.my_player) {
            None => step is Stop && after.phase == Phase::Done,
            Some(rows) => {
                &&& after.board matches Some(b)
                &&& b.grid() == rows
                &&& b.wf()
                &&& texts(after.piece_lines@) == seq![line]
                &&& if announced_rows(line) == 0 {
                    turn_ends(after.board, seq![line], after, step)
                } else {
                    &&& step is More
                    &&& after.phase == Phase::ReadPiece
                    &&& after.rows_left == announced_rows(line)
                }
            },
        }
    }
}

/// What a line does to a session inside a piece block: the line joins the
/// block, and with the last row the turn ends.
pub open spec fn reads_piece(before: Session, line: Seq<char>, after: Session, step: Step) -> bool {
    &&& after.game.my_player == before.game.my_player
    &&& after.board == before.board
    &&& texts(after.piece_lines@) == texts(before.piece_lines@).push(line)
    &&& if before.rows_left > 1 {
        &&& step is More
        &&& after.phase == Phase::ReadPiece
        &&& after.rows_left == before.rows_left - 1
    } else {
        turn_ends(before.board, texts(after.piece_lines@), after, step)
    }
}

/// What one line does to a session, and what the caller is to do next.
pub open spec fn feed_step(before: Session, line: Seq<char>, after: Session, step: Step) -> bool {
    match before.phase {
        Phase::AwaitPlayer => awaits_player(before, line, after, step),
        Phase::AwaitBoard => awaits_board(before, line, after, step),
        Phase::ReadBoard => reads_board(before, line, after, step),
        Phase::ReadPiece => reads_piece(before, line, after, step),
        Phase::Done => step is Stop && after.phase == Phase::Done,
    }
}

impl Session {
    /// A session that waits for the player line.
    pub fn new() -> (session: Session)
        ensures
            session.phase == Phase::AwaitPlayer,
            session.game.my_player == 0,
            session.board_lines@.len() == 0,
            session.piece_lines@.len() == 0,
            session.rows_left == 0,
            session.board is None,
            session.piece is None,
    {
        Session {
            phase: Phase::AwaitPlayer,
            game: Game::new(0),
            board_lines: Vec::new(),
            board: None,
            piece_lines: Vec::new(),
            rows_left: 0,
            piece: None,
        }
    }

    /// Reads the piece of the turn and picks the move.
    fn end_turn(&mut self) -> (step: Step)
        ensures
            turn_ends(old(self).board, texts(old(self).piece_lines@), *final(self), step),
            final(self).game.my_player == old(self).game.my_player,
            final(self).board == old(self).board,
            final(self).piece_lines == old(self).piece_lines,
            final(self).board_lines == old(self).board_lines,
    {
        let piece = match Piece::from_piece_lines(self.piece_lines.as_slice()) {
            Some(piece) => piece,
            None => {
                self.phase = Phase::Done;
                return Step::Stop;
            },
        };
        let choice = match &self.board {
            Some(board) => {
                // A board that was read is a rectangle; what is left to test is its size.
                if board.is_playable() && piece.cells.len() <= MAX_CELLS {
                    Some(self.game.choose_best_move(board, &piece))
                } else {
                    None
                }
            },
            None => {
                self.phase = Phase::Done;
                return Step::Stop;
            },
        };
        self.piece = Some(piece);
        match choice {
            Some(choice) => {
                self.phase = Phase::AwaitBoard;
                Step::Move(choice)
            },
            None => {
                self.phase = Phase::Done;
                Step::Unplayable
            },
        }
    }

    /// Takes the next line of input and tells the caller what to do.
    pub fn feed(&mut self, line: &str) -> (step: Step)
        ensures
            feed_step(*old(self), line@, *final(self), step),
    {
        match self.phase {
            Phase::AwaitPlayer => {
                if let Some(n) = parse_player_number(line) {
                    self.game.my_player = n;
                    self.phase = Phase::AwaitBoard;
                }
                Step::More
            },
            Phase::AwaitBoard => {
                if Board::is_header(line) {
                    let mut block: Vec<String> = Vec::new();
                    block.push(line.to_owned());
                    assert(texts(block@) =~= seq![line@]);
                    self.board_lines = block;
                    self.phase = Phase::ReadBoard;
                }
                Step::More
            },
            Phase::ReadBoard => {
                if !Piece::is_header(line) {
                    let ghost before = self.board_lines@;
                    self.board_lines.push(line.to_owned());
                    assert(texts(self.board_lines@) =~= texts(before).push(line@));
                    return Step::More;
                }
                match Board::from_anfield_lines(self.board_lines.as_slice(), self.game.my_player) {
                    Some(board) => {
                        self.board = Some(board);
                    },
                    None => {
                        self.phase = Phase::Done;
                        return Step::Stop;
                    },
                }
                let mut block: Vec<String> = Vec::new();
                block.push(line.to_owned());
                assert(texts(block@) =~= seq![line@]);
                self.piece_lines = block;
                let rows = Piece::rows_announced(line);
                if rows == 0 {
                    return self.end_turn();
                }
                self.rows_left = rows;
                self.phase = Phase::ReadPiece;
                Step::More
            },
            Phase::ReadPiece => {
                let ghost before = self.piece_lines@;
                self.piece_lines.push(line.to_owned());
                assert(texts(self.piece_lines@) =~= texts(before).push(line@));
                if self.rows_left > 1 {
                    self.rows_left = self.rows_left - 1;
                    return Step::More;
                }
                self.end_turn()
            },
            Phase::Done => Step::Stop,
        }
    }
}

} // verus!
