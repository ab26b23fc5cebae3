//! A move chooser for a two-player territory game played on a grid.
//!
//! Each turn the mover is handed a piece and must put it on the board so that
//! it covers exactly one of the mover's own cells and none of the opponent's.
//! The library reads the board and the piece from their text form, decides
//! which placements are legal, scores them and picks the best one.

pub mod text;
pub mod board;
pub mod piece;
pub mod placement;
pub mod game;
pub mod parser;
pub mod protocol;
pub mod projection;
pub mod scoring;
pub mod turn;
pub mod territory;
pub mod window;
pub mod search;
