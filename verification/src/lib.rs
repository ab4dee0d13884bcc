//! A capture-resolution engine for the game of Go.
//!
//! The board is a fixed-size grid of cells. After every stone placement a
//! single row-major pass finds each maximal 4-connected group of same-colored
//! stones without a liberty (an adjacent empty point), removes it, and reports
//! its size. The pass is unconditional over both colors, so a placement that
//! leaves the mover's own group without liberties removes that group too.

pub mod board;
pub mod capture;
pub mod game;
pub mod model;
pub mod scan;

pub use board::{Board, Cell, Coord, GoError, Player, get_index, row_label_index, MAX_BOARD_SIZE};
pub use capture::{process_chain, resolve_capture, update_board};
pub use game::Game;
pub use scan::find_first_delim;
