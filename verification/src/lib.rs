//! A Filler player: the board model, the placement rule, the engine protocol
//! reader, the move line and the move-selection strategy, each with its contract.

pub mod field;
pub mod model;
pub mod output;
pub mod parser;
pub mod placement;
pub mod server;
pub mod strategy;
pub mod text;
pub mod visualizer;

pub use model::{Board, FillerError, Piece, Player, Position, Turn};
pub use output::format_move;
pub use parser::Parser;
pub use placement::{generate_placements, validate_placement};
pub use strategy::Strategy;
