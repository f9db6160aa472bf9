//! Connectivity core of a hexagonal tile-placement puzzle.
//!
//! Players drop route pieces onto a bounded hex grid; the puzzle is solved
//! when every designated house tile becomes mutually reachable through the
//! placed route segments.  This crate holds the route-graph engine — the
//! canonical edge connections, the incremental graph construction, the
//! completion and dead-end analysis — together with the weighted piece
//! generator, the rotation handler and the drag validator's placement
//! decisions.  All of it is verified; randomness is drawn through a few
//! trusted wrappers around `rand`, and the surrounding game shell (input,
//! rendering, timing) lives outside this crate.

pub mod board_gen;
pub mod cooldown;
pub mod graph;
pub mod hex;
pub mod map;
pub mod map_completion;
pub mod piece;
mod rng;
pub mod round;
pub mod score;

pub use board_gen::generate_board;
pub use board_gen::map_radius_for_level;
pub use hex::Hex;
pub use map::spawn_grid;
pub use map::EdgeConnection;
pub use map::GridError;
pub use map::MapHex;
pub use map::WorldMap;
pub use map_completion::CompletedMap;
pub use piece::get_opposite_side_index;
pub use piece::HexBlueprints;
pub use piece::Piece;
pub use piece::PieceHexData;
pub use round::RoundController;
pub use score::Level;
pub use score::Score;
