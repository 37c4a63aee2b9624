//! Rovers on an integer grid: moves and turns that respect blocked cells,
//! command sequences, a breadth-first route search and a lock-step fleet move.

mod direction;
mod fleet;
mod obstacles;
mod rover;
mod search;
mod vec2d;

pub use direction::{lemma_rotation_cycle, Direction};
pub use vec2d::{fits_i32, Vec2D};
pub use obstacles::ObstacleSet;
pub use rover::{
    is_command, lemma_empty_sequence, lemma_invalid_command, lemma_move_round_trip, lemma_run_push,
    run, run_fits, sequence_result, Rover,
};
pub use search::{completes, leads_to, lemma_route_round_trip, path_items, reaches, reversed};
pub use fleet::{fleet_command, fleet_from, fleet_result, occupied_by};
