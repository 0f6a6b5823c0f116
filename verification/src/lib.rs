//! The core of a grid pathfinding visualiser: tiles and grid, the search, and
//! the buffer that replays the search's steps at a steady pace.
pub mod cost;
pub mod cost_laws;
pub mod grid;
pub mod grid_laws;
pub mod heuristic_laws;
pub mod picking;
pub mod replay_laws;
pub mod search;
pub mod search_best;
pub mod search_diagonal;
pub mod search_laws;
pub mod search_reach;
pub mod search_sound;
pub mod solve_buffer;
pub mod solver;
pub mod tile;
