//! Visibility and navigation for a grid-based dungeon: shadow-casting field
//! of view, A* search, per-agent goal and path state, and occupancy-aware
//! movement of many agents on one grid.
pub mod geo;
pub mod fov;
pub mod graph;
pub mod map;
pub mod ai;
pub mod player;
