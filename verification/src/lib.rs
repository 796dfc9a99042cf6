//! Navigation core for a tick-driven crowd simulation: an obstacle grid,
//! shortest-path search over it, per-agent path caching, conversion between
//! the discrete grid and the continuous simulation plane, and the per-tick
//! movement rules that consume the cached paths.

pub mod calc_utils;
pub mod grid;
pub mod navigation_point;
pub mod object_grid_loader;
pub mod pathfinding;
pub mod pedestrian;
pub mod state;
pub mod state_components;
pub mod utility_types;
