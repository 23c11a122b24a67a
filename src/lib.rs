//! Shortest-path routing on a small 8-connected grid with obstacles: a grid
//! model, exact step costs, an A* search, and a routing policy that may pass
//! through a powerup that clears the barriers.
pub mod cost;
pub mod game;
pub mod grid;
pub mod search;
