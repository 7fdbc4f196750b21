//! Minimum-cost routing between two cells of a terrain grid.
//!
//! The grid is a rectangle of terrain codes. A route moves by cardinal steps
//! through cells that are not walls, and entering a cell costs what its terrain
//! costs. The search is an A* guided by the Manhattan distance.

pub mod tile;
pub mod paint;
pub mod grid;
pub mod frontier;
pub mod scores;
pub mod route;
pub mod model;
pub mod search;
pub mod optimal;
