/// Points, polygons and turns in fixed-point field coordinates.
pub mod geometry;
/// Headings drawn at random, of unit length up to rounding.
pub mod heading;
/// The even-odd point-in-polygon test.
pub mod collision;
/// The toroidal field: primary and ghost copies of every moving shape.
pub mod wrap;
mod random;
/// Rocks: generation, drift, splitting and respawning.
pub mod asteroid;
/// The player's ship and its lasers.
pub mod ship;
/// One session and the decisions of each tick.
pub mod game;
