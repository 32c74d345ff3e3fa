//! Steel Core: grid, building, logistics and wave rules of a factory tower-defence game.
pub mod config;
pub mod map;
pub mod path;
pub mod placement;
pub mod combat;
pub mod logistics;
