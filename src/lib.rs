//! A bounded arena of evolving neural agents: spatial grid, entity store,
//! perception rows, genome operators and the per-tick pipeline.
pub mod act;
pub mod consts;
pub mod entity;
pub mod genome;
pub mod geometry;
pub mod grid;
pub mod lifecycle;
pub mod perception;
pub mod population;
pub mod slots;
pub mod store;
pub mod tick;
pub mod view;
pub mod world;
