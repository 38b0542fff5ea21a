//! The deterministic simulation core: fixed-point maths, random numbers,
//! state hashing, the entity store, commands, tiles, seeded map generation,
//! navigation, fog of war, formations, technologies, match parameters and
//! replay validation.
//!
//! Given the same seed and the same command log, every machine produces
//! bit-identical state: nothing here uses floating point, a clock, or the
//! iteration order of a hash map.

pub mod angle;
pub mod command;
pub mod entity;
pub mod flow;
pub mod fog;
pub mod formation;
pub mod fx;
pub mod fx_order;
pub mod hash;
pub mod kinds;
pub mod map;
pub mod mapgen;
pub mod nav;
pub mod noise;
pub mod orders;
pub mod replay;
pub mod rng;
pub mod simulation;
pub mod tech;
pub mod text;
pub mod vec2;

pub use fx::Fx;
