//! Simulation core for autonomous settlers that discover build targets
//! ("blueprints"), walk to them, and perform capacity-limited work on them.
//!
//! The crate models the world over plain integers: positions are integer
//! world units, and build progress is a fixed-point fraction with
//! denominator [`components::PROGRESS_ONE`]. Every tick of the simulation is
//! specified as a mathematical function of the previous tick's state, and the
//! executable code is verified to compute exactly that function.

pub mod math;
pub mod vec2;
pub mod components;
pub mod selector;
pub mod actions;
pub mod world;
pub mod laws;
