//! A verified core for evolving thruster-control policies of a two-point
//! craft: fixed-point physics, a feedforward policy network, a regret-style
//! scoring rule, and a population-based evolutionary search, all stated in
//! contracts and proved.

#![allow(non_camel_case_types)]

pub mod evaluate;
pub mod evolve;
pub mod fx;
pub mod laws;
pub mod net;
pub mod rng;
pub mod ship;
pub mod trig;
pub mod vec2;
