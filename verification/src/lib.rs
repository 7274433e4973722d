//! Analytical pipeline for daily price bars.
//!
//! The library turns aligned multi-instrument daily price bars into
//! normalized feature vectors, trains a self-organizing map over those
//! vectors, derives a winner sequence from the trained map, builds a
//! first-order Markov transition model over that sequence, and produces
//! a count-weighted forecast of the next day's relative price movement.
//!
//! All feature arithmetic is carried out in fixed point: a real number v
//! is represented by the integer round(v * SCALE) with SCALE = 1_000_000,
//! so every computation is exact integer arithmetic with floor division.

pub mod errors;
pub mod fixp;
pub mod calendar;
pub mod bars;
pub mod align;
pub mod som;
pub mod cluster;
pub mod markov;
pub mod forecast;
pub mod pipeline;
