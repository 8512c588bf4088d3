//! A two-dimensional cellular automaton in which cells fade out over several
//! ticks instead of dying at once.

pub mod config;
pub mod rules;
pub mod types;
pub mod ticks_processor;
pub mod setup;
