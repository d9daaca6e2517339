//! Evolutionary dynamics on ternary strategy spaces: the integer core.
//!
//! Strategies are vectors over the alphabet {0, 1, 2}. This crate holds the
//! deterministic xorshift generator, strategy generation and validation,
//! ordering of agents by integer fitness keys, tournament selection, point
//! mutation, crossover, autofill mutation, the next-generation breeding step,
//! species classification and tracking, and the convergence verdict.
pub mod population;
pub mod species;
pub mod mutation;
pub mod selection;
pub mod convergence;
pub mod engine;
