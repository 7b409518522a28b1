//! Archmage's tabletop core: a verified dice-notation calculator and the
//! campaign experience-level table.
//!
//! The calculator parses a mixed dice/arithmetic expression such as
//! `2d6+3*(1d4-1)` and evaluates it to a signed value together with a
//! human-readable trace of every roll and intermediate step.  The pipeline
//! runs one way: string → tokens ([`token`]) → tree ([`parser`]) → value
//! and trace ([`ast`]), with [`evaluate`] chaining the three.  [`laws`]
//! proves the properties that hold of every input, and [`campaign`] holds
//! the campaign model.

pub mod arith;
pub mod ast;
pub mod campaign;
pub mod evaluate;
pub mod laws;
pub mod parser;
pub mod rng;
pub mod text;
pub mod token;
