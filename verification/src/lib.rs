//! A finite-precision arithmetic coder: a lossless entropy codec that maps a
//! stream of symbols drawn from a weighted alphabet to a compact bit sequence,
//! and back, using only fixed-width integer arithmetic.
//!
//! The caller supplies a probability model (an [`alphabet::Alphabet`]) giving
//! each symbol an integer interval width; the encoder and decoder share the
//! same fixed-point interval model and must be run with the same precision
//! parameter for round-tripping to work.

pub mod alphabet;
pub mod bit;
pub mod decoder;
pub mod encoder;
pub mod example;
pub mod numeric;
