//! A verified interpreter for a minimal tape-based language: an assembler
//! that resolves loop brackets into jump targets, and an executor that runs
//! the resulting instruction stream over a fixed byte tape.

pub mod assembler;
pub mod executor;
pub mod token;
