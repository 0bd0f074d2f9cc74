//! Iterative radix-2 Cooley–Tukey transform engine for power-of-two-length
//! buffers, in a sequential and a data-parallel variant.
//!
//! The engine is generic over the element type: the butterfly arithmetic is
//! supplied by the caller as closures, and every contract relates the final
//! buffer to the input through the closures' postconditions. The bit-reversal
//! permutation and the stage/block/pair bookkeeping are fully verified.

pub mod bits;
pub mod permute;
pub mod engine;
