//! Arbitrary-precision unsigned-integer arithmetic.
//!
//! The core representation is a sequence of 32-bit limbs in radix 2^32,
//! least-significant limb first, with construction from decimal text,
//! value equality, carry-propagating addition, and schoolbook
//! multiplication.  A simpler bit-per-limb variant serves as a
//! cross-check of the same operations in radix 2.

pub mod arith;
pub mod chunks;
pub mod decimal;
pub mod easy;
pub mod laws;
pub mod limbs;
pub mod optimized_memory;
