//! A fixed-width 320-bit integer stored as five 64-bit limbs, with
//! carry-exact wrapping addition and subtraction, two's-complement signed
//! ordering, and a binary extended-Euclidean (Stein) modular inverse that
//! uses only addition, subtraction and halving.

pub mod gcd;
pub mod i320;
pub mod inverse;
pub mod laws;

pub use i320::I320;
