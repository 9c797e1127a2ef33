//! A Mersenne Twister generator of 32-bit words and a family of stable
//! least-significant-digit radix sorts built on one counting-sort pass.

pub mod mt;
pub mod order;
pub mod pass;
pub mod sort;
pub mod laws;
