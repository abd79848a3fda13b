//! Arithmetic in `Z_q` and in the polynomial ring `Z_q[x]/(x^n + 1)`, with proved contracts
//! and ring laws.
pub mod poly;
pub mod random;
pub mod ring;
pub mod text;
