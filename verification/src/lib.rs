//! Modular arithmetic over the fixed prime field with modulus `P = 1_000_000_007`:
//! fast modular exponentiation, linear-time batch inverses, and a normalized
//! field-element type with its arithmetic operators.

pub mod fermat;
pub mod field;
pub mod inverse;
pub mod modpow;
pub mod prime;

pub use field::Finite;
pub use inverse::inv_dp;
pub use modpow::pow;
pub use modpow::P;
