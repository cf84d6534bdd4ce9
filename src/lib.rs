//! Arithmetic in prime fields and the group law of short-Weierstrass
//! elliptic curves, with contracts checked by Verus.

pub mod error;
pub mod fieldelement;
pub mod number_theory;
pub mod point;
pub mod text;
