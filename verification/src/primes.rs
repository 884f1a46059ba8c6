//! The functions are in `primitives` and `naive`; `model` holds the notions their contracts
//! are stated in, `properties` what holds across them, and the other modules the number
//! theory that the proofs rest on.

pub mod divisibility;
pub mod fermat;
pub mod generators;
pub mod model;
pub mod naive;
pub mod orders;
pub mod polynomials;
pub mod powers;
pub mod primitives;
pub mod properties;
