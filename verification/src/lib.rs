//! A puncturable partially-oblivious pseudorandom function over the
//! ristretto255 group: the server evaluates a keyed function on a blinded
//! client input under a public metadata tag, and can later puncture a tag so
//! that it can never again be evaluated.

pub mod codec;
pub mod dleq;
pub mod error;
pub mod ggm;
pub mod group;
pub mod laws;
pub mod modular;
pub mod ppoprf;
pub mod secret;
pub mod strobe;
