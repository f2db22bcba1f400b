//! Strict bootstrap Ethos reading over caller-issued encoded identities.
//!
//! [`bootstrap`] is the two-phase textual boundary: planning discovers every
//! authored declaration occurrence without identity authority, and sealing
//! reifies the strict semantic model from an exact naming assignment.
pub mod identity;
pub mod text;
pub mod bootstrap;
pub mod declaration;
pub mod document;
pub mod error;
pub mod rules;
pub mod slice_one;
pub mod textual;
pub mod universe;
pub mod whole;
